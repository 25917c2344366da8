//! The item-tree builder: a recursive-descent parser that fills the
//! database with modules, functions, imports and unresolved bodies,
//! driven by the grammar
//!
//! ```text
//! program      := { "module" module } EOF
//! module       := IDENT "{" { member } "}"
//! member       := module | function | using
//! function     := "function" IDENT "(" ")" "{" { stmt } "}"
//! stmt         := call | using
//! call         := dotted_ident "(" ")" ";"
//! using        := "using" dotted_ident ";"
//! dotted_ident := IDENT { "." IDENT }
//! ```
//!
//! The grammar is stated once more as spec functions over the token
//! stream (`spec_parse_program` and friends), and every parse function
//! is proved to produce exactly what they describe.  The builder also
//! guarantees what the resolver depends on: it only ever appends
//! items, the database stays well formed, and when it returns
//! successfully every function it created has its unresolved body
//! attached.

use crate::ast::{UnresolvedAST, UnresolvedIdent};
use crate::database::{Database, ItemId, ItemKind};
use crate::error::ResolveError;
use crate::lexer::{Token, TokenKind};
use crate::model::{
    bodies_attached, bodies_attached_except, body_wf, db_extends, lemma_db_extends_trans,
    model_add_import, model_new_item, model_set_unresolved, n_items, valid_handle, DbModel,
};
use vstd::prelude::*;

verus! {

/// A cursor over the token stream.
pub struct Parser<'a> {
    tokens: &'a Vec<Token>,
    pos: usize,
}

/// The kind of the token at `pos`, with the end of the stream read as
/// `Eof`.
pub open spec fn spec_peek(toks: Seq<Token>, pos: int) -> TokenKind {
    if pos < toks.len() {
        toks[pos]@.kind
    } else {
        TokenKind::Eof
    }
}

impl<'a> Parser<'a> {
    pub closed spec fn wf(&self) -> bool {
        self.pos <= self.tokens@.len()
    }

    pub closed spec fn spec_tokens(&self) -> Seq<Token> {
        self.tokens@
    }

    pub closed spec fn spec_pos(&self) -> int {
        self.pos as int
    }

    fn peek(&self) -> (k: TokenKind)
        requires
            self.wf(),
        ensures
            k == spec_peek(self.spec_tokens(), self.spec_pos()),
    {
        if self.pos < self.tokens.len() {
            self.tokens[self.pos].kind
        } else {
            TokenKind::Eof
        }
    }

    /// Consume the next token when it has the wanted kind; report
    /// `UnexpectedToken` otherwise.
    fn expect(&mut self, kind: TokenKind) -> (r: Result<&'a Token, ResolveError>)
        requires
            old(self).wf(),
            kind != TokenKind::Eof,
        ensures
            final(self).wf(),
            final(self).spec_tokens() == old(self).spec_tokens(),
            match r {
                Ok(t) => spec_peek(old(self).spec_tokens(), old(self).spec_pos()) == kind && old(
                    self,
                ).spec_pos() < old(self).spec_tokens().len() && *t == old(self).spec_tokens()[old(
                    self,
                ).spec_pos()] && final(self).spec_pos() == old(self).spec_pos() + 1,
                Err(e) => spec_peek(old(self).spec_tokens(), old(self).spec_pos()) != kind && e
                    == ResolveError::UnexpectedToken && final(self).spec_pos() == old(
                    self,
                ).spec_pos(),
            },
    {
        let toks = self.tokens;
        if self.pos < toks.len() {
            let t = &toks[self.pos];
            if t.kind == kind {
                self.pos = self.pos + 1;
                return Ok(t);
            }
        }
        Err(ResolveError::UnexpectedToken)
    }
}

// ---------------------------------------------------------------------
// The grammar, as spec functions over the token stream.  Each one
// answers what the corresponding parse function produces and where it
// leaves the cursor, or `None` when the tokens do not match the
// grammar at that point.
// ---------------------------------------------------------------------

pub open spec fn spec_parse_ident_rest(toks: Seq<Token>, pos: int, acc: Seq<Seq<char>>) -> Option<
    (Seq<Seq<char>>, int),
>
    decreases toks.len() - pos,
{
    if spec_peek(toks, pos) == TokenKind::Dot {
        if spec_peek(toks, pos + 1) == TokenKind::Ident {
            spec_parse_ident_rest(toks, pos + 2, acc.push(toks[pos + 1]@.lexeme))
        } else {
            None
        }
    } else {
        Some((acc, pos))
    }
}

/// `dotted_ident := IDENT { "." IDENT }`
pub open spec fn spec_parse_ident(toks: Seq<Token>, pos: int) -> Option<(Seq<Seq<char>>, int)> {
    if spec_peek(toks, pos) == TokenKind::Ident {
        spec_parse_ident_rest(toks, pos + 1, seq![toks[pos]@.lexeme])
    } else {
        None
    }
}

/// `using := "using" dotted_ident ";"` with the keyword already
/// consumed: the import is recorded on `item`'s scope.
pub open spec fn spec_parse_using(m: DbModel, toks: Seq<Token>, pos: int, item: int) -> Option<
    (DbModel, int),
> {
    match spec_parse_ident(toks, pos) {
        Some(pr) => {
            if spec_peek(toks, pr.1) == TokenKind::Semicolon {
                Some((model_add_import(m, item, pr.0), pr.1 + 1))
            } else {
                None
            }
        },
        None => None,
    }
}

/// The statements of one function body, up to the closing brace: the
/// calls collected in order, `using` declarations recorded as they
/// appear.
pub open spec fn spec_parse_stmts(
    m: DbModel,
    toks: Seq<Token>,
    pos: int,
    fid: int,
    acc: Seq<Seq<Seq<char>>>,
) -> Option<(DbModel, Seq<Seq<Seq<char>>>, int)>
    decreases toks.len() - pos,
{
    match spec_peek(toks, pos) {
        TokenKind::Ident => match spec_parse_ident(toks, pos) {
            Some(pr) => {
                if spec_peek(toks, pr.1) == TokenKind::ParenLeft && spec_peek(toks, pr.1 + 1)
                    == TokenKind::ParenRight && spec_peek(toks, pr.1 + 2) == TokenKind::Semicolon {
                    if pos < pr.1 + 3 {
                        spec_parse_stmts(m, toks, pr.1 + 3, fid, acc.push(pr.0))
                    } else {
                        None
                    }
                } else {
                    None
                }
            },
            None => None,
        },
        TokenKind::Using => match spec_parse_using(m, toks, pos + 1, fid) {
            Some(ur) => {
                if pos < ur.1 <= toks.len() {
                    spec_parse_stmts(ur.0, toks, ur.1, fid, acc)
                } else {
                    None
                }
            },
            None => None,
        },
        TokenKind::BraceRight => Some((m, acc, pos)),
        _ => None,
    }
}

/// A function body in braces: the collected calls become `fid`'s
/// unresolved body.
pub open spec fn spec_parse_function_block(
    m: DbModel,
    toks: Seq<Token>,
    pos: int,
    fid: int,
) -> Option<(DbModel, int)> {
    if spec_peek(toks, pos) == TokenKind::BraceLeft {
        match spec_parse_stmts(m, toks, pos + 1, fid, Seq::empty()) {
            Some(sr) => {
                if spec_peek(toks, sr.2) == TokenKind::BraceRight {
                    Some((model_set_unresolved(sr.0, fid, sr.1), sr.2 + 1))
                } else {
                    None
                }
            },
            None => None,
        }
    } else {
        None
    }
}

/// `function := "function" IDENT "(" ")" "{" { stmt } "}"` with the
/// keyword already consumed.
pub open spec fn spec_parse_function(m: DbModel, toks: Seq<Token>, pos: int, parent: int) -> Option<
    (DbModel, int),
> {
    if spec_peek(toks, pos) == TokenKind::Ident {
        if spec_peek(toks, pos + 1) == TokenKind::ParenLeft && spec_peek(toks, pos + 2)
            == TokenKind::ParenRight {
            spec_parse_function_block(
                model_new_item(m, toks[pos]@.lexeme, ItemKind::Function, Some(parent)),
                toks,
                pos + 3,
                n_items(m),
            )
        } else {
            None
        }
    } else {
        None
    }
}

/// The members of one module, up to the closing brace.
pub open spec fn spec_parse_members(m: DbModel, toks: Seq<Token>, pos: int, parent: int) -> Option<
    (DbModel, int),
>
    decreases toks.len() - pos, 3int,
{
    match spec_peek(toks, pos) {
        TokenKind::Function => match spec_parse_function(m, toks, pos + 1, parent) {
            Some(fr) => {
                if pos < fr.1 <= toks.len() {
                    spec_parse_members(fr.0, toks, fr.1, parent)
                } else {
                    None
                }
            },
            None => None,
        },
        TokenKind::Module => match spec_parse_module(m, toks, pos + 1, Some(parent)) {
            Some(mr) => {
                if pos < mr.1 <= toks.len() {
                    spec_parse_members(mr.0, toks, mr.1, parent)
                } else {
                    None
                }
            },
            None => None,
        },
        TokenKind::Using => match spec_parse_using(m, toks, pos + 1, parent) {
            Some(ur) => {
                if pos < ur.1 <= toks.len() {
                    spec_parse_members(ur.0, toks, ur.1, parent)
                } else {
                    None
                }
            },
            None => None,
        },
        TokenKind::BraceRight => Some((m, pos)),
        _ => None,
    }
}

/// A module body in braces.
pub open spec fn spec_parse_module_block(
    m: DbModel,
    toks: Seq<Token>,
    pos: int,
    parent: int,
) -> Option<(DbModel, int)>
    decreases toks.len() - pos, 2int,
{
    if spec_peek(toks, pos) == TokenKind::BraceLeft {
        match spec_parse_members(m, toks, pos + 1, parent) {
            Some(mr) => {
                if spec_peek(toks, mr.1) == TokenKind::BraceRight {
                    Some((mr.0, mr.1 + 1))
                } else {
                    None
                }
            },
            None => None,
        }
    } else {
        None
    }
}

/// `module := IDENT "{" { member } "}"` with the keyword already
/// consumed; the module is declared under `parent`, or under the root
/// when none is given.
pub open spec fn spec_parse_module(
    m: DbModel,
    toks: Seq<Token>,
    pos: int,
    parent: Option<int>,
) -> Option<(DbModel, int)>
    decreases toks.len() - pos, 4int,
{
    if spec_peek(toks, pos) == TokenKind::Ident {
        spec_parse_module_block(
            model_new_item(m, toks[pos]@.lexeme, ItemKind::Module, parent),
            toks,
            pos + 1,
            n_items(m),
        )
    } else {
        None
    }
}

/// `program := { "module" module } EOF`
pub open spec fn spec_parse_program(m: DbModel, toks: Seq<Token>, pos: int) -> Option<DbModel>
    decreases toks.len() - pos, 5int,
{
    if spec_peek(toks, pos) == TokenKind::Eof {
        Some(m)
    } else if spec_peek(toks, pos) == TokenKind::Module {
        match spec_parse_module(m, toks, pos + 1, None) {
            Some(mr) => {
                if pos < mr.1 <= toks.len() {
                    spec_parse_program(mr.0, toks, mr.1)
                } else {
                    None
                }
            },
            None => None,
        }
    } else {
        None
    }
}

/// Parse a dotted identifier: `IDENT { "." IDENT }`.
fn parse_ident(parser: &mut Parser) -> (r: Result<UnresolvedIdent, ResolveError>)
    requires
        old(parser).wf(),
    ensures
        final(parser).wf(),
        final(parser).spec_tokens() == old(parser).spec_tokens(),
        match r {
            Ok(id) => id.wf() && final(parser).spec_pos() > old(parser).spec_pos()
                && spec_parse_ident(old(parser).spec_tokens(), old(parser).spec_pos()) == Some(
                (id@, final(parser).spec_pos()),
            ),
            Err(e) => e == ResolveError::UnexpectedToken && spec_parse_ident(
                old(parser).spec_tokens(),
                old(parser).spec_pos(),
            ) is None,
        },
{
    let ghost toks = old(parser).spec_tokens();
    let ghost pos0 = old(parser).spec_pos();
    let t = parser.expect(TokenKind::Ident)?;
    let mut parts: Vec<String> = Vec::new();
    parts.push(t.lexeme.clone());
    proof {
        assert(parts@.map_values(|p: String| p@) =~= seq![toks[pos0]@.lexeme]);
    }
    while matches!(parser.peek(), TokenKind::Dot)
        invariant
            parser.wf(),
            parser.spec_tokens() == toks,
            toks == old(parser).spec_tokens(),
            pos0 == old(parser).spec_pos(),
            parser.spec_pos() > pos0,
            parts@.len() >= 1,
            spec_parse_ident(toks, pos0) == spec_parse_ident_rest(
                toks,
                parser.spec_pos(),
                parts@.map_values(|p: String| p@),
            ),
        decreases parser.spec_tokens().len() - parser.spec_pos(),
    {
        let ghost prev = parts@.map_values(|p: String| p@);
        let ghost pd = parser.spec_pos();
        parser.expect(TokenKind::Dot)?;
        let seg = parser.expect(TokenKind::Ident)?;
        parts.push(seg.lexeme.clone());
        proof {
            assert(parts@.map_values(|p: String| p@) =~= prev.push(toks[pd + 1]@.lexeme));
        }
    }
    proof {
        assert(spec_parse_ident_rest(toks, parser.spec_pos(), parts@.map_values(|p: String| p@))
            == Some((parts@.map_values(|p: String| p@), parser.spec_pos())));
    }
    Ok(UnresolvedIdent { parts })
}

/// Parse `using dotted_ident ;` (the keyword is already consumed) and
/// record the import on `item_id`'s scope.
fn parse_using(database: &mut Database, parser: &mut Parser, item_id: ItemId) -> (r: Result<
    (),
    ResolveError,
>)
    requires
        old(database).wf(),
        old(database).valid_id(item_id),
        old(parser).wf(),
    ensures
        final(database).wf(),
        final(parser).wf(),
        final(parser).spec_tokens() == old(parser).spec_tokens(),
        final(database)@.items == old(database)@.items,
        final(database)@.unresolved == old(database)@.unresolved,
        final(database)@.resolved == old(database)@.resolved,
        r is Ok ==> final(parser).spec_pos() > old(parser).spec_pos(),
        r matches Err(e) ==> e == ResolveError::UnexpectedToken,
        r is Ok ==> spec_parse_using(
            old(database)@,
            old(parser).spec_tokens(),
            old(parser).spec_pos(),
            item_id@,
        ) == Some((final(database)@, final(parser).spec_pos())),
        r is Err ==> spec_parse_using(
            old(database)@,
            old(parser).spec_tokens(),
            old(parser).spec_pos(),
            item_id@,
        ) is None,
{
    let ident = parse_ident(parser)?;
    parser.expect(TokenKind::Semicolon)?;
    database.add_import(item_id, ident);
    Ok(())
}

/// Parse a function body: `{ { stmt } }`, collecting the calls in
/// order and attaching them as `func_id`'s unresolved body.
fn parse_function_block(database: &mut Database, parser: &mut Parser, func_id: ItemId) -> (r:
    Result<(), ResolveError>)
    requires
        old(database).wf(),
        old(database).valid_id(func_id),
        old(database)@.items[func_id@].kind == ItemKind::Function,
        bodies_attached_except(old(database)@, func_id@),
        old(parser).wf(),
    ensures
        final(database).wf(),
        final(parser).wf(),
        final(parser).spec_tokens() == old(parser).spec_tokens(),
        db_extends(final(database)@, old(database)@),
        r is Ok ==> bodies_attached(final(database)@) && final(parser).spec_pos() > old(
            parser,
        ).spec_pos(),
        r matches Err(e) ==> e == ResolveError::UnexpectedToken,
        r is Ok ==> spec_parse_function_block(
            old(database)@,
            old(parser).spec_tokens(),
            old(parser).spec_pos(),
            func_id@,
        ) == Some((final(database)@, final(parser).spec_pos())),
        r is Err ==> spec_parse_function_block(
            old(database)@,
            old(parser).spec_tokens(),
            old(parser).spec_pos(),
            func_id@,
        ) is None,
    decreases old(parser).spec_tokens().len() - old(parser).spec_pos(),
{
    let ghost toks = old(parser).spec_tokens();
    let ghost pos0 = old(parser).spec_pos();
    let ghost m0 = old(database)@;
    parser.expect(TokenKind::BraceLeft)?;
    let mut ast: Vec<UnresolvedAST> = Vec::new();
    proof {
        assert(ast@.map_values(|n: UnresolvedAST| n@) =~= Seq::<Seq<Seq<char>>>::empty());
    }
    loop
        invariant
            database.wf(),
            parser.wf(),
            parser.spec_tokens() == old(parser).spec_tokens(),
            parser.spec_pos() > old(parser).spec_pos(),
            database.valid_id(func_id),
            database@.items[func_id@].kind == ItemKind::Function,
            bodies_attached_except(database@, func_id@),
            db_extends(database@, old(database)@),
            database@.unresolved[func_id@] == old(database)@.unresolved[func_id@],
            body_wf(ast@.map_values(|n: UnresolvedAST| n@)),
            toks == old(parser).spec_tokens(),
            pos0 == old(parser).spec_pos(),
            m0 == old(database)@,
            spec_peek(toks, pos0) == TokenKind::BraceLeft,
            spec_parse_stmts(m0, toks, pos0 + 1, func_id@, Seq::empty()) == spec_parse_stmts(
                database@,
                toks,
                parser.spec_pos(),
                func_id@,
                ast@.map_values(|n: UnresolvedAST| n@),
            ),
        ensures
            database.wf(),
            parser.wf(),
            parser.spec_tokens() == toks,
            parser.spec_pos() > pos0,
            database.valid_id(func_id),
            database@.items[func_id@].kind == ItemKind::Function,
            bodies_attached_except(database@, func_id@),
            db_extends(database@, m0),
            body_wf(ast@.map_values(|n: UnresolvedAST| n@)),
            spec_peek(toks, parser.spec_pos()) == TokenKind::BraceRight,
            spec_parse_stmts(m0, toks, pos0 + 1, func_id@, Seq::empty()) == Some(
                (database@, ast@.map_values(|n: UnresolvedAST| n@), parser.spec_pos()),
            ),
        decreases parser.spec_tokens().len() - parser.spec_pos(),
    {
        let ghost m_loop = database@;
        let ghost p_loop = parser.spec_pos();
        let ghost acc_loop = ast@.map_values(|n: UnresolvedAST| n@);
        match parser.peek() {
            TokenKind::Ident => {
                // Every bare statement in this grammar is a call.
                let ident = parse_ident(parser)?;
                parser.expect(TokenKind::ParenLeft)?;
                parser.expect(TokenKind::ParenRight)?;
                parser.expect(TokenKind::Semicolon)?;
                let ghost prev = ast@;
                ast.push(UnresolvedAST::Call { ident });
                proof {
                    assert(ast@.map_values(|n: UnresolvedAST| n@) =~= prev.map_values(
                        |n: UnresolvedAST| n@,
                    ).push(ident@));
                    assert(spec_parse_stmts(m_loop, toks, p_loop, func_id@, acc_loop)
                        == spec_parse_stmts(
                        m_loop,
                        toks,
                        parser.spec_pos(),
                        func_id@,
                        acc_loop.push(ident@),
                    ));
                }
            },
            TokenKind::Using => {
                parser.expect(TokenKind::Using)?;
                parse_using(database, parser, func_id)?;
                proof {
                    assert(spec_parse_stmts(m_loop, toks, p_loop, func_id@, acc_loop)
                        == spec_parse_stmts(
                        database@,
                        toks,
                        parser.spec_pos(),
                        func_id@,
                        acc_loop,
                    ));
                }
            },
            TokenKind::BraceRight => {
                break ;
            },
            _ => {
                return Err(ResolveError::UnexpectedToken);
            },
        }
    }
    let ghost m_pre = database@;
    let ghost p_end = parser.spec_pos();
    proof {
        assert(spec_parse_stmts(m0, toks, pos0 + 1, func_id@, Seq::empty()) == Some(
            (m_pre, ast@.map_values(|n: UnresolvedAST| n@), p_end),
        ));
    }
    let sr = database.set_unresolved_body(func_id, ast);
    proof {
        assert(sr is Ok);
        assert forall|i: int|
            valid_handle(database@, i) && database@.items[i].kind
                == ItemKind::Function implies (#[trigger] database@.unresolved[i]) is Some by {
            if i != func_id@ {
                assert(database@.unresolved[i] == m_pre.unresolved[i]);
                assert(database@.items[i] == m_pre.items[i]);
            }
        }
    }
    parser.expect(TokenKind::BraceRight)?;
    Ok(())
}

/// Parse `function IDENT ( ) { ... }` (the keyword is already
/// consumed) under the module `parent_id`.
fn parse_function(database: &mut Database, parser: &mut Parser, parent_id: ItemId) -> (r: Result<
    (),
    ResolveError,
>)
    requires
        old(database).wf(),
        old(database).valid_id(parent_id),
        bodies_attached(old(database)@),
        old(parser).wf(),
    ensures
        final(database).wf(),
        final(parser).wf(),
        final(parser).spec_tokens() == old(parser).spec_tokens(),
        db_extends(final(database)@, old(database)@),
        r is Ok ==> bodies_attached(final(database)@) && final(parser).spec_pos() > old(
            parser,
        ).spec_pos(),
        r matches Err(e) ==> e == ResolveError::UnexpectedToken,
        r is Ok ==> spec_parse_function(
            old(database)@,
            old(parser).spec_tokens(),
            old(parser).spec_pos(),
            parent_id@,
        ) == Some((final(database)@, final(parser).spec_pos())),
        r is Err ==> spec_parse_function(
            old(database)@,
            old(parser).spec_tokens(),
            old(parser).spec_pos(),
            parent_id@,
        ) is None,
    decreases old(parser).spec_tokens().len() - old(parser).spec_pos(),
{
    let ghost toks = old(parser).spec_tokens();
    let ghost pos0 = old(parser).spec_pos();
    let name = parser.expect(TokenKind::Ident)?.lexeme.clone();
    let ghost m_pre = database@;
    proof {
        assert(name@ == toks[pos0]@.lexeme);
    }
    let func_id = database.new_item(name, ItemKind::Function, Some(parent_id));
    proof {
        assert forall|i: int|
            valid_handle(database@, i) && i != func_id@ && database@.items[i].kind
                == ItemKind::Function implies (#[trigger] database@.unresolved[i]) is Some by {
            assert(database@.unresolved == m_pre.unresolved.push(None));
            assert(m_pre.unresolved.push(None)[i] == m_pre.unresolved[i]);
            assert(database@.items[i] == m_pre.items[i]);
            assert(m_pre.unresolved[i] is Some);
        }
        assert(db_extends(database@, m_pre));
        assert(database@ == model_new_item(
            m_pre,
            toks[pos0]@.lexeme,
            ItemKind::Function,
            Some(parent_id@),
        ));
        assert(func_id@ == n_items(m_pre));
    }
    parser.expect(TokenKind::ParenLeft)?;
    parser.expect(TokenKind::ParenRight)?;
    let ghost m_mid = database@;
    let res = parse_function_block(database, parser, func_id);
    proof {
        lemma_db_extends_trans(database@, m_mid, m_pre);
    }
    res
}

/// Parse `module IDENT { ... }` (the keyword is already consumed)
/// under `parent_id`, or under the root when none is given.
fn parse_module(database: &mut Database, parser: &mut Parser, parent_id: Option<ItemId>) -> (r:
    Result<(), ResolveError>)
    requires
        old(database).wf(),
        parent_id matches Some(p) ==> old(database).valid_id(p),
        bodies_attached(old(database)@),
        old(parser).wf(),
    ensures
        final(database).wf(),
        final(parser).wf(),
        final(parser).spec_tokens() == old(parser).spec_tokens(),
        db_extends(final(database)@, old(database)@),
        r is Ok ==> bodies_attached(final(database)@) && final(parser).spec_pos() > old(
            parser,
        ).spec_pos(),
        r matches Err(e) ==> e == ResolveError::UnexpectedToken,
        r is Ok ==> spec_parse_module(
            old(database)@,
            old(parser).spec_tokens(),
            old(parser).spec_pos(),
            match parent_id {
                Some(p) => Some(p@),
                None => None,
            },
        ) == Some((final(database)@, final(parser).spec_pos())),
        r is Err ==> spec_parse_module(
            old(database)@,
            old(parser).spec_tokens(),
            old(parser).spec_pos(),
            match parent_id {
                Some(p) => Some(p@),
                None => None,
            },
        ) is None,
    decreases old(parser).spec_tokens().len() - old(parser).spec_pos(),
{
    let ghost toks = old(parser).spec_tokens();
    let ghost pos0 = old(parser).spec_pos();
    let ghost pview: Option<int> = match parent_id {
        Some(p) => Some(p@),
        None => None,
    };
    let name = parser.expect(TokenKind::Ident)?.lexeme.clone();
    let ghost m_pre = database@;
    proof {
        assert(name@ == toks[pos0]@.lexeme);
    }
    let module_id = database.new_item(name, ItemKind::Module, parent_id);
    proof {
        assert forall|i: int|
            valid_handle(database@, i) && database@.items[i].kind
                == ItemKind::Function implies (#[trigger] database@.unresolved[i]) is Some by {
            if i < n_items(m_pre) {
                assert(database@.unresolved == m_pre.unresolved.push(None));
                assert(m_pre.unresolved.push(None)[i] == m_pre.unresolved[i]);
                assert(database@.items[i] == m_pre.items[i]);
                assert(m_pre.unresolved[i] is Some);
            }
        }
        assert(db_extends(database@, m_pre));
        assert(database@ == model_new_item(m_pre, toks[pos0]@.lexeme, ItemKind::Module, pview));
        assert(module_id@ == n_items(m_pre));
    }
    let ghost m_mid = database@;
    let res = parse_module_block(database, parser, module_id);
    proof {
        lemma_db_extends_trans(database@, m_mid, m_pre);
    }
    res
}

/// Parse a module body: `{ { member } }`, where a member is a nested
/// module, a function, or a `using` declaration.
fn parse_module_block(database: &mut Database, parser: &mut Parser, parent_id: ItemId) -> (r:
    Result<(), ResolveError>)
    requires
        old(database).wf(),
        old(database).valid_id(parent_id),
        bodies_attached(old(database)@),
        old(parser).wf(),
    ensures
        final(database).wf(),
        final(parser).wf(),
        final(parser).spec_tokens() == old(parser).spec_tokens(),
        db_extends(final(database)@, old(database)@),
        r is Ok ==> bodies_attached(final(database)@) && final(parser).spec_pos() > old(
            parser,
        ).spec_pos(),
        r matches Err(e) ==> e == ResolveError::UnexpectedToken,
        r is Ok ==> spec_parse_module_block(
            old(database)@,
            old(parser).spec_tokens(),
            old(parser).spec_pos(),
            parent_id@,
        ) == Some((final(database)@, final(parser).spec_pos())),
        r is Err ==> spec_parse_module_block(
            old(database)@,
            old(parser).spec_tokens(),
            old(parser).spec_pos(),
            parent_id@,
        ) is None,
    decreases old(parser).spec_tokens().len() - old(parser).spec_pos(),
{
    let ghost toks = old(parser).spec_tokens();
    let ghost pos0 = old(parser).spec_pos();
    let ghost m0 = old(database)@;
    parser.expect(TokenKind::BraceLeft)?;
    loop
        invariant
            database.wf(),
            parser.wf(),
            parser.spec_tokens() == old(parser).spec_tokens(),
            parser.spec_pos() > old(parser).spec_pos(),
            database.valid_id(parent_id),
            bodies_attached(database@),
            db_extends(database@, old(database)@),
            toks == old(parser).spec_tokens(),
            pos0 == old(parser).spec_pos(),
            m0 == old(database)@,
            spec_peek(toks, pos0) == TokenKind::BraceLeft,
            spec_parse_members(m0, toks, pos0 + 1, parent_id@) == spec_parse_members(
                database@,
                toks,
                parser.spec_pos(),
                parent_id@,
            ),
        ensures
            database.wf(),
            parser.wf(),
            parser.spec_tokens() == toks,
            parser.spec_pos() > pos0,
            database.valid_id(parent_id),
            bodies_attached(database@),
            db_extends(database@, m0),
            spec_peek(toks, parser.spec_pos()) == TokenKind::BraceRight,
            spec_parse_members(m0, toks, pos0 + 1, parent_id@) == Some(
                (database@, parser.spec_pos()),
            ),
        decreases parser.spec_tokens().len() - parser.spec_pos(),
    {
        let ghost m_it = database@;
        let ghost p_it = parser.spec_pos();
        match parser.peek() {
            TokenKind::Function => {
                parser.expect(TokenKind::Function)?;
                parse_function(database, parser, parent_id)?;
                proof {
                    lemma_db_extends_trans(database@, m_it, old(database)@);
                    assert(spec_parse_members(m_it, toks, p_it, parent_id@) == spec_parse_members(
                        database@,
                        toks,
                        parser.spec_pos(),
                        parent_id@,
                    ));
                }
            },
            TokenKind::Module => {
                parser.expect(TokenKind::Module)?;
                parse_module(database, parser, Some(parent_id))?;
                proof {
                    lemma_db_extends_trans(database@, m_it, old(database)@);
                    assert(spec_parse_members(m_it, toks, p_it, parent_id@) == spec_parse_members(
                        database@,
                        toks,
                        parser.spec_pos(),
                        parent_id@,
                    ));
                }
            },
            TokenKind::Using => {
                parser.expect(TokenKind::Using)?;
                parse_using(database, parser, parent_id)?;
                proof {
                    assert(spec_parse_members(m_it, toks, p_it, parent_id@) == spec_parse_members(
                        database@,
                        toks,
                        parser.spec_pos(),
                        parent_id@,
                    ));
                }
            },
            TokenKind::BraceRight => {
                break ;
            },
            _ => {
                return Err(ResolveError::UnexpectedToken);
            },
        }
    }
    parser.expect(TokenKind::BraceRight)?;
    Ok(())
}

/// Parse a whole program: top-level modules until the end of the
/// stream.  On success the database is extended with every declared
/// item and every new function carries its unresolved body.
pub fn parse(database: &mut Database, tokens: &Vec<Token>) -> (r: Result<(), ResolveError>)
    requires
        old(database).wf(),
        bodies_attached(old(database)@),
    ensures
        final(database).wf(),
        db_extends(final(database)@, old(database)@),
        r is Ok ==> bodies_attached(final(database)@),
        r matches Err(e) ==> e == ResolveError::UnexpectedToken,
        r is Ok ==> spec_parse_program(old(database)@, tokens@, 0) == Some(final(database)@),
        r is Err ==> spec_parse_program(old(database)@, tokens@, 0) is None,
{
    let mut parser = Parser { tokens, pos: 0 };
    loop
        invariant
            database.wf(),
            parser.wf(),
            parser.spec_tokens() == tokens@,
            bodies_attached(database@),
            db_extends(database@, old(database)@),
            spec_parse_program(old(database)@, tokens@, 0) == spec_parse_program(
                database@,
                tokens@,
                parser.spec_pos(),
            ),
        ensures
            database.wf(),
            bodies_attached(database@),
            db_extends(database@, old(database)@),
            spec_parse_program(old(database)@, tokens@, 0) == Some(database@),
        decreases parser.spec_tokens().len() - parser.spec_pos(),
    {
        let ghost m_it = database@;
        let ghost p_it = parser.spec_pos();
        if matches!(parser.peek(), TokenKind::Eof) {
            break ;
        }
        parser.expect(TokenKind::Module)?;
        parse_module(database, &mut parser, None)?;
        proof {
            lemma_db_extends_trans(database@, m_it, old(database)@);
            assert(spec_parse_program(m_it, tokens@, p_it) == spec_parse_program(
                database@,
                tokens@,
                parser.spec_pos(),
            ));
        }
    }
    Ok(())
}

} // verus!
