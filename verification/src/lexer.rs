//! The tokenizer: source text in, a sequence of typed tokens out.
//!
//! Tokenization follows the maximal-munch rule.  Identifiers are a
//! letter followed by at least one more letter, digit or underscore;
//! an identifier-shaped run that spells a keyword becomes that
//! keyword's token.  Whitespace is skipped; any character no token can
//! start with stops lexing with an error.

use crate::error::ResolveError;
use vstd::prelude::*;

verus! {

/// The kinds of token the grammar knows.  `Eof` is never produced by
/// [`lex`]; it stands for the end of the stream when peeking past it.
#[derive(Debug, Clone, Copy, PartialEq, Eq, Structural)]
pub enum TokenKind {
    BraceLeft,
    BraceRight,
    Dot,
    Ident,
    Function,
    Module,
    ParenLeft,
    ParenRight,
    Semicolon,
    Using,
    Eof,
}

/// One token: its kind and the exact source spelling.
#[derive(Debug)]
pub struct Token {
    pub kind: TokenKind,
    pub lexeme: String,
}

/// Model of one token.
pub ghost struct TokenModel {
    pub kind: TokenKind,
    pub lexeme: Seq<char>,
}

impl View for Token {
    type V = TokenModel;

    open spec fn view(&self) -> TokenModel {
        TokenModel { kind: self.kind, lexeme: self.lexeme@ }
    }
}

pub open spec fn tokens_view(ts: Seq<Token>) -> Seq<TokenModel> {
    ts.map_values(|t: Token| t@)
}

pub open spec fn is_whitespace_char(c: char) -> bool {
    c == ' ' || c == '\t' || c == '\r' || c == '\n'
}

pub open spec fn is_ident_start_char(c: char) -> bool {
    (('a' as u32) <= (c as u32) && (c as u32) <= ('z' as u32)) || (('A' as u32) <= (c as u32) && (
    c as u32) <= ('Z' as u32))
}

pub open spec fn is_ident_continue_char(c: char) -> bool {
    is_ident_start_char(c) || (('0' as u32) <= (c as u32) && (c as u32) <= ('9' as u32)) || c == '_'
}

/// The token kind of a single punctuation character, if any.
pub open spec fn punct_kind(c: char) -> Option<TokenKind> {
    if c == '{' {
        Some(TokenKind::BraceLeft)
    } else if c == '}' {
        Some(TokenKind::BraceRight)
    } else if c == '.' {
        Some(TokenKind::Dot)
    } else if c == '(' {
        Some(TokenKind::ParenLeft)
    } else if c == ')' {
        Some(TokenKind::ParenRight)
    } else if c == ';' {
        Some(TokenKind::Semicolon)
    } else {
        None
    }
}

/// The kind of an identifier-shaped lexeme: a keyword spelling wins
/// over a plain identifier of the same length.
pub open spec fn word_kind(s: Seq<char>) -> TokenKind {
    if s == "function"@ {
        TokenKind::Function
    } else if s == "module"@ {
        TokenKind::Module
    } else if s == "using"@ {
        TokenKind::Using
    } else {
        TokenKind::Ident
    }
}

/// The first position at or after `i` that does not continue an
/// identifier.
pub open spec fn ident_end(s: Seq<char>, i: int) -> int
    decreases s.len() - i when 0 <= i <= s.len()
{
    if i < s.len() && is_ident_continue_char(s[i]) {
        ident_end(s, i + 1)
    } else {
        i
    }
}

pub proof fn lemma_ident_end_bounds(s: Seq<char>, i: int)
    requires
        0 <= i <= s.len(),
    ensures
        i <= ident_end(s, i) <= s.len(),
    decreases s.len() - i,
{
    if i < s.len() && is_ident_continue_char(s[i]) {
        lemma_ident_end_bounds(s, i + 1);
    }
}

/// The token stream starting at position `i` of `s`, or `None` when
/// the remaining text does not tokenize.
pub open spec fn lex_from(s: Seq<char>, i: int) -> Option<Seq<TokenModel>>
    decreases s.len() - i when 0 <= i <= s.len() via lex_from_decreases
{
    if i >= s.len() {
        Some(Seq::empty())
    } else if is_whitespace_char(s[i]) {
        lex_from(s, i + 1)
    } else {
        match punct_kind(s[i]) {
            Some(k) => match lex_from(s, i + 1) {
                Some(rest) => Some(
                    seq![TokenModel { kind: k, lexeme: s.subrange(i, i + 1) }] + rest,
                ),
                None => None,
            },
            None => {
                if is_ident_start_char(s[i]) {
                    let j = ident_end(s, i + 1);
                    if j - i >= 2 {
                        match lex_from(s, j) {
                            Some(rest) => Some(
                                seq![
                                    TokenModel {
                                        kind: word_kind(s.subrange(i, j)),
                                        lexeme: s.subrange(i, j),
                                    },
                                ] + rest,
                            ),
                            None => None,
                        }
                    } else {
                        None
                    }
                } else {
                    None
                }
            },
        }
    }
}

#[via_fn]
proof fn lex_from_decreases(s: Seq<char>, i: int) {
    if 0 <= i < s.len() {
        lemma_ident_end_bounds(s, i + 1);
    }
}

fn is_whitespace(c: char) -> (r: bool)
    ensures
        r == is_whitespace_char(c),
{
    c == ' ' || c == '\t' || c == '\r' || c == '\n'
}

fn is_ident_start(c: char) -> (r: bool)
    ensures
        r == is_ident_start_char(c),
{
    let u = c as u32;
    (('a' as u32) <= u && u <= ('z' as u32)) || (('A' as u32) <= u && u <= ('Z' as u32))
}

fn is_ident_continue(c: char) -> (r: bool)
    ensures
        r == is_ident_continue_char(c),
{
    let u = c as u32;
    is_ident_start(c) || (('0' as u32) <= u && u <= ('9' as u32)) || c == '_'
}

fn punct(c: char) -> (r: Option<TokenKind>)
    ensures
        r == punct_kind(c),
{
    if c == '{' {
        Some(TokenKind::BraceLeft)
    } else if c == '}' {
        Some(TokenKind::BraceRight)
    } else if c == '.' {
        Some(TokenKind::Dot)
    } else if c == '(' {
        Some(TokenKind::ParenLeft)
    } else if c == ')' {
        Some(TokenKind::ParenRight)
    } else if c == ';' {
        Some(TokenKind::Semicolon)
    } else {
        None
    }
}

fn str_eq(a: &str, b: &str) -> (r: bool)
    ensures
        r == (a@ == b@),
{
    let na = a.unicode_len();
    let nb = b.unicode_len();
    if na != nb {
        proof {
            assert(a@ != b@);
        }
        return false;
    }
    let mut i: usize = 0;
    while i < na
        invariant
            i <= na,
            na == a@.len(),
            nb == b@.len(),
            na == nb,
            forall|k: int| 0 <= k < i ==> a@[k] == b@[k],
        decreases na - i,
    {
        if a.get_char(i) != b.get_char(i) {
            return false;
        }
        i = i + 1;
    }
    proof {
        assert(a@ =~= b@);
    }
    true
}

fn word_token_kind(lexeme: &str) -> (k: TokenKind)
    ensures
        k == word_kind(lexeme@),
{
    if str_eq(lexeme, "function") {
        TokenKind::Function
    } else if str_eq(lexeme, "module") {
        TokenKind::Module
    } else if str_eq(lexeme, "using") {
        TokenKind::Using
    } else {
        TokenKind::Ident
    }
}

/// Tokenize a whole source text.  On success the result is exactly
/// the token stream that [`lex_from`] ascribes to the text; on failure
/// the text does not tokenize at all.
pub fn lex(source: &str) -> (r: Result<Vec<Token>, ResolveError>)
    ensures
        match r {
            Ok(toks) => lex_from(source@, 0) == Some(tokens_view(toks@)),
            Err(e) => lex_from(source@, 0) is None && e == ResolveError::UnexpectedToken,
        },
{
    let n = source.unicode_len();
    let mut toks: Vec<Token> = Vec::new();
    let mut i: usize = 0;
    proof {
        assert(tokens_view(toks@) =~= Seq::<TokenModel>::empty());
    }
    while i < n
        invariant
            i <= n,
            n == source@.len(),
            match lex_from(source@, i as int) {
                Some(rest) => lex_from(source@, 0) == Some(tokens_view(toks@) + rest),
                None => lex_from(source@, 0) is None,
            },
        decreases n - i,
    {
        let ghost prev = toks@;
        let c = source.get_char(i);
        if is_whitespace(c) {
            proof {
                assert(lex_from(source@, i as int) == lex_from(source@, i as int + 1));
            }
            i = i + 1;
        } else {
            match punct(c) {
                Some(k) => {
                    let lexeme = source.substring_char(i, i + 1).to_owned();
                    proof {
                        assert(lexeme@ == source@.subrange(i as int, i as int + 1));
                    }
                    toks.push(Token { kind: k, lexeme });
                    proof {
                        let tok = TokenModel {
                            kind: k,
                            lexeme: source@.subrange(i as int, i as int + 1),
                        };
                        assert(tokens_view(toks@) =~= tokens_view(prev) + seq![tok]);
                        match lex_from(source@, i as int + 1) {
                            Some(rest) => {
                                assert((tokens_view(prev) + seq![tok]) + rest =~= tokens_view(prev)
                                    + (seq![tok] + rest));
                            },
                            None => {},
                        }
                    }
                    i = i + 1;
                },
                None => {
                    if is_ident_start(c) {
                        let mut j = i + 1;
                        while j < n && is_ident_continue(source.get_char(j))
                            invariant
                                i + 1 <= j <= n,
                                n == source@.len(),
                                ident_end(source@, i as int + 1) == ident_end(source@, j as int),
                            decreases n - j,
                        {
                            proof {
                                assert(ident_end(source@, j as int) == ident_end(
                                    source@,
                                    j as int + 1,
                                ));
                            }
                            j = j + 1;
                        }
                        proof {
                            assert(ident_end(source@, j as int) == j as int);
                        }
                        if j - i >= 2 {
                            let lexeme = source.substring_char(i, j).to_owned();
                            let k = word_token_kind(lexeme.as_str());
                            proof {
                                assert(lexeme@ == source@.subrange(i as int, j as int));
                            }
                            toks.push(Token { kind: k, lexeme });
                            proof {
                                let tok = TokenModel {
                                    kind: word_kind(source@.subrange(i as int, j as int)),
                                    lexeme: source@.subrange(i as int, j as int),
                                };
                                assert(tokens_view(toks@) =~= tokens_view(prev) + seq![tok]);
                                match lex_from(source@, j as int) {
                                    Some(rest) => {
                                        assert((tokens_view(prev) + seq![tok]) + rest
                                            =~= tokens_view(prev) + (seq![tok] + rest));
                                    },
                                    None => {},
                                }
                            }
                            i = j;
                        } else {
                            return Err(ResolveError::UnexpectedToken);
                        }
                    } else {
                        return Err(ResolveError::UnexpectedToken);
                    }
                },
            }
        }
    }
    proof {
        assert(lex_from(source@, i as int) == Some(Seq::<TokenModel>::empty()));
        assert(tokens_view(toks@) + Seq::<TokenModel>::empty() =~= tokens_view(toks@));
    }
    Ok(toks)
}

} // verus!
