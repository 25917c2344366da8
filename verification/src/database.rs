//! The item database: the single owner of all declared items, their
//! scopes, and their bodies.

use crate::ast::{ResolvedAST, UnresolvedAST, UnresolvedIdent};
use crate::error::ResolveError;
use crate::model::{
    apply_aliases, bind_alias, bindings_in_range, bodies_attached, body_wf, clear_all_imports,
    clear_imports, db_wf, full_resolve, ident_wf, last_seg, lemma_bind_alias_wf,
    lemma_clear_imports_wf, lemma_model_new_item_wf, model_add_import, model_new_item,
    model_set_unresolved, n_items, phase1, phase1_resolve_from, phase2_from, phase2_item,
    resolve_body, resolve_from, resolve_imports_of, resolve_path, set_resolved, valid_handle,
    visible_symbol, AliasBinding, DbModel, ItemModel, ScopeModel,
};
use vstd::prelude::*;

verus! {

/// The closed tag of a declared item.
#[derive(Debug, Clone, Copy, PartialEq, Eq, Structural)]
pub enum ItemKind {
    Function,
    Module,
}

/// An opaque, densely assigned numeric handle for a declared item.
/// Handle 0 always denotes the implicit root module.
#[derive(Debug, Clone, Copy, PartialEq, Eq, Structural)]
pub struct ItemId(pub usize);

impl View for ItemId {
    type V = int;

    open spec fn view(&self) -> int {
        self.0 as int
    }
}

/// One declared entity: its kind, declaration-site name, the handle of
/// its lexically enclosing module, and its own handle.  Immutable once
/// created.
#[derive(Debug)]
pub struct ItemHeader {
    pub kind: ItemKind,
    pub name: String,
    pub parent: ItemId,
    pub id: ItemId,
}

impl View for ItemHeader {
    type V = ItemModel;

    open spec fn view(&self) -> ItemModel {
        ItemModel { kind: self.kind, name: self.name@, parent: self.parent@, id: self.id@ }
    }
}

/// The name-to-handle map carried by an append-only association list:
/// a later entry for a name shadows every earlier one.
spec fn kv_map(s: Seq<(String, ItemId)>) -> Map<Seq<char>, int>
    decreases s.len(),
{
    if s.len() == 0 {
        Map::empty()
    } else {
        kv_map(s.drop_last()).insert(s.last().0@, s.last().1@)
    }
}

proof fn lemma_kv_map_push(s: Seq<(String, ItemId)>, name: String, id: ItemId)
    ensures
        kv_map(s.push((name, id))) == kv_map(s).insert(name@, id@),
{
    assert(s.push((name, id)).drop_last() =~= s);
}

proof fn lemma_kv_map_found(s: Seq<(String, ItemId)>, k: Seq<char>, j: int)
    requires
        0 <= j < s.len(),
        s[j].0@ == k,
        forall|l: int| j < l < s.len() ==> s[l].0@ != k,
    ensures
        kv_map(s).contains_key(k),
        kv_map(s)[k] == s[j].1@,
    decreases s.len(),
{
    if j == s.len() - 1 {
    } else {
        lemma_kv_map_found(s.drop_last(), k, j);
    }
}

proof fn lemma_kv_map_absent(s: Seq<(String, ItemId)>, k: Seq<char>)
    requires
        forall|l: int| 0 <= l < s.len() ==> s[l].0@ != k,
    ensures
        !kv_map(s).contains_key(k),
    decreases s.len(),
{
    if s.len() > 0 {
        lemma_kv_map_absent(s.drop_last(), k);
    }
}

/// One item's scope: its pending imports and the bindings from names
/// to the handles of its direct children and resolved aliases.
pub struct Scope {
    unresolved_imports: Vec<UnresolvedIdent>,
    children: Vec<(String, ItemId)>,
}

impl View for Scope {
    type V = ScopeModel;

    closed spec fn view(&self) -> ScopeModel {
        ScopeModel {
            imports: self.unresolved_imports@.map_values(|p: UnresolvedIdent| p@),
            children: kv_map(self.children@),
        }
    }
}

impl Scope {
    fn new() -> (s: Scope)
        ensures
            s@.imports =~= Seq::<Seq<Seq<char>>>::empty(),
            s@.children =~= Map::<Seq<char>, int>::empty(),
    {
        Scope { unresolved_imports: Vec::new(), children: Vec::new() }
    }

    /// Bind `name` to `id`.  A later binding for the same name shadows
    /// the earlier one.
    fn add_child(&mut self, name: String, id: ItemId)
        ensures
            final(self)@.children == old(self)@.children.insert(name@, id@),
            final(self)@.imports == old(self)@.imports,
    {
        proof {
            lemma_kv_map_push(self.children@, name, id);
        }
        self.children.push((name, id));
    }

    /// Look a name up among the bindings of this scope.
    fn get_child(&self, name: &String) -> (r: Option<ItemId>)
        ensures
            match r {
                Some(id) => self@.children.contains_key(name@) && id@ == self@.children[name@],
                None => !self@.children.contains_key(name@),
            },
    {
        let n = self.children.len();
        let mut j: usize = n;
        while j > 0
            invariant
                j <= n,
                n == self.children.len(),
                forall|l: int| j <= l < self.children@.len() ==> self.children@[l].0@ != name@,
            decreases j,
        {
            j = j - 1;
            if self.children[j].0 == *name {
                proof {
                    lemma_kv_map_found(self.children@, name@, j as int);
                }
                return Some(self.children[j].1);
            }
        }
        proof {
            lemma_kv_map_absent(self.children@, name@);
        }
        None
    }
}

/// The database: append-only parallel arrays of items, scopes and
/// bodies, all indexed by handle.
pub struct Database {
    headers: Vec<ItemHeader>,
    root: ItemId,
    unresolved_bodies: Vec<Option<Vec<UnresolvedAST>>>,
    resolved_bodies: Vec<Option<Vec<ResolvedAST>>>,
    scopes: Vec<Scope>,
}

/// The model of one alias that phase 1 has resolved and will bind.
pub open spec fn aliases_view(v: Seq<(usize, String, ItemId)>) -> Seq<AliasBinding> {
    v.map_values(
        |t: (usize, String, ItemId)| AliasBinding { scope: t.0 as int, name: t.1@, handle: t.2@ },
    )
}

/// The model of one stored unresolved body.
pub open spec fn ubody_view(b: Option<Vec<UnresolvedAST>>) -> Option<Seq<Seq<Seq<char>>>> {
    match b {
        Some(v) => Some(v@.map_values(|n: UnresolvedAST| n@)),
        None => None,
    }
}

/// The model of one stored resolved body.
pub open spec fn rbody_view(b: Option<Vec<ResolvedAST>>) -> Option<Seq<int>> {
    match b {
        Some(v) => Some(v@.map_values(|n: ResolvedAST| n@)),
        None => None,
    }
}

impl View for Database {
    type V = DbModel;

    closed spec fn view(&self) -> DbModel {
        DbModel {
            items: self.headers@.map_values(|h: ItemHeader| h@),
            scopes: self.scopes@.map_values(|s: Scope| s@),
            unresolved: self.unresolved_bodies@.map_values(|b: Option<Vec<UnresolvedAST>>| ubody_view(b)),
            resolved: self.resolved_bodies@.map_values(|b: Option<Vec<ResolvedAST>>| rbody_view(b)),
        }
    }
}

impl Database {
    pub closed spec fn root_ok(&self) -> bool {
        self.root == (ItemId(0usize))
    }

    /// The representation invariant: the model is well formed and the
    /// cached root handle is handle 0.
    pub open spec fn wf(&self) -> bool {
        &&& db_wf(self@)
        &&& self.root_ok()
    }

    /// A handle is valid when it indexes an existing item.
    pub open spec fn valid_id(&self, id: ItemId) -> bool {
        valid_handle(self@, id@)
    }

    /// Create a database holding only the implicit root module, at
    /// handle 0.  The root registers its own name in its own scope.
    pub fn new() -> (s: Database)
        ensures
            s.wf(),
            n_items(s@) == 1,
            s@.items[0].kind == ItemKind::Module,
            s@.items[0].name == "<ROOT>"@,
            s@.items[0].parent == 0,
            s@.scopes[0].children == Map::<Seq<char>, int>::empty().insert("<ROOT>"@, 0),
            s@.scopes[0].imports.len() == 0,
            s@.unresolved[0] is None,
            s@.resolved[0] is None,
    {
        let mut s = Database {
            headers: Vec::new(),
            root: ItemId(0),
            unresolved_bodies: Vec::new(),
            resolved_bodies: Vec::new(),
            scopes: Vec::new(),
        };
        let name: String = "<ROOT>".to_owned();
        let id = ItemId(0);
        s.headers.push(ItemHeader { kind: ItemKind::Module, name: name.clone(), parent: id, id });
        s.scopes.push(Scope::new());
        s.unresolved_bodies.push(None);
        s.resolved_bodies.push(None);
        s.scopes[0].add_child(name, id);
        s
    }

    /// Allocate the next handle, store the item, create its empty
    /// scope, and register its name in the parent's scope (the root's
    /// when no parent is given).
    pub fn new_item(&mut self, name: String, kind: ItemKind, parent: Option<ItemId>) -> (id: ItemId)
        requires
            old(self).wf(),
            parent matches Some(p) ==> old(self).valid_id(p),
        ensures
            final(self).wf(),
            final(self).valid_id(id),
            id@ == n_items(old(self)@),
            final(self)@ == model_new_item(
                old(self)@,
                name@,
                kind,
                match parent {
                    Some(p) => Some(p@),
                    None => None,
                },
            ),
    {
        let id = ItemId(self.headers.len());
        let parent_id = match parent {
            Some(p) => p,
            None => self.root,
        };
        self.headers.push(ItemHeader { kind, name: name.clone(), parent: parent_id, id });
        self.scopes.push(Scope::new());
        self.unresolved_bodies.push(None);
        self.resolved_bodies.push(None);
        self.scopes[parent_id.0].add_child(name, id);
        proof {
            let m2 = model_new_item(
                old(self)@,
                name@,
                kind,
                match parent {
                    Some(p) => Some(p@),
                    None => None,
                },
            );
            assert(self@.items =~= m2.items);
            assert(self@.scopes =~= m2.scopes);
            assert(self@.unresolved =~= m2.unresolved);
            assert(self@.resolved =~= m2.resolved);
            assert(self@ =~= m2);
            lemma_model_new_item_wf(
                old(self)@,
                name@,
                kind,
                match parent {
                    Some(p) => Some(p@),
                    None => None,
                },
            );
        }
        id
    }

    /// The number of items the database holds.  Handles `0 .. count`
    /// are exactly the valid handles.
    pub fn item_count(&self) -> (n: usize)
        ensures
            n == n_items(self@),
    {
        self.headers.len()
    }

    /// Read one item's header.
    pub fn get_header(&self, id: ItemId) -> (h: &ItemHeader)
        requires
            self.wf(),
            self.valid_id(id),
        ensures
            h@ == self@.items[id@],
    {
        &self.headers[id.0]
    }

    fn get_scope(&self, id: ItemId) -> (s: &Scope)
        requires
            self.wf(),
            self.valid_id(id),
        ensures
            s@ == self@.scopes[id@],
    {
        &self.scopes[id.0]
    }

    /// Whether an unresolved body has been attached to `id`.
    pub fn has_unresolved_body(&self, id: ItemId) -> (r: bool)
        requires
            self.wf(),
            self.valid_id(id),
        ensures
            r == (self@.unresolved[id@] is Some),
    {
        self.unresolved_bodies[id.0].is_some()
    }

    /// Attach the unresolved body of a function.  Only functions may
    /// own a body.
    pub fn set_unresolved_body(&mut self, id: ItemId, body: Vec<UnresolvedAST>) -> (r: Result<
        (),
        ResolveError,
    >)
        requires
            old(self).wf(),
            old(self).valid_id(id),
            body_wf(body@.map_values(|n: UnresolvedAST| n@)),
        ensures
            final(self).wf(),
            (r is Ok) == (old(self)@.items[id@].kind == ItemKind::Function),
            r is Ok ==> final(self)@ == model_set_unresolved(
                old(self)@,
                id@,
                body@.map_values(|n: UnresolvedAST| n@),
            ),
            r matches Err(e) ==> *final(self) == *old(self) && e == ResolveError::InvalidItemKind,
    {
        if !matches!(self.headers[id.0].kind, ItemKind::Function) {
            return Err(ResolveError::InvalidItemKind);
        }
        self.unresolved_bodies[id.0] = Some(body);
        proof {
            let m2 = model_set_unresolved(
                old(self)@,
                id@,
                body@.map_values(|n: UnresolvedAST| n@),
            );
            assert(self@.unresolved =~= m2.unresolved);
            assert(self@ =~= m2);
            assert forall|i: int| valid_handle(self@, i) implies crate::model::item_wf(self@, i) by {
                assert(crate::model::item_wf(old(self)@, i));
            }
            assert forall|i: int| valid_handle(self@, i) implies crate::model::scope_wf(self@, i) by {
                assert(crate::model::scope_wf(old(self)@, i));
            }
        }
        Ok(())
    }

    /// Read the unresolved body of a function.  The body must have
    /// been attached first.
    pub fn get_unresolved_body(&self, id: ItemId) -> (r: Result<&Vec<UnresolvedAST>, ResolveError>)
        requires
            self.wf(),
            self.valid_id(id),
            self@.items[id@].kind == ItemKind::Function ==> self@.unresolved[id@] is Some,
        ensures
            (r is Ok) == (self@.items[id@].kind == ItemKind::Function),
            r matches Ok(b) ==> Some(b@.map_values(|n: UnresolvedAST| n@)) == self@.unresolved[id@],
            r matches Err(e) ==> e == ResolveError::InvalidItemKind,
    {
        if !matches!(self.headers[id.0].kind, ItemKind::Function) {
            return Err(ResolveError::InvalidItemKind);
        }
        match self.unresolved_bodies[id.0].as_ref() {
            Some(b) => Ok(b),
            None => Err(ResolveError::InvalidItemKind),
        }
    }

    /// Store the resolved body of a function.  Only functions may own
    /// a body.
    pub fn set_resolved_body(&mut self, id: ItemId, body: Vec<ResolvedAST>) -> (r: Result<
        (),
        ResolveError,
    >)
        requires
            old(self).wf(),
            old(self).valid_id(id),
        ensures
            final(self).wf(),
            (r is Ok) == (old(self)@.items[id@].kind == ItemKind::Function),
            r is Ok ==> final(self)@ == set_resolved(
                old(self)@,
                id@,
                body@.map_values(|n: ResolvedAST| n@),
            ),
            r matches Err(e) ==> *final(self) == *old(self) && e == ResolveError::InvalidItemKind,
    {
        if !matches!(self.headers[id.0].kind, ItemKind::Function) {
            return Err(ResolveError::InvalidItemKind);
        }
        self.resolved_bodies[id.0] = Some(body);
        proof {
            let m2 = set_resolved(old(self)@, id@, body@.map_values(|n: ResolvedAST| n@));
            assert(self@.resolved =~= m2.resolved);
            assert(self@ =~= m2);
            assert forall|i: int| valid_handle(self@, i) implies crate::model::item_wf(self@, i) by {
                assert(crate::model::item_wf(old(self)@, i));
            }
            assert forall|i: int| valid_handle(self@, i) implies crate::model::scope_wf(self@, i) by {
                assert(crate::model::scope_wf(old(self)@, i));
            }
        }
        Ok(())
    }

    /// Read the resolved body of a function, if phase 2 has stored
    /// one.
    pub fn get_resolved_body(&self, id: ItemId) -> (r: Option<&Vec<ResolvedAST>>)
        requires
            self.wf(),
            self.valid_id(id),
        ensures
            match r {
                Some(b) => Some(b@.map_values(|n: ResolvedAST| n@)) == self@.resolved[id@],
                None => self@.resolved[id@] is None,
            },
    {
        self.resolved_bodies[id.0].as_ref()
    }

    /// Append an unresolved import to the target scope.  Both module
    /// and function scopes may import.
    pub fn add_import(&mut self, id: ItemId, ident: UnresolvedIdent)
        requires
            old(self).wf(),
            old(self).valid_id(id),
            ident.wf(),
        ensures
            final(self).wf(),
            final(self)@ == model_add_import(old(self)@, id@, ident@),
    {
        self.scopes[id.0].unresolved_imports.push(ident);
        proof {
            let m2 = model_add_import(old(self)@, id@, ident@);
            assert(self@.scopes[id@].imports =~= m2.scopes[id@].imports);
            assert(self@.scopes =~= m2.scopes);
            assert(self@ =~= m2);
            assert forall|i: int| valid_handle(self@, i) implies crate::model::scope_wf(self@, i) by {
                assert(crate::model::scope_wf(old(self)@, i));
            }
            assert forall|i: int| valid_handle(self@, i) implies crate::model::item_wf(self@, i) by {
                assert(crate::model::item_wf(old(self)@, i));
            }
        }
    }

    /// The visible-symbol lookup: which binding a bare (first) path
    /// segment refers to, seen from `item_id`.  Priority order: the
    /// item's own name, its own children, its enclosing module's
    /// children (functions only), the root module's children.  The
    /// result equals `model::visible_symbol`, whose priority chain
    /// `laws::lemma_shadow_order` pins down case by case.
    pub fn get_visible_symbol(&self, item_id: ItemId, name: &String) -> (r: Result<
        ItemId,
        ResolveError,
    >)
        requires
            self.wf(),
            self.valid_id(item_id),
        ensures
            match r {
                Ok(h) => visible_symbol(self@, item_id@, name@) == Some(h@) && self.valid_id(h),
                Err(e) => visible_symbol(self@, item_id@, name@) is None && e
                    == ResolveError::SymbolNotFound,
            },
    {
        proof {
            assert(crate::model::item_wf(self@, item_id@));
            assert(crate::model::scope_wf(self@, item_id@));
            assert(crate::model::scope_wf(self@, self@.items[item_id@].parent));
            assert(crate::model::scope_wf(self@, 0));
        }
        // It is valid for an item to refer to itself, so that comes
        // first.
        let own = &self.headers[item_id.0];
        if own.name == *name {
            return Ok(item_id);
        }
        // Then the item's own children.
        match self.get_scope(item_id).get_child(name) {
            Some(c) => {
                return Ok(c);
            },
            None => {},
        }
        // A function also sees its enclosing module's children; a
        // module does not look past its own scope, so that it only
        // sees what it declared or imported itself.
        if !matches!(own.kind, ItemKind::Module) {
            match self.get_scope(own.parent).get_child(name) {
                Some(c) => {
                    return Ok(c);
                },
                None => {},
            }
        }
        // Finally the root module's scope.
        match self.get_scope(self.root).get_child(name) {
            Some(c) => {
                return Ok(c);
            },
            None => {},
        }
        Err(ResolveError::SymbolNotFound)
    }

    /// Resolve one dotted identifier, starting at `item_id`: find the
    /// first segment with the visible-symbol lookup, then traverse
    /// down through module scopes.  The result equals
    /// `model::resolve_path`, of which `laws` proves self-reference
    /// priority, the downward-traversal failure rule, determinism and
    /// congruence.
    pub fn resolve_single_ident(&self, item_id: ItemId, ident: &UnresolvedIdent) -> (r: Result<
        ItemId,
        ResolveError,
    >)
        requires
            self.wf(),
            self.valid_id(item_id),
            ident.wf(),
        ensures
            match r {
                Ok(h) => resolve_path(self@, item_id@, ident@) == Ok::<int, ResolveError>(h@)
                    && self.valid_id(h),
                Err(e) => resolve_path(self@, item_id@, ident@) == Err::<int, ResolveError>(e),
            },
    {
        let ghost full = ident@;
        let first = match self.get_visible_symbol(item_id, &ident.parts[0]) {
            Ok(h) => h,
            Err(e) => {
                return Err(e);
            },
        };
        let mut cur = first;
        let mut k: usize = 1;
        proof {
            assert(full.drop_first() =~= full.skip(1));
        }
        while k < ident.parts.len()
            invariant
                self.wf(),
                self.valid_id(cur),
                1 <= k <= ident.parts.len(),
                full == ident@,
                full.len() == ident.parts.len(),
                resolve_path(self@, item_id@, full) == resolve_from(
                    self@,
                    cur@,
                    full.skip(k as int),
                ),
            decreases ident.parts.len() - k,
        {
            proof {
                assert(full.skip(k as int).len() == full.len() - k);
                assert(full.skip(k as int)[0] == full[k as int]);
            }
            let hdr = &self.headers[cur.0];
            if !matches!(hdr.kind, ItemKind::Module) {
                return Err(ResolveError::InvalidPathSegment);
            }
            match self.get_scope(cur).get_child(&ident.parts[k]) {
                None => {
                    return Err(ResolveError::SymbolNotFound);
                },
                Some(c) => {
                    proof {
                        assert(crate::model::scope_wf(self@, cur@));
                        assert(full.skip(k as int).drop_first() =~= full.skip(k as int + 1));
                    }
                    cur = c;
                    k = k + 1;
                },
            }
        }
        proof {
            assert(full.skip(k as int).len() == 0);
        }
        Ok(cur)
    }

    /// Resolve every call of one unresolved body, in order, producing
    /// the resolved body.
    fn resolve_idents_in_body(&self, current_func: ItemId, body: &Vec<UnresolvedAST>) -> (r: Result<
        Vec<ResolvedAST>,
        ResolveError,
    >)
        requires
            self.wf(),
            self.valid_id(current_func),
            body_wf(body@.map_values(|n: UnresolvedAST| n@)),
        ensures
            match r {
                Ok(v) => resolve_body(
                    self@,
                    current_func@,
                    body@.map_values(|n: UnresolvedAST| n@),
                ) == Ok::<Seq<int>, ResolveError>(v@.map_values(|n: ResolvedAST| n@)),
                Err(e) => resolve_body(
                    self@,
                    current_func@,
                    body@.map_values(|n: UnresolvedAST| n@),
                ) == Err::<Seq<int>, ResolveError>(e),
            },
    {
        let ghost bview = body@.map_values(|n: UnresolvedAST| n@);
        let mut new_body: Vec<ResolvedAST> = Vec::new();
        let mut j: usize = 0;
        proof {
            assert(bview.skip(0) =~= bview);
            assert(new_body@.map_values(|n: ResolvedAST| n@) =~= Seq::<int>::empty());
        }
        while j < body.len()
            invariant
                self.wf(),
                self.valid_id(current_func),
                j <= body.len(),
                bview == body@.map_values(|n: UnresolvedAST| n@),
                body_wf(bview),
                bview.len() == body.len(),
                match resolve_body(self@, current_func@, bview.skip(j as int)) {
                    Ok(rest) => resolve_body(self@, current_func@, bview) == Ok::<
                        Seq<int>,
                        ResolveError,
                    >(new_body@.map_values(|n: ResolvedAST| n@) + rest),
                    Err(e) => resolve_body(self@, current_func@, bview) == Err::<
                        Seq<int>,
                        ResolveError,
                    >(e),
                },
            decreases body.len() - j,
        {
            proof {
                assert(bview.skip(j as int).len() == bview.len() - j);
                assert(bview.skip(j as int)[0] == bview[j as int]);
                assert(bview.skip(j as int).drop_first() =~= bview.skip(j as int + 1));
            }
            let node = &body[j];
            match node {
                UnresolvedAST::Call { ident } => {
                    proof {
                        assert(ident@ == bview[j as int]);
                        assert(ident_wf(bview[j as int]));
                    }
                    match self.resolve_single_ident(current_func, ident) {
                        Ok(h) => {
                            let ghost done = new_body@.map_values(|n: ResolvedAST| n@);
                            new_body.push(ResolvedAST::Call { ident: h });
                            proof {
                                assert(new_body@.map_values(|n: ResolvedAST| n@) =~= done + seq![
                                    h@,
                                ]);
                                match resolve_body(self@, current_func@, bview.skip(j as int + 1)) {
                                    Ok(rest2) => {
                                        assert((done + seq![h@]) + rest2 =~= done + (seq![h@]
                                            + rest2));
                                    },
                                    Err(_) => {},
                                }
                            }
                            j = j + 1;
                        },
                        Err(e) => {
                            return Err(e);
                        },
                    }
                },
            }
        }
        proof {
            assert(bview.skip(j as int).len() == 0);
            assert(new_body@.map_values(|n: ResolvedAST| n@) + Seq::<int>::empty() =~= new_body@
                .map_values(|n: ResolvedAST| n@));
        }
        Ok(new_body)
    }

    /// Run the two-phase resolution over the whole database: phase 1
    /// turns every scope's pending imports into aliases (in handle
    /// order, imports in declaration order, each resolved against the
    /// database as it stands); phase 2 resolves every function body
    /// against the finished scopes.  On the first failure the error is
    /// returned and resolution stops.
    /// Run the two-phase resolution over the whole database.  Phase 1
    /// resolves every scope's pending imports against the scopes
    /// exactly as the item-tree builder left them — an import never
    /// sees an alias bound in the same pass — then binds the aliases
    /// (handle order, imports in declaration order, so that a later
    /// same-named import of one scope shadows an earlier one) and
    /// consumes the pending lists.  Phase 2 resolves every function
    /// body against the finished scopes.  On the first failure the
    /// error is returned and resolution stops; a phase-1 failure
    /// leaves the database untouched.
    pub fn resolve_idents(&mut self) -> (r: Result<(), ResolveError>)
        requires
            old(self).wf(),
            bodies_attached(old(self)@),
        ensures
            final(self).wf(),
            final(self)@.items == old(self)@.items,
            final(self)@.unresolved == old(self)@.unresolved,
            (r is Ok) == (full_resolve(old(self)@) is Ok),
            r is Ok ==> full_resolve(old(self)@) == Ok::<DbModel, ResolveError>(final(self)@),
            r matches Err(e) ==> full_resolve(old(self)@) == Err::<DbModel, ResolveError>(e),
            r is Err && phase1(old(self)@) is Err ==> *final(self) == *old(self),
    {
        let ghost m0 = self@;
        let n = self.headers.len();

        // Phase 1a: resolve every pending import of every scope, all
        // against the database as it stands now.  Nothing is mutated
        // yet, so no import can see an alias bound in this pass.
        let mut aliases: Vec<(usize, String, ItemId)> = Vec::new();
        proof {
            assert(aliases_view(aliases@) =~= Seq::<AliasBinding>::empty());
        }
        let mut i: usize = 0;
        while i < n
            invariant
                self.wf(),
                m0 == self@,
                m0 == old(self)@,
                n == n_items(m0),
                i <= n,
                bindings_in_range(aliases_view(aliases@), n as int),
                match phase1_resolve_from(m0, i as int, n as int) {
                    Ok(rest) => phase1_resolve_from(m0, 0, n as int) == Ok::<
                        Seq<AliasBinding>,
                        ResolveError,
                    >(aliases_view(aliases@) + rest),
                    Err(e) => phase1_resolve_from(m0, 0, n as int) == Err::<
                        Seq<AliasBinding>,
                        ResolveError,
                    >(e),
                },
            decreases n - i,
        {
            let ghost base = aliases_view(aliases@);
            let ghost imps = m0.scopes[i as int].imports;
            let item_id = ItemId(i);
            let n_imp = self.scopes[i].unresolved_imports.len();
            proof {
                assert(imps.skip(0) =~= imps);
            }
            let mut j: usize = 0;
            while j < n_imp
                invariant
                    self.wf(),
                    m0 == self@,
                    m0 == old(self)@,
                    n == n_items(m0),
                    i < n,
                    item_id == (ItemId(i)),
                    imps == m0.scopes[i as int].imports,
                    n_imp == imps.len(),
                    j <= n_imp,
                    aliases@.len() == base.len() + j as int,
                    base == aliases_view(aliases@).take(base.len() as int),
                    bindings_in_range(aliases_view(aliases@), n as int),
                    match phase1_resolve_from(m0, i as int, n as int) {
                        Ok(rest) => phase1_resolve_from(m0, 0, n as int) == Ok::<
                            Seq<AliasBinding>,
                            ResolveError,
                        >(base + rest),
                        Err(e) => phase1_resolve_from(m0, 0, n as int) == Err::<
                            Seq<AliasBinding>,
                            ResolveError,
                        >(e),
                    },
                    match resolve_imports_of(m0, i as int, imps.skip(j as int)) {
                        Ok(rest) => resolve_imports_of(m0, i as int, imps) == Ok::<
                            Seq<AliasBinding>,
                            ResolveError,
                        >(aliases_view(aliases@).skip(base.len() as int) + rest),
                        Err(e) => resolve_imports_of(m0, i as int, imps) == Err::<
                            Seq<AliasBinding>,
                            ResolveError,
                        >(e),
                    },
                decreases n_imp - j,
            {
                proof {
                    assert(imps.skip(j as int).len() == imps.len() - j);
                    assert(imps.skip(j as int)[0] == imps[j as int]);
                    assert(imps.skip(j as int).drop_first() =~= imps.skip(j as int + 1));
                    assert(crate::model::scope_wf(self@, i as int));
                }
                let imp_last: String;
                let rres: Result<ItemId, ResolveError>;
                {
                    let sc = &self.scopes[i];
                    let imp = &sc.unresolved_imports[j];
                    proof {
                        assert(imp@ == imps[j as int]);
                    }
                    imp_last = imp.parts[imp.parts.len() - 1].clone();
                    rres = self.resolve_single_ident(item_id, imp);
                }
                proof {
                    assert(imp_last@ == last_seg(imps[j as int]));
                }
                match rres {
                    Err(e) => {
                        proof {
                            assert(resolve_imports_of(m0, i as int, imps.skip(j as int)) == Err::<
                                Seq<AliasBinding>,
                                ResolveError,
                            >(e));
                            assert(phase1_resolve_from(m0, i as int, n as int) == Err::<
                                Seq<AliasBinding>,
                                ResolveError,
                            >(e));
                            assert(phase1(m0) == Err::<DbModel, ResolveError>(e));
                            assert(full_resolve(m0) == Err::<DbModel, ResolveError>(e));
                        }
                        return Err(e);
                    },
                    Ok(h) => {
                        let ghost prev = aliases_view(aliases@);
                        aliases.push((i, imp_last, h));
                        proof {
                            let b = AliasBinding {
                                scope: i as int,
                                name: last_seg(imps[j as int]),
                                handle: h@,
                            };
                            assert(aliases_view(aliases@) =~= prev.push(b));
                            assert(prev.skip(base.len() as int).push(b) =~= prev.push(b).skip(
                                base.len() as int,
                            ));
                            match resolve_imports_of(m0, i as int, imps.skip(j as int + 1)) {
                                Ok(rest2) => {
                                    assert((prev.skip(base.len() as int) + seq![b]) + rest2
                                        =~= prev.skip(base.len() as int) + (seq![b] + rest2));
                                    assert(prev.push(b).skip(base.len() as int) =~= prev.skip(
                                        base.len() as int,
                                    ) + seq![b]);
                                },
                                Err(_) => {},
                            }
                            assert(base =~= prev.push(b).take(base.len() as int));
                        }
                        j = j + 1;
                    },
                }
            }
            proof {
                assert(imps.skip(n_imp as int).len() == 0);
                let cur = aliases_view(aliases@).skip(base.len() as int);
                assert(cur + Seq::<AliasBinding>::empty() =~= cur);
                assert(resolve_imports_of(m0, i as int, imps) == Ok::<
                    Seq<AliasBinding>,
                    ResolveError,
                >(cur));
                match phase1_resolve_from(m0, i as int + 1, n as int) {
                    Ok(rest2) => {
                        assert(base + cur =~= aliases_view(aliases@));
                        assert((base + cur) + rest2 =~= base + (cur + rest2));
                    },
                    Err(_) => {},
                }
            }
            i = i + 1;
        }
        let ghost bs = aliases_view(aliases@);
        proof {
            assert(phase1_resolve_from(m0, n as int, n as int) == Ok::<
                Seq<AliasBinding>,
                ResolveError,
            >(Seq::<AliasBinding>::empty()));
            assert(bs + Seq::<AliasBinding>::empty() =~= bs);
            assert(phase1_resolve_from(m0, 0, n as int) == Ok::<Seq<AliasBinding>, ResolveError>(
                bs,
            ));
        }

        // Phase 1b: bind the aliases, in the order they were resolved.
        proof {
            assert(bs.skip(0) =~= bs);
        }
        let n_alias = aliases.len();
        let mut k: usize = 0;
        while k < n_alias
            invariant
                self.wf(),
                m0 == old(self)@,
                n == n_items(self@),
                n == n_items(m0),
                k <= n_alias,
                n_alias == aliases@.len(),
                bs == aliases_view(aliases@),
                bindings_in_range(bs, n as int),
                self@.items == m0.items,
                self@.unresolved == m0.unresolved,
                self@.resolved == m0.resolved,
                forall|l: int|
                    0 <= l < n ==> (#[trigger] self@.scopes[l]).imports == m0.scopes[l].imports,
                apply_aliases(m0, bs) == apply_aliases(self@, bs.skip(k as int)),
            decreases n_alias - k,
        {
            let ghost m_pre = self@;
            proof {
                assert(bs.skip(k as int).len() == bs.len() - k);
                assert(bs.skip(k as int)[0] == bs[k as int]);
                assert(bs.skip(k as int).drop_first() =~= bs.skip(k as int + 1));
            }
            let scope_idx = aliases[k].0;
            let name = aliases[k].1.clone();
            let handle = aliases[k].2;
            self.scopes[scope_idx].add_child(name, handle);
            proof {
                let mb = bind_alias(m_pre, bs[k as int].scope, bs[k as int].name, bs[
                    k as int].handle);
                assert(self@.scopes =~~= mb.scopes);
                assert(self@ =~~= mb);
                lemma_bind_alias_wf(m_pre, bs[k as int].scope, bs[k as int].name, bs[
                    k as int].handle);
            }
            k = k + 1;
        }
        proof {
            assert(bs.skip(n_alias as int).len() == 0);
            assert(apply_aliases(m0, bs) == self@);
        }

        // Phase 1c: the pending imports are consumed; clear them.
        let ghost m_applied = self@;
        let mut i: usize = 0;
        while i < n
            invariant
                self.wf(),
                m0 == old(self)@,
                n == n_items(self@),
                n == n_items(m0),
                i <= n,
                self@.items == m_applied.items,
                self@.unresolved == m_applied.unresolved,
                self@.resolved == m_applied.resolved,
                m_applied.items == m0.items,
                m_applied.unresolved == m0.unresolved,
                m_applied == apply_aliases(m0, bs),
                phase1_resolve_from(m0, 0, n as int) == Ok::<Seq<AliasBinding>, ResolveError>(bs),
                clear_all_imports(m_applied, 0, n as int) == clear_all_imports(
                    self@,
                    i as int,
                    n as int,
                ),
            decreases n - i,
        {
            let ghost m_pre = self@;
            self.scopes[i].unresolved_imports.clear();
            proof {
                let mc = clear_imports(m_pre, i as int);
                assert(self@.scopes[i as int].imports =~= mc.scopes[i as int].imports);
                assert(self@.scopes =~~= mc.scopes);
                assert(self@ =~~= mc);
                lemma_clear_imports_wf(m_pre, i as int);
            }
            i = i + 1;
        }

        // Phase 2: resolve the function bodies against the finished
        // scopes.
        let ghost m1 = self@;
        proof {
            assert(clear_all_imports(m1, n as int, n as int) == m1);
            assert(phase1(m0) == Ok::<DbModel, ResolveError>(m1));
        }
        let mut i: usize = 0;
        while i < n
            invariant
                self.wf(),
                m0 == old(self)@,
                n == n_items(self@),
                n == n_items(m0),
                i <= n,
                self@.items == m1.items,
                self@.scopes == m1.scopes,
                self@.unresolved == m1.unresolved,
                m1.items == m0.items,
                m1.unresolved == m0.unresolved,
                bodies_attached(self@),
                phase1(m0) == Ok::<DbModel, ResolveError>(m1),
                phase2_from(m1, 0, n as int) == phase2_from(self@, i as int, n as int),
            decreases n - i,
        {
            let ghost m_pre = self@;
            let item_id = ItemId(i);
            if matches!(self.headers[i].kind, ItemKind::Function) {
                let rb_res: Result<Vec<ResolvedAST>, ResolveError>;
                {
                    proof {
                        assert(self@.unresolved[i as int] is Some);
                    }
                    let b = self.unresolved_bodies[i].as_ref().unwrap();
                    proof {
                        assert(Some(b@.map_values(|nd: UnresolvedAST| nd@)) == self@.unresolved[
                            i as int]);
                    }
                    rb_res = self.resolve_idents_in_body(item_id, b);
                }
                match rb_res {
                    Err(e) => {
                        proof {
                            assert(phase2_item(m_pre, i as int) == Err::<DbModel, ResolveError>(e));
                            assert(phase2_from(m_pre, i as int, n as int) == Err::<
                                DbModel,
                                ResolveError,
                            >(e));
                            assert(full_resolve(m0) == Err::<DbModel, ResolveError>(e));
                            assert(self@.items == m0.items);
                        }
                        return Err(e);
                    },
                    Ok(rb) => {
                        let ghost rbv = rb@.map_values(|nd: ResolvedAST| nd@);
                        let sr = self.set_resolved_body(item_id, rb);
                        proof {
                            assert(sr is Ok);
                            assert(self@ == set_resolved(m_pre, i as int, rbv));
                            assert(phase2_item(m_pre, i as int) == Ok::<DbModel, ResolveError>(
                                self@,
                            ));
                            assert(phase2_from(m_pre, i as int, n as int) == phase2_from(
                                self@,
                                i as int + 1,
                                n as int,
                            ));
                        }
                    },
                }
            } else {
                proof {
                    assert(phase2_item(m_pre, i as int) == Ok::<DbModel, ResolveError>(m_pre));
                }
            }
            i = i + 1;
        }
        proof {
            assert(phase2_from(self@, n as int, n as int) == Ok::<DbModel, ResolveError>(self@));
        }
        Ok(())
    }
}

} // verus!
