//! The mathematical model of the item database, and the two-phase
//! resolution algorithm stated over it.
//!
//! Handles are modelled as plain mathematical integers: the handle of
//! an item is its index in the database's item sequence.  Every
//! executable operation of [`crate::database::Database`] is specified
//! against the functions of this module.

use crate::database::ItemKind;
use crate::error::ResolveError;
use vstd::prelude::*;

verus! {

/// Model of one declared item.
pub ghost struct ItemModel {
    pub kind: ItemKind,
    pub name: Seq<char>,
    pub parent: int,
    pub id: int,
}

/// Model of one scope: the pending imports (in declaration order) and
/// the name-to-handle bindings visible as direct children.
#[verifier::ext_equal]
pub ghost struct ScopeModel {
    pub imports: Seq<Seq<Seq<char>>>,
    pub children: Map<Seq<char>, int>,
}

/// Model of the whole database.  The four sequences are parallel:
/// index `i` holds the item with handle `i`, its scope, and its bodies.
#[verifier::ext_equal]
pub ghost struct DbModel {
    pub items: Seq<ItemModel>,
    pub scopes: Seq<ScopeModel>,
    pub unresolved: Seq<Option<Seq<Seq<Seq<char>>>>>,
    pub resolved: Seq<Option<Seq<int>>>,
}

pub open spec fn n_items(m: DbModel) -> int {
    m.items.len() as int
}

pub open spec fn valid_handle(m: DbModel, i: int) -> bool {
    0 <= i < n_items(m)
}

/// A dotted identifier is well formed when it has at least one segment.
pub open spec fn ident_wf(p: Seq<Seq<char>>) -> bool {
    p.len() > 0
}

/// An unresolved body is well formed when every call's identifier is.
pub open spec fn body_wf(b: Seq<Seq<Seq<char>>>) -> bool {
    forall|j: int| 0 <= j < b.len() ==> ident_wf(#[trigger] b[j])
}

pub open spec fn item_wf(m: DbModel, i: int) -> bool {
    &&& m.items[i].id == i
    &&& valid_handle(m, m.items[i].parent)
    &&& (if i == 0 {
        m.items[i].parent == 0
    } else {
        m.items[i].parent < i
    })
}

pub open spec fn scope_wf(m: DbModel, i: int) -> bool {
    &&& forall|k: Seq<char>| #[trigger]
        m.scopes[i].children.contains_key(k) ==> valid_handle(m, m.scopes[i].children[k])
    &&& forall|j: int| 0 <= j < m.scopes[i].imports.len() ==> ident_wf(#[trigger] m.scopes[i].imports[j])
}

/// The database invariant: parallel arrays of equal length, a root
/// module at handle 0, parent links that point strictly backwards (so
/// they form a tree), scopes that bind only existing handles, and
/// bodies owned by functions alone.
pub open spec fn db_wf(m: DbModel) -> bool {
    &&& n_items(m) >= 1
    &&& m.scopes.len() == n_items(m)
    &&& m.unresolved.len() == n_items(m)
    &&& m.resolved.len() == n_items(m)
    &&& m.items[0].kind == ItemKind::Module
    &&& forall|i: int| valid_handle(m, i) ==> item_wf(m, i)
    &&& forall|i: int| valid_handle(m, i) ==> scope_wf(m, i)
    &&& forall|i: int|
        valid_handle(m, i) ==> ((#[trigger] m.unresolved[i]) matches Some(b) ==> m.items[i].kind
            == ItemKind::Function && body_wf(b))
    &&& forall|i: int|
        valid_handle(m, i) ==> ((#[trigger] m.resolved[i]) is Some ==> m.items[i].kind
            == ItemKind::Function)
}

/// Every function item has an unresolved body attached.  The item-tree
/// builder guarantees this before resolution begins.
pub open spec fn bodies_attached(m: DbModel) -> bool {
    forall|i: int|
        valid_handle(m, i) && m.items[i].kind == ItemKind::Function ==> (
        #[trigger] m.unresolved[i]) is Some
}

/// Every function item except possibly `f` has an unresolved body
/// attached: the state in the middle of building one function.
pub open spec fn bodies_attached_except(m: DbModel, f: int) -> bool {
    forall|i: int|
        valid_handle(m, i) && i != f && m.items[i].kind == ItemKind::Function ==> (
        #[trigger] m.unresolved[i]) is Some
}

/// The item-tree builder only ever appends items: an extension keeps
/// every existing item unchanged.
pub open spec fn db_extends(m2: DbModel, m1: DbModel) -> bool {
    &&& n_items(m1) <= n_items(m2)
    &&& forall|i: int| 0 <= i < n_items(m1) ==> m2.items[i] == m1.items[i]
}

pub proof fn lemma_db_extends_trans(m3: DbModel, m2: DbModel, m1: DbModel)
    requires
        db_extends(m3, m2),
        db_extends(m2, m1),
    ensures
        db_extends(m3, m1),
{
}

// ---------------------------------------------------------------------
// The path-resolution procedure.
// ---------------------------------------------------------------------

/// Which binding a bare (first) path segment refers to, seen from
/// `item`.  In priority order: the item's own name, the item's own
/// children, the enclosing module's children (functions only), and
/// finally the root module's children.
pub open spec fn visible_symbol(m: DbModel, item: int, name: Seq<char>) -> Option<int> {
    if name == m.items[item].name {
        Some(item)
    } else if m.scopes[item].children.contains_key(name) {
        Some(m.scopes[item].children[name])
    } else if m.items[item].kind != ItemKind::Module && m.scopes[m.items[item].parent].children.contains_key(
        name,
    ) {
        Some(m.scopes[m.items[item].parent].children[name])
    } else if m.scopes[0].children.contains_key(name) {
        Some(m.scopes[0].children[name])
    } else {
        None
    }
}

/// Downward traversal: starting at `cur`, walk the remaining segments.
/// Only modules can be traversed into.
pub open spec fn resolve_from(m: DbModel, cur: int, rest: Seq<Seq<char>>) -> Result<
    int,
    ResolveError,
>
    decreases rest.len(),
{
    if rest.len() == 0 {
        Ok(cur)
    } else if m.items[cur].kind != ItemKind::Module {
        Err(ResolveError::InvalidPathSegment)
    } else if !m.scopes[cur].children.contains_key(rest[0]) {
        Err(ResolveError::SymbolNotFound)
    } else {
        resolve_from(m, m.scopes[cur].children[rest[0]], rest.drop_first())
    }
}

/// The full path-resolution procedure: resolve the first segment with
/// the visible-symbol lookup, then traverse downwards.
pub open spec fn resolve_path(m: DbModel, item: int, parts: Seq<Seq<char>>) -> Result<
    int,
    ResolveError,
> {
    match visible_symbol(m, item, parts[0]) {
        Some(first) => resolve_from(m, first, parts.drop_first()),
        None => Err(ResolveError::SymbolNotFound),
    }
}

pub proof fn lemma_visible_symbol_valid(m: DbModel, item: int, name: Seq<char>)
    requires
        db_wf(m),
        valid_handle(m, item),
    ensures
        visible_symbol(m, item, name) matches Some(h) ==> valid_handle(m, h),
{
    assert(item_wf(m, item));
    assert(scope_wf(m, item));
    assert(scope_wf(m, m.items[item].parent));
    assert(scope_wf(m, 0));
}

pub proof fn lemma_resolve_from_valid(m: DbModel, cur: int, rest: Seq<Seq<char>>)
    requires
        db_wf(m),
        valid_handle(m, cur),
    ensures
        resolve_from(m, cur, rest) matches Ok(h) ==> valid_handle(m, h),
    decreases rest.len(),
{
    if rest.len() == 0 {
    } else if m.items[cur].kind != ItemKind::Module {
    } else if !m.scopes[cur].children.contains_key(rest[0]) {
    } else {
        lemma_resolve_from_valid(m, m.scopes[cur].children[rest[0]], rest.drop_first());
    }
}

pub proof fn lemma_resolve_path_valid(m: DbModel, item: int, parts: Seq<Seq<char>>)
    requires
        db_wf(m),
        valid_handle(m, item),
    ensures
        resolve_path(m, item, parts) matches Ok(h) ==> valid_handle(m, h),
{
    lemma_visible_symbol_valid(m, item, parts[0]);
    match visible_symbol(m, item, parts[0]) {
        Some(first) => lemma_resolve_from_valid(m, first, parts.drop_first()),
        None => (),
    }
}

// ---------------------------------------------------------------------
// Phase 1: import resolution.
// ---------------------------------------------------------------------

/// The final segment of a path: the name under which an import is
/// bound in the importing scope.
pub open spec fn last_seg(p: Seq<Seq<char>>) -> Seq<char> {
    p[p.len() - 1]
}

/// Bind `name` to handle `h` inside `item`'s scope, shadowing any
/// earlier binding of that name.
pub open spec fn bind_alias(m: DbModel, item: int, name: Seq<char>, h: int) -> DbModel {
    DbModel {
        scopes: m.scopes.update(
            item,
            ScopeModel {
                imports: m.scopes[item].imports,
                children: m.scopes[item].children.insert(name, h),
            },
        ),
        ..m
    }
}

/// One alias that phase 1 creates: in `scope`, bind `name` to
/// `handle`.
#[verifier::ext_equal]
pub ghost struct AliasBinding {
    pub scope: int,
    pub name: Seq<char>,
    pub handle: int,
}

/// Resolve the imports of one scope, in declaration order, every one
/// of them against the same database `m`: the scopes exactly as the
/// item-tree builder left them.  An import can never resolve through
/// an alias that another pending import of the same pass binds —
/// phase 1 is a single flat pass, not a fixed point.
pub open spec fn resolve_imports_of(m: DbModel, item: int, imps: Seq<Seq<Seq<char>>>) -> Result<
    Seq<AliasBinding>,
    ResolveError,
>
    decreases imps.len(),
{
    if imps.len() == 0 {
        Ok(Seq::empty())
    } else {
        match resolve_path(m, item, imps[0]) {
            Ok(h) => match resolve_imports_of(m, item, imps.drop_first()) {
                Ok(rest) => Ok(
                    seq![AliasBinding { scope: item, name: last_seg(imps[0]), handle: h }] + rest,
                ),
                Err(e) => Err(e),
            },
            Err(e) => Err(e),
        }
    }
}

/// Resolve every pending import of the items `i .. n`, in handle
/// order, all against the one declaration-built database `m`.
pub open spec fn phase1_resolve_from(m: DbModel, i: int, n: int) -> Result<
    Seq<AliasBinding>,
    ResolveError,
>
    decreases n - i,
{
    if i >= n {
        Ok(Seq::empty())
    } else {
        match resolve_imports_of(m, i, m.scopes[i].imports) {
            Ok(bs) => match phase1_resolve_from(m, i + 1, n) {
                Ok(rest) => Ok(bs + rest),
                Err(e) => Err(e),
            },
            Err(e) => Err(e),
        }
    }
}

/// Every binding names an existing scope and an existing handle.
pub open spec fn bindings_in_range(bs: Seq<AliasBinding>, n: int) -> bool {
    forall|k: int|
        0 <= k < bs.len() ==> 0 <= (#[trigger] bs[k]).scope < n && 0 <= bs[k].handle < n
}

/// Bind a list of resolved aliases, in order: a later binding for the
/// same name in the same scope shadows an earlier one.
pub open spec fn apply_aliases(m: DbModel, bs: Seq<AliasBinding>) -> DbModel
    decreases bs.len(),
{
    if bs.len() == 0 {
        m
    } else {
        apply_aliases(bind_alias(m, bs[0].scope, bs[0].name, bs[0].handle), bs.drop_first())
    }
}

/// Empty the pending-import list of `item`'s scope.
pub open spec fn clear_imports(m: DbModel, item: int) -> DbModel {
    DbModel {
        scopes: m.scopes.update(
            item,
            ScopeModel { imports: Seq::empty(), children: m.scopes[item].children },
        ),
        ..m
    }
}

/// Empty the pending-import lists of the items `i .. n`.
pub open spec fn clear_all_imports(m: DbModel, i: int, n: int) -> DbModel
    decreases n - i,
{
    if i >= n {
        m
    } else {
        clear_all_imports(clear_imports(m, i), i + 1, n)
    }
}

/// Phase 1: resolve every pending import of every scope against the
/// scopes as the builder left them, then bind all the aliases and
/// consume the pending lists.
pub open spec fn phase1(m: DbModel) -> Result<DbModel, ResolveError> {
    match phase1_resolve_from(m, 0, n_items(m)) {
        Ok(bs) => Ok(clear_all_imports(apply_aliases(m, bs), 0, n_items(m))),
        Err(e) => Err(e),
    }
}

// ---------------------------------------------------------------------
// Phase 2: body resolution.
// ---------------------------------------------------------------------

/// Resolve every call of one function body, in order, against a fixed
/// database.
pub open spec fn resolve_body(m: DbModel, f: int, body: Seq<Seq<Seq<char>>>) -> Result<
    Seq<int>,
    ResolveError,
>
    decreases body.len(),
{
    if body.len() == 0 {
        Ok(Seq::empty())
    } else {
        match resolve_path(m, f, body[0]) {
            Ok(h) => match resolve_body(m, f, body.drop_first()) {
                Ok(rest) => Ok(seq![h] + rest),
                Err(e) => Err(e),
            },
            Err(e) => Err(e),
        }
    }
}

/// Store a resolved body for function `f`.
pub open spec fn set_resolved(m: DbModel, f: int, rb: Seq<int>) -> DbModel {
    DbModel { resolved: m.resolved.update(f, Some(rb)), ..m }
}

/// Phase 2 for a single item: functions get their unresolved body
/// resolved and stored; other items are left alone.
pub open spec fn phase2_item(m: DbModel, i: int) -> Result<DbModel, ResolveError> {
    if m.items[i].kind != ItemKind::Function {
        Ok(m)
    } else {
        match m.unresolved[i] {
            Some(b) => match resolve_body(m, i, b) {
                Ok(rb) => Ok(set_resolved(m, i, rb)),
                Err(e) => Err(e),
            },
            None => Ok(m),
        }
    }
}

/// Phase 2 over the items `i .. n`, in handle order.
pub open spec fn phase2_from(m: DbModel, i: int, n: int) -> Result<DbModel, ResolveError>
    decreases n - i,
{
    if i >= n {
        Ok(m)
    } else {
        match phase2_item(m, i) {
            Ok(m2) => phase2_from(m2, i + 1, n),
            Err(e) => Err(e),
        }
    }
}

// ---------------------------------------------------------------------
// Database construction, modelled.
// ---------------------------------------------------------------------

/// Allocate the next handle for a new item with the given name, kind
/// and parent (the root when no parent is given), create its empty
/// scope, and register its name in the parent's scope.
pub open spec fn model_new_item(
    m: DbModel,
    name: Seq<char>,
    kind: ItemKind,
    parent: Option<int>,
) -> DbModel {
    let p = match parent {
        Some(p) => p,
        None => 0,
    };
    let id = n_items(m);
    let m2 = DbModel {
        items: m.items.push(ItemModel { kind, name, parent: p, id }),
        scopes: m.scopes.push(ScopeModel { imports: Seq::empty(), children: Map::empty() }),
        unresolved: m.unresolved.push(None),
        resolved: m.resolved.push(None),
    };
    bind_alias(m2, p, name, id)
}

pub proof fn lemma_model_new_item_wf(
    m: DbModel,
    name: Seq<char>,
    kind: ItemKind,
    parent: Option<int>,
)
    requires
        db_wf(m),
        parent matches Some(p) ==> valid_handle(m, p),
    ensures
        db_wf(model_new_item(m, name, kind, parent)),
        n_items(model_new_item(m, name, kind, parent)) == n_items(m) + 1,
{
    let m2 = model_new_item(m, name, kind, parent);
    assert forall|i: int| valid_handle(m2, i) implies item_wf(m2, i) by {
        if i < n_items(m) {
            assert(item_wf(m, i));
        }
    }
    assert forall|i: int| valid_handle(m2, i) implies scope_wf(m2, i) by {
        if i < n_items(m) {
            assert(scope_wf(m, i));
        }
    }
}

/// Attach an unresolved body to function `f`.
pub open spec fn model_set_unresolved(m: DbModel, f: int, b: Seq<Seq<Seq<char>>>) -> DbModel {
    DbModel { unresolved: m.unresolved.update(f, Some(b)), ..m }
}

/// Append a pending import to `item`'s scope.
pub open spec fn model_add_import(m: DbModel, item: int, p: Seq<Seq<char>>) -> DbModel {
    DbModel {
        scopes: m.scopes.update(
            item,
            ScopeModel {
                imports: m.scopes[item].imports.push(p),
                children: m.scopes[item].children,
            },
        ),
        ..m
    }
}

pub proof fn lemma_bind_alias_wf(m: DbModel, item: int, name: Seq<char>, h: int)
    requires
        db_wf(m),
        valid_handle(m, item),
        valid_handle(m, h),
    ensures
        db_wf(bind_alias(m, item, name, h)),
{
    let m2 = bind_alias(m, item, name, h);
    assert forall|i: int| valid_handle(m2, i) implies item_wf(m2, i) by {
        assert(item_wf(m, i));
    }
    assert forall|i: int| valid_handle(m2, i) implies scope_wf(m2, i) by {
        assert(scope_wf(m, i));
    }
}

pub proof fn lemma_clear_imports_wf(m: DbModel, item: int)
    requires
        db_wf(m),
        valid_handle(m, item),
    ensures
        db_wf(clear_imports(m, item)),
{
    let m2 = clear_imports(m, item);
    assert forall|i: int| valid_handle(m2, i) implies item_wf(m2, i) by {
        assert(item_wf(m, i));
    }
    assert forall|i: int| valid_handle(m2, i) implies scope_wf(m2, i) by {
        assert(scope_wf(m, i));
    }
}

pub proof fn lemma_set_resolved_wf(m: DbModel, f: int, rb: Seq<int>)
    requires
        db_wf(m),
        valid_handle(m, f),
        m.items[f].kind == ItemKind::Function,
    ensures
        db_wf(set_resolved(m, f, rb)),
{
    let m2 = set_resolved(m, f, rb);
    assert forall|i: int| valid_handle(m2, i) implies item_wf(m2, i) by {
        assert(item_wf(m, i));
    }
    assert forall|i: int| valid_handle(m2, i) implies scope_wf(m2, i) by {
        assert(scope_wf(m, i));
    }
}

/// The whole two-phase resolution pipeline.
pub open spec fn full_resolve(m: DbModel) -> Result<DbModel, ResolveError> {
    match phase1(m) {
        Ok(m1) => phase2_from(m1, 0, n_items(m)),
        Err(e) => Err(e),
    }
}

} // verus!
