//! The laws of the resolver, stated and proved over the model.
//!
//! Each proof function here records a property of the path-resolution
//! procedure or of the two resolution phases that callers may rely on.

use crate::database::ItemKind;
use crate::error::ResolveError;
use crate::model::{
    apply_aliases, bind_alias, bindings_in_range, clear_all_imports, clear_imports, db_wf,
    ident_wf, last_seg, lemma_resolve_path_valid, lemma_set_resolved_wf, n_items, phase1,
    phase1_resolve_from, phase2_from, resolve_body, resolve_from, resolve_imports_of, resolve_path,
    set_resolved, valid_handle, visible_symbol, AliasBinding, DbModel,
};
use vstd::prelude::*;

verus! {

/// Self-reference: resolving a dotted identifier whose sole segment
/// equals an item's own name, starting at that item, always yields the
/// item itself — whatever its scope, its parent's scope or the root
/// bind to that name.
pub proof fn lemma_self_reference(m: DbModel, item: int, parts: Seq<Seq<char>>)
    requires
        db_wf(m),
        valid_handle(m, item),
        parts.len() == 1,
        parts[0] == m.items[item].name,
    ensures
        resolve_path(m, item, parts) == Ok::<int, ResolveError>(item),
{
    assert(parts.drop_first().len() == 0);
}

/// Shadow order: when a name is bindable at more than one of
/// {the item itself, its own children, the enclosing module (functions
/// only), the root}, the visible-symbol lookup picks the
/// highest-priority source, in exactly that order.
pub proof fn lemma_shadow_order(m: DbModel, item: int, name: Seq<char>)
    requires
        db_wf(m),
        valid_handle(m, item),
    ensures
        name == m.items[item].name ==> visible_symbol(m, item, name) == Some(item),
        name != m.items[item].name && m.scopes[item].children.contains_key(name)
            ==> visible_symbol(m, item, name) == Some(m.scopes[item].children[name]),
        name != m.items[item].name && !m.scopes[item].children.contains_key(name)
            && m.items[item].kind != ItemKind::Module
            && m.scopes[m.items[item].parent].children.contains_key(name) ==> visible_symbol(
            m,
            item,
            name,
        ) == Some(m.scopes[m.items[item].parent].children[name]),
        name != m.items[item].name && !m.scopes[item].children.contains_key(name) && (
        m.items[item].kind == ItemKind::Module || !m.scopes[m.items[item].parent].children.contains_key(
            name,
        )) && m.scopes[0].children.contains_key(name) ==> visible_symbol(m, item, name) == Some(
            m.scopes[0].children[name],
        ),
        name != m.items[item].name && !m.scopes[item].children.contains_key(name) && (
        m.items[item].kind == ItemKind::Module || !m.scopes[m.items[item].parent].children.contains_key(
            name,
        )) && !m.scopes[0].children.contains_key(name) ==> visible_symbol(m, item, name) is None,
{
}

/// Downward-traversal failure: as soon as the traversal stands on an
/// item that is not a module while segments remain, the result is
/// `InvalidPathSegment` — the remaining segments are never silently
/// dropped.
pub proof fn lemma_downward_traversal_failure(m: DbModel, cur: int, rest: Seq<Seq<char>>)
    requires
        rest.len() > 0,
        m.items[cur].kind != ItemKind::Module,
    ensures
        resolve_from(m, cur, rest) == Err::<int, ResolveError>(ResolveError::InvalidPathSegment),
{
}

/// Downward-traversal failure, seen from the whole path: when the
/// first segment resolves to a function and further segments follow,
/// the whole resolution fails with `InvalidPathSegment`.
pub proof fn lemma_path_through_function_fails(
    m: DbModel,
    item: int,
    parts: Seq<Seq<char>>,
    h: int,
)
    requires
        parts.len() >= 2,
        visible_symbol(m, item, parts[0]) == Some(h),
        m.items[h].kind != ItemKind::Module,
    ensures
        resolve_path(m, item, parts) == Err::<int, ResolveError>(ResolveError::InvalidPathSegment),
{
    assert(parts.drop_first().len() == parts.len() - 1);
}

/// Determinism: resolution is a pure function of the database, the
/// starting item and the path — two resolutions of the same identifier
/// from the same starting item, with no mutation in between, give the
/// same handle.
pub proof fn lemma_resolution_deterministic(
    m1: DbModel,
    m2: DbModel,
    item: int,
    parts: Seq<Seq<char>>,
)
    requires
        m1 == m2,
    ensures
        resolve_path(m1, item, parts) == resolve_path(m2, item, parts),
{
}

/// Resolution reads only the items and the scopes: two databases that
/// agree on those resolve every path identically, whatever their
/// stored bodies.
pub proof fn lemma_resolve_from_congruence(
    m1: DbModel,
    m2: DbModel,
    cur: int,
    rest: Seq<Seq<char>>,
)
    requires
        m1.items == m2.items,
        m1.scopes == m2.scopes,
    ensures
        resolve_from(m1, cur, rest) == resolve_from(m2, cur, rest),
    decreases rest.len(),
{
    if rest.len() == 0 {
    } else if m1.items[cur].kind != ItemKind::Module {
    } else if !m1.scopes[cur].children.contains_key(rest[0]) {
    } else {
        lemma_resolve_from_congruence(m1, m2, m1.scopes[cur].children[rest[0]], rest.drop_first());
    }
}

/// Resolution reads only the items and the scopes, for whole paths.
pub proof fn lemma_resolve_path_congruence(
    m1: DbModel,
    m2: DbModel,
    item: int,
    parts: Seq<Seq<char>>,
)
    requires
        m1.items == m2.items,
        m1.scopes == m2.scopes,
    ensures
        resolve_path(m1, item, parts) == resolve_path(m2, item, parts),
{
    match visible_symbol(m1, item, parts[0]) {
        Some(first) => lemma_resolve_from_congruence(m1, m2, first, parts.drop_first()),
        None => (),
    }
}

/// Resolution reads only the items and the scopes, for whole bodies.
pub proof fn lemma_resolve_body_congruence(
    m1: DbModel,
    m2: DbModel,
    f: int,
    body: Seq<Seq<Seq<char>>>,
)
    requires
        m1.items == m2.items,
        m1.scopes == m2.scopes,
    ensures
        resolve_body(m1, f, body) == resolve_body(m2, f, body),
    decreases body.len(),
{
    if body.len() > 0 {
        lemma_resolve_path_congruence(m1, m2, f, body[0]);
        lemma_resolve_body_congruence(m1, m2, f, body.drop_first());
    }
}

/// Order independence of phase 2: when phase 2 succeeds, every
/// function's resolved body equals the resolution of its unresolved
/// body against the phase-1 database alone, and nothing else changes.
/// The resolved bodies are a pointwise function of that database, so
/// the order in which sibling function bodies are processed cannot
/// affect the result.
pub proof fn lemma_phase2_pointwise(m: DbModel, i: int, n: int, m2: DbModel)
    requires
        db_wf(m),
        n == n_items(m),
        0 <= i <= n,
        phase2_from(m, i, n) == Ok::<DbModel, ResolveError>(m2),
    ensures
        m2.items == m.items,
        m2.scopes == m.scopes,
        m2.unresolved == m.unresolved,
        m2.resolved.len() == m.resolved.len(),
        forall|j: int| 0 <= j < i ==> m2.resolved[j] == m.resolved[j],
        forall|j: int|
            i <= j < n && !(m.items[j].kind == ItemKind::Function && m.unresolved[j] is Some)
                ==> m2.resolved[j] == m.resolved[j],
        forall|j: int|
            i <= j < n && m.items[j].kind == ItemKind::Function ==> ((
            #[trigger] m.unresolved[j]) matches Some(b) ==> resolve_body(m, j, b) is Ok
                && m2.resolved[j] == Some(resolve_body(m, j, b)->Ok_0)),
    decreases n - i,
{
    if i < n {
        if m.items[i].kind != ItemKind::Function {
            lemma_phase2_pointwise(m, i + 1, n, m2);
        } else {
            match m.unresolved[i] {
                Some(b) => {
                    let rb = resolve_body(m, i, b)->Ok_0;
                    let mp = set_resolved(m, i, rb);
                    lemma_set_resolved_wf(m, i, rb);
                    assert(phase2_from(mp, i + 1, n) == Ok::<DbModel, ResolveError>(m2));
                    lemma_phase2_pointwise(mp, i + 1, n, m2);
                    assert forall|j: int|
                        i + 1 <= j < n && mp.items[j].kind == ItemKind::Function && (
                        #[trigger] mp.unresolved[j]) is Some implies resolve_body(
                        m,
                        j,
                        mp.unresolved[j]->0,
                    ) == resolve_body(mp, j, mp.unresolved[j]->0) by {
                        lemma_resolve_body_congruence(m, mp, j, mp.unresolved[j]->0);
                    }
                },
                None => {
                    lemma_phase2_pointwise(m, i + 1, n, m2);
                },
            }
        }
    }
}

/// The flat-pass rule of phase 1: every import resolves against the
/// declaration-built scopes alone.  The binding produced for the
/// `j`-th import of a scope is exactly the snapshot resolution of
/// that import's path — it can never go through an alias another
/// pending import of the same pass binds.
pub proof fn lemma_resolve_imports_pointwise(m: DbModel, item: int, imps: Seq<Seq<Seq<char>>>)
    requires
        resolve_imports_of(m, item, imps) is Ok,
    ensures
        resolve_imports_of(m, item, imps)->Ok_0.len() == imps.len(),
        forall|j: int| 0 <= j < imps.len() ==> resolve_path(m, item, #[trigger] imps[j]) is Ok,
        forall|j: int|
            0 <= j < imps.len() ==> resolve_imports_of(m, item, imps)->Ok_0[j]
                == (AliasBinding {
                scope: item,
                name: last_seg(#[trigger] imps[j]),
                handle: resolve_path(m, item, imps[j])->Ok_0,
            }),
    decreases imps.len(),
{
    if imps.len() > 0 {
        lemma_resolve_imports_pointwise(m, item, imps.drop_first());
        let bs = resolve_imports_of(m, item, imps)->Ok_0;
        let rest = resolve_imports_of(m, item, imps.drop_first())->Ok_0;
        assert forall|j: int| 0 <= j < imps.len() implies resolve_path(
            m,
            item,
            #[trigger] imps[j],
        ) is Ok by {
            if j > 0 {
                assert(imps.drop_first()[j - 1] == imps[j]);
            }
        }
        assert forall|j: int| 0 <= j < imps.len() implies bs[j] == (AliasBinding {
            scope: item,
            name: last_seg(#[trigger] imps[j]),
            handle: resolve_path(m, item, imps[j])->Ok_0,
        }) by {
            if j > 0 {
                assert(imps.drop_first()[j - 1] == imps[j]);
                assert(bs[j] == rest[j - 1]);
            }
        }
    }
}

proof fn lemma_resolve_imports_in_range(m: DbModel, item: int, imps: Seq<Seq<Seq<char>>>)
    requires
        db_wf(m),
        valid_handle(m, item),
        resolve_imports_of(m, item, imps) is Ok,
    ensures
        bindings_in_range(resolve_imports_of(m, item, imps)->Ok_0, n_items(m)),
{
    lemma_resolve_imports_pointwise(m, item, imps);
    let bs = resolve_imports_of(m, item, imps)->Ok_0;
    assert forall|k: int| 0 <= k < bs.len() implies 0 <= (#[trigger] bs[k]).scope < n_items(m) && 0
        <= bs[k].handle < n_items(m) by {
        lemma_resolve_path_valid(m, item, imps[k]);
    }
}

proof fn lemma_phase1_bindings_scoped(m: DbModel, a: int, n: int)
    requires
        db_wf(m),
        0 <= a,
        n == n_items(m),
        phase1_resolve_from(m, a, n) is Ok,
    ensures
        bindings_in_range(phase1_resolve_from(m, a, n)->Ok_0, n),
        forall|k: int|
            0 <= k < phase1_resolve_from(m, a, n)->Ok_0.len() ==> (#[trigger] phase1_resolve_from(
                m,
                a,
                n,
            )->Ok_0[k]).scope >= a,
    decreases n - a,
{
    if a < n {
        let bs_a = resolve_imports_of(m, a, m.scopes[a].imports)->Ok_0;
        let rest = phase1_resolve_from(m, a + 1, n)->Ok_0;
        lemma_resolve_imports_in_range(m, a, m.scopes[a].imports);
        lemma_resolve_imports_pointwise(m, a, m.scopes[a].imports);
        lemma_phase1_bindings_scoped(m, a + 1, n);
        let bs = phase1_resolve_from(m, a, n)->Ok_0;
        assert(bs == bs_a + rest);
        assert forall|k: int| 0 <= k < bs.len() implies 0 <= (#[trigger] bs[k]).scope < n && 0 <= bs[
            k].handle < n && bs[k].scope >= a by {
            if k < bs_a.len() {
                assert(bs[k] == bs_a[k]);
                assert(bs_a[k].name == last_seg(m.scopes[a].imports[k]));
            } else {
                assert(bs[k] == rest[k - bs_a.len()]);
            }
        }
    }
}

/// Binding an alias list leaves the items, the bodies, the scope
/// count and every pending-import list untouched.
proof fn lemma_apply_frame(m: DbModel, bs: Seq<AliasBinding>)
    requires
        bindings_in_range(bs, m.scopes.len() as int),
    ensures
        apply_aliases(m, bs).items == m.items,
        apply_aliases(m, bs).unresolved == m.unresolved,
        apply_aliases(m, bs).resolved == m.resolved,
        apply_aliases(m, bs).scopes.len() == m.scopes.len(),
        forall|l: int|
            0 <= l < m.scopes.len() ==> (#[trigger] apply_aliases(m, bs).scopes[l]).imports
                == m.scopes[l].imports,
    decreases bs.len(),
{
    if bs.len() > 0 {
        let m2 = bind_alias(m, bs[0].scope, bs[0].name, bs[0].handle);
        assert forall|k: int|
            0 <= k < bs.drop_first().len() implies 0 <= (#[trigger] bs.drop_first()[k]).scope
            < m2.scopes.len() && 0 <= bs.drop_first()[k].handle < m2.scopes.len() by {
            assert(bs.drop_first()[k] == bs[k + 1]);
        }
        lemma_apply_frame(m2, bs.drop_first());
    }
}

/// Applying bindings none of which touches `(i, y)` leaves that
/// binding slot exactly as it was.
proof fn lemma_apply_preserves_key(m: DbModel, bs: Seq<AliasBinding>, i: int, y: Seq<char>)
    requires
        bindings_in_range(bs, m.scopes.len() as int),
        0 <= i < m.scopes.len(),
        forall|l: int| 0 <= l < bs.len() ==> !((#[trigger] bs[l]).scope == i && bs[l].name == y),
    ensures
        apply_aliases(m, bs).scopes[i].children.contains_key(y) == m.scopes[i].children.contains_key(
            y,
        ),
        m.scopes[i].children.contains_key(y) ==> apply_aliases(m, bs).scopes[i].children[y]
            == m.scopes[i].children[y],
    decreases bs.len(),
{
    if bs.len() > 0 {
        let m2 = bind_alias(m, bs[0].scope, bs[0].name, bs[0].handle);
        assert(m2.scopes[i].children.contains_key(y) == m.scopes[i].children.contains_key(y));
        assert forall|k: int|
            0 <= k < bs.drop_first().len() implies !((#[trigger] bs.drop_first()[k]).scope == i
            && bs.drop_first()[k].name == y) && 0 <= bs.drop_first()[k].scope < m2.scopes.len() && 0
            <= bs.drop_first()[k].handle < m2.scopes.len() by {
            assert(bs.drop_first()[k] == bs[k + 1]);
        }
        lemma_apply_preserves_key(m2, bs.drop_first(), i, y);
    }
}

/// Applying a binding list makes the last binding of each
/// `(scope, name)` slot stick.
proof fn lemma_apply_last_binding(m: DbModel, bs: Seq<AliasBinding>, k: int)
    requires
        bindings_in_range(bs, m.scopes.len() as int),
        0 <= k < bs.len(),
        forall|l: int|
            k < l < bs.len() ==> !((#[trigger] bs[l]).scope == bs[k].scope && bs[l].name == bs[
                k].name),
    ensures
        apply_aliases(m, bs).scopes[bs[k].scope].children.contains_key(bs[k].name),
        apply_aliases(m, bs).scopes[bs[k].scope].children[bs[k].name] == bs[k].handle,
    decreases bs.len(),
{
    let m2 = bind_alias(m, bs[0].scope, bs[0].name, bs[0].handle);
    assert forall|l: int|
        0 <= l < bs.drop_first().len() implies 0 <= (#[trigger] bs.drop_first()[l]).scope
        < m2.scopes.len() && 0 <= bs.drop_first()[l].handle < m2.scopes.len() by {
        assert(bs.drop_first()[l] == bs[l + 1]);
    }
    if k == 0 {
        assert(m2.scopes[bs[0].scope].children[bs[0].name] == bs[0].handle);
        assert forall|l: int|
            0 <= l < bs.drop_first().len() implies !((#[trigger] bs.drop_first()[l]).scope == bs[
                0].scope && bs.drop_first()[l].name == bs[0].name) by {
            assert(bs.drop_first()[l] == bs[l + 1]);
        }
        lemma_apply_preserves_key(m2, bs.drop_first(), bs[0].scope, bs[0].name);
    } else {
        assert forall|l: int|
            k - 1 < l < bs.drop_first().len() implies !((#[trigger] bs.drop_first()[l]).scope
            == bs.drop_first()[k - 1].scope && bs.drop_first()[l].name == bs.drop_first()[k
            - 1].name) by {
            assert(bs.drop_first()[l] == bs[l + 1]);
            assert(bs.drop_first()[k - 1] == bs[k]);
        }
        lemma_apply_last_binding(m2, bs.drop_first(), k - 1);
        assert(bs.drop_first()[k - 1] == bs[k]);
    }
}

proof fn lemma_apply_concat(m: DbModel, bs1: Seq<AliasBinding>, bs2: Seq<AliasBinding>)
    ensures
        apply_aliases(m, bs1 + bs2) == apply_aliases(apply_aliases(m, bs1), bs2),
    decreases bs1.len(),
{
    if bs1.len() == 0 {
        assert(bs1 + bs2 =~= bs2);
    } else {
        assert((bs1 + bs2)[0] == bs1[0]);
        assert((bs1 + bs2).drop_first() =~= bs1.drop_first() + bs2);
        lemma_apply_concat(
            bind_alias(m, bs1[0].scope, bs1[0].name, bs1[0].handle),
            bs1.drop_first(),
            bs2,
        );
    }
}

/// Clearing pending imports leaves every binding untouched.
proof fn lemma_clear_all_frame(m: DbModel, i: int, n: int)
    requires
        0 <= i,
        n <= m.scopes.len(),
    ensures
        clear_all_imports(m, i, n).items == m.items,
        clear_all_imports(m, i, n).unresolved == m.unresolved,
        clear_all_imports(m, i, n).resolved == m.resolved,
        clear_all_imports(m, i, n).scopes.len() == m.scopes.len(),
        forall|l: int|
            0 <= l < m.scopes.len() ==> (#[trigger] clear_all_imports(m, i, n).scopes[l]).children
                == m.scopes[l].children,
    decreases n - i,
{
    if i < n {
        lemma_clear_all_frame(clear_imports(m, i), i + 1, n);
    }
}

proof fn lemma_phase1_apply_scope(m: DbModel, macc: DbModel, a: int, n: int, i: int, j: int)
    requires
        db_wf(m),
        n == n_items(m),
        0 <= a <= i < n,
        0 <= j < m.scopes[i].imports.len(),
        forall|l: int|
            j < l < m.scopes[i].imports.len() ==> last_seg(#[trigger] m.scopes[i].imports[l])
                != last_seg(m.scopes[i].imports[j]),
        phase1_resolve_from(m, a, n) is Ok,
        macc.scopes.len() == m.scopes.len(),
    ensures
        resolve_path(m, i, m.scopes[i].imports[j]) is Ok,
        apply_aliases(macc, phase1_resolve_from(m, a, n)->Ok_0).scopes[i].children.contains_key(
            last_seg(m.scopes[i].imports[j]),
        ),
        apply_aliases(macc, phase1_resolve_from(m, a, n)->Ok_0).scopes[i].children[last_seg(
            m.scopes[i].imports[j],
        )] == resolve_path(m, i, m.scopes[i].imports[j])->Ok_0,
    decreases i - a,
{
    let bs_a = resolve_imports_of(m, a, m.scopes[a].imports)->Ok_0;
    let rest = phase1_resolve_from(m, a + 1, n)->Ok_0;
    let bs = phase1_resolve_from(m, a, n)->Ok_0;
    assert(bs == bs_a + rest);
    lemma_resolve_imports_in_range(m, a, m.scopes[a].imports);
    lemma_resolve_imports_pointwise(m, a, m.scopes[a].imports);
    lemma_apply_concat(macc, bs_a, rest);
    let m_mid = apply_aliases(macc, bs_a);
    assert forall|l: int|
        0 <= l < bs_a.len() implies 0 <= (#[trigger] bs_a[l]).scope < macc.scopes.len() && 0 <= bs_a[
        l].handle < macc.scopes.len() by {}
    lemma_apply_frame(macc, bs_a);
    if a < i {
        lemma_phase1_apply_scope(m, m_mid, a + 1, n, i, j);
    } else {
        // a == i: this scope's own bindings land here; the later
        // scopes (handles above i) cannot rebind anything of scope i.
        let y = last_seg(m.scopes[i].imports[j]);
        assert(bs_a[j] == (AliasBinding {
            scope: i,
            name: y,
            handle: resolve_path(m, i, m.scopes[i].imports[j])->Ok_0,
        }));
        assert forall|l: int|
            j < l < bs_a.len() implies !((#[trigger] bs_a[l]).scope == bs_a[j].scope && bs_a[l].name
            == bs_a[j].name) by {
            assert(bs_a[l].name == last_seg(m.scopes[i].imports[l]));
        }
        lemma_apply_last_binding(macc, bs_a, j);
        lemma_phase1_bindings_scoped(m, a + 1, n);
        assert forall|l: int|
            0 <= l < rest.len() implies !((#[trigger] rest[l]).scope == i && rest[l].name == y) && 0
            <= rest[l].scope < m_mid.scopes.len() && 0 <= rest[l].handle < m_mid.scopes.len() by {}
        lemma_apply_preserves_key(m_mid, rest, i, y);
    }
}

/// Import-aliasing idempotence of effect: after phase 1, a scope that
/// processed an import holds a binding for the import's final segment
/// equal to the handle the path-resolution procedure independently
/// computes for that path, starting at the scope's owning item,
/// against the declaration-built scopes.  The one proviso is the
/// documented shadowing rule: no later import of the same scope may
/// bind the same name, else that later binding wins.
pub proof fn lemma_import_alias_idempotent(m: DbModel, m1: DbModel, i: int, j: int)
    requires
        db_wf(m),
        valid_handle(m, i),
        0 <= j < m.scopes[i].imports.len(),
        forall|l: int|
            j < l < m.scopes[i].imports.len() ==> last_seg(#[trigger] m.scopes[i].imports[l])
                != last_seg(m.scopes[i].imports[j]),
        phase1(m) == Ok::<DbModel, ResolveError>(m1),
    ensures
        resolve_path(m, i, m.scopes[i].imports[j]) is Ok,
        m1.scopes[i].children.contains_key(last_seg(m.scopes[i].imports[j])),
        m1.scopes[i].children[last_seg(m.scopes[i].imports[j])] == resolve_path(
            m,
            i,
            m.scopes[i].imports[j],
        )->Ok_0,
{
    let n = n_items(m);
    let bs = phase1_resolve_from(m, 0, n)->Ok_0;
    lemma_phase1_apply_scope(m, m, 0, n, i, j);
    lemma_phase1_bindings_scoped(m, 0, n);
    lemma_apply_frame(m, bs);
    lemma_clear_all_frame(apply_aliases(m, bs), 0, n);
}

/// The documented collision rule, as seen through phase 1: when two
/// imports of one scope bind the same final name, the later one wins,
/// and the handle it binds is its own snapshot resolution.
pub proof fn lemma_later_import_overwrites(m: DbModel, m1: DbModel, i: int)
    requires
        db_wf(m),
        valid_handle(m, i),
        m.scopes[i].imports.len() == 2,
        last_seg(m.scopes[i].imports[0]) == last_seg(m.scopes[i].imports[1]),
        phase1(m) == Ok::<DbModel, ResolveError>(m1),
    ensures
        resolve_path(m, i, m.scopes[i].imports[1]) is Ok,
        m1.scopes[i].children.contains_key(last_seg(m.scopes[i].imports[1])),
        m1.scopes[i].children[last_seg(m.scopes[i].imports[1])] == resolve_path(
            m,
            i,
            m.scopes[i].imports[1],
        )->Ok_0,
{
    lemma_import_alias_idempotent(m, m1, i, 1);
}

/// Order independence of phase 1: sibling imports that bind different
/// names can be processed in either order with the same effect, with
/// no further proviso — each one resolves against the declaration-built
/// scopes, never against the other's binding.
pub proof fn lemma_sibling_imports_commute(
    m: DbModel,
    item: int,
    a: Seq<Seq<char>>,
    b: Seq<Seq<char>>,
)
    requires
        db_wf(m),
        valid_handle(m, item),
        ident_wf(a),
        ident_wf(b),
        last_seg(a) != last_seg(b),
        resolve_path(m, item, a) is Ok,
        resolve_path(m, item, b) is Ok,
    ensures
        resolve_imports_of(m, item, seq![a, b]) is Ok,
        resolve_imports_of(m, item, seq![b, a]) is Ok,
        apply_aliases(m, resolve_imports_of(m, item, seq![a, b])->Ok_0) == apply_aliases(
            m,
            resolve_imports_of(m, item, seq![b, a])->Ok_0,
        ),
{
    let ha = resolve_path(m, item, a)->Ok_0;
    let hb = resolve_path(m, item, b)->Ok_0;
    assert(seq![a, b][0] == a);
    assert(seq![b, a][0] == b);
    assert(seq![a, b].drop_first() =~= seq![b]);
    assert(seq![b, a].drop_first() =~= seq![a]);
    assert(seq![a][0] == a);
    assert(seq![b][0] == b);
    assert(seq![a].drop_first() =~= Seq::<Seq<Seq<char>>>::empty());
    assert(seq![b].drop_first() =~= Seq::<Seq<Seq<char>>>::empty());
    let ba = AliasBinding { scope: item, name: last_seg(a), handle: ha };
    let bb = AliasBinding { scope: item, name: last_seg(b), handle: hb };
    assert(resolve_imports_of(m, item, Seq::<Seq<Seq<char>>>::empty()) == Ok::<
        Seq<AliasBinding>,
        ResolveError,
    >(Seq::<AliasBinding>::empty()));
    assert(resolve_imports_of(m, item, seq![b]) == Ok::<Seq<AliasBinding>, ResolveError>(
        seq![bb] + Seq::<AliasBinding>::empty(),
    ));
    assert(resolve_imports_of(m, item, seq![a]) == Ok::<Seq<AliasBinding>, ResolveError>(
        seq![ba] + Seq::<AliasBinding>::empty(),
    ));
    assert(seq![bb] + Seq::<AliasBinding>::empty() =~= seq![bb]);
    assert(seq![ba] + Seq::<AliasBinding>::empty() =~= seq![ba]);
    assert(resolve_imports_of(m, item, seq![a, b]) == Ok::<Seq<AliasBinding>, ResolveError>(
        seq![ba] + (seq![bb] + Seq::<AliasBinding>::empty()),
    ));
    assert(resolve_imports_of(m, item, seq![b, a]) == Ok::<Seq<AliasBinding>, ResolveError>(
        seq![bb] + (seq![ba] + Seq::<AliasBinding>::empty()),
    ));
    let ab = seq![ba] + (seq![bb] + Seq::<AliasBinding>::empty());
    let rab = seq![bb] + (seq![ba] + Seq::<AliasBinding>::empty());
    assert(ab.drop_first() =~= seq![bb]);
    assert(rab.drop_first() =~= seq![ba]);
    assert(seq![bb].drop_first() =~= Seq::<AliasBinding>::empty());
    assert(seq![ba].drop_first() =~= Seq::<AliasBinding>::empty());
    let mab = bind_alias(bind_alias(m, item, last_seg(a), ha), item, last_seg(b), hb);
    let mba = bind_alias(bind_alias(m, item, last_seg(b), hb), item, last_seg(a), ha);
    assert(ab[0] == ba);
    assert(rab[0] == bb);
    assert(seq![bb][0] == bb);
    assert(seq![ba][0] == ba);
    assert(apply_aliases(mab, Seq::<AliasBinding>::empty()) == mab);
    assert(apply_aliases(mba, Seq::<AliasBinding>::empty()) == mba);
    assert(apply_aliases(bind_alias(m, item, last_seg(a), ha), seq![bb]) == mab);
    assert(apply_aliases(bind_alias(m, item, last_seg(b), hb), seq![ba]) == mba);
    assert(apply_aliases(m, ab) == mab);
    assert(apply_aliases(m, rab) == mba);
    assert(mab.scopes[item].children =~= mba.scopes[item].children);
    assert(mab.scopes =~~= mba.scopes);
    assert(mab =~~= mba);
}

} // verus!
