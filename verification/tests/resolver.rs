use modlang::ast::{ResolvedAST, UnresolvedAST, UnresolvedIdent};
use modlang::database::{Database, ItemId, ItemKind};
use modlang::error::ResolveError;

fn ident(parts: &[&str]) -> UnresolvedIdent {
    UnresolvedIdent { parts: parts.iter().map(|p| p.to_string()).collect() }
}

fn call(parts: &[&str]) -> UnresolvedAST {
    UnresolvedAST::Call { ident: ident(parts) }
}

fn resolved_handles(db: &Database, id: ItemId) -> Vec<ItemId> {
    db.get_resolved_body(id)
        .unwrap()
        .iter()
        .map(|n| match n {
            ResolvedAST::Call { ident } => *ident,
        })
        .collect()
}

#[test]
fn new_database_holds_only_the_root() {
    let db = Database::new();
    assert_eq!(db.item_count(), 1);
    let root = db.get_header(ItemId(0));
    assert_eq!(root.kind, ItemKind::Module);
    assert_eq!(root.name, "<ROOT>");
    assert_eq!(root.id, ItemId(0));
}

#[test]
fn handles_are_assigned_densely_in_creation_order() {
    let mut db = Database::new();
    let m1 = db.new_item("m1".to_string(), ItemKind::Module, None);
    let f1 = db.new_item("f1".to_string(), ItemKind::Function, Some(m1));
    let m2 = db.new_item("m2".to_string(), ItemKind::Module, None);
    assert_eq!(m1, ItemId(1));
    assert_eq!(f1, ItemId(2));
    assert_eq!(m2, ItemId(3));
    assert_eq!(db.item_count(), 4);
    assert_eq!(db.get_header(f1).parent, m1);
    assert_eq!(db.get_header(m2).parent, ItemId(0));
}

#[test]
fn bodies_belong_to_functions_only() {
    let mut db = Database::new();
    let m1 = db.new_item("m1".to_string(), ItemKind::Module, None);
    let f1 = db.new_item("f1".to_string(), ItemKind::Function, Some(m1));
    assert_eq!(
        db.set_unresolved_body(m1, vec![]).unwrap_err(),
        ResolveError::InvalidItemKind
    );
    assert!(!db.has_unresolved_body(f1));
    db.set_unresolved_body(f1, vec![call(&["f1"])]).unwrap();
    assert!(db.has_unresolved_body(f1));
    assert_eq!(db.get_unresolved_body(f1).unwrap().len(), 1);
    assert_eq!(
        db.get_unresolved_body(m1).unwrap_err(),
        ResolveError::InvalidItemKind
    );
}

#[test]
fn self_reference_resolves_to_the_item_itself() {
    let mut db = Database::new();
    let m1 = db.new_item("m1".to_string(), ItemKind::Module, None);
    let f1 = db.new_item("funky".to_string(), ItemKind::Function, Some(m1));
    db.set_unresolved_body(f1, vec![call(&["funky"])]).unwrap();
    db.resolve_idents().unwrap();
    assert_eq!(resolved_handles(&db, f1), vec![f1]);
}

#[test]
fn function_sees_its_enclosing_module_before_the_root() {
    let mut db = Database::new();
    let outer = db.new_item("outer".to_string(), ItemKind::Module, None);
    let inner = db.new_item("xx".to_string(), ItemKind::Module, Some(outer));
    let _shadow = db.new_item("xx".to_string(), ItemKind::Module, None);
    let f1 = db.new_item("f1".to_string(), ItemKind::Function, Some(outer));
    db.set_unresolved_body(f1, vec![call(&["xx"])]).unwrap();
    db.resolve_idents().unwrap();
    // The enclosing module's child wins over the root's.
    assert_eq!(resolved_handles(&db, f1), vec![inner]);
}

#[test]
fn root_fallback_finds_top_level_modules() {
    let mut db = Database::new();
    let aa = db.new_item("aa".to_string(), ItemKind::Module, None);
    let af = db.new_item("af".to_string(), ItemKind::Function, Some(aa));
    let bb = db.new_item("bb".to_string(), ItemKind::Module, None);
    let bf = db.new_item("bf".to_string(), ItemKind::Function, Some(bb));
    db.set_unresolved_body(af, vec![]).unwrap();
    db.set_unresolved_body(bf, vec![call(&["aa", "af"])]).unwrap();
    db.resolve_idents().unwrap();
    assert_eq!(resolved_handles(&db, bf), vec![af]);
}

#[test]
fn self_name_shadows_a_child_of_the_same_name() {
    let mut db = Database::new();
    let mm = db.new_item("mm".to_string(), ItemKind::Module, None);
    let _child = db.new_item("mm".to_string(), ItemKind::Module, Some(mm));
    let f1 = db.new_item("f1".to_string(), ItemKind::Function, Some(mm));
    // The import `using mm;` is resolved at module `mm` itself: the
    // self-reference wins, so the alias binds mm's own handle and
    // shadows the inner child of the same name.
    db.add_import(mm, ident(&["mm"]));
    db.set_unresolved_body(f1, vec![call(&["mm"])]).unwrap();
    db.resolve_idents().unwrap();
    assert_eq!(resolved_handles(&db, f1), vec![mm]);
}

#[test]
fn traversing_into_a_function_fails() {
    let mut db = Database::new();
    let m1 = db.new_item("m1".to_string(), ItemKind::Module, None);
    let f1 = db.new_item("f1".to_string(), ItemKind::Function, Some(m1));
    let g1 = db.new_item("g1".to_string(), ItemKind::Function, Some(m1));
    db.set_unresolved_body(f1, vec![]).unwrap();
    db.set_unresolved_body(g1, vec![call(&["f1", "anything"])]).unwrap();
    assert_eq!(db.resolve_idents().unwrap_err(), ResolveError::InvalidPathSegment);
}

#[test]
fn unknown_name_reports_symbol_not_found() {
    let mut db = Database::new();
    let m1 = db.new_item("m1".to_string(), ItemKind::Module, None);
    let f1 = db.new_item("f1".to_string(), ItemKind::Function, Some(m1));
    db.set_unresolved_body(f1, vec![call(&["nowhere"])]).unwrap();
    assert_eq!(db.resolve_idents().unwrap_err(), ResolveError::SymbolNotFound);
}

#[test]
fn unknown_child_reports_symbol_not_found() {
    let mut db = Database::new();
    let m1 = db.new_item("m1".to_string(), ItemKind::Module, None);
    let f1 = db.new_item("f1".to_string(), ItemKind::Function, Some(m1));
    db.set_unresolved_body(f1, vec![call(&["m1", "nowhere"])]).unwrap();
    assert_eq!(db.resolve_idents().unwrap_err(), ResolveError::SymbolNotFound);
}

#[test]
fn import_alias_matches_direct_resolution() {
    // After phase 1, an import `using aa.bb` leaves a binding for
    // `bb` that resolves calls exactly as the full path would.
    let mut db = Database::new();
    let aa = db.new_item("aa".to_string(), ItemKind::Module, None);
    let bb = db.new_item("bb".to_string(), ItemKind::Module, Some(aa));
    let bf = db.new_item("bf".to_string(), ItemKind::Function, Some(bb));
    let cc = db.new_item("cc".to_string(), ItemKind::Module, None);
    let cf = db.new_item("cf".to_string(), ItemKind::Function, Some(cc));
    db.add_import(cc, ident(&["aa", "bb"]));
    db.set_unresolved_body(bf, vec![]).unwrap();
    db.set_unresolved_body(cf, vec![call(&["bb", "bf"])]).unwrap();
    db.resolve_idents().unwrap();
    assert_eq!(resolved_handles(&db, cf), vec![bf]);
}

#[test]
fn empty_body_resolves_to_an_empty_resolved_body() {
    let mut db = Database::new();
    let m1 = db.new_item("m1".to_string(), ItemKind::Module, None);
    let f1 = db.new_item("f1".to_string(), ItemKind::Function, Some(m1));
    db.set_unresolved_body(f1, vec![]).unwrap();
    assert!(db.get_resolved_body(f1).is_none());
    db.resolve_idents().unwrap();
    assert_eq!(db.get_resolved_body(f1).unwrap().len(), 0);
}

#[test]
fn resolution_is_deterministic_across_equal_databases() {
    let build = || {
        let mut db = Database::new();
        let aa = db.new_item("aa".to_string(), ItemKind::Module, None);
        let af = db.new_item("af".to_string(), ItemKind::Function, Some(aa));
        let bb = db.new_item("bb".to_string(), ItemKind::Module, None);
        let bf = db.new_item("bf".to_string(), ItemKind::Function, Some(bb));
        db.add_import(bb, ident(&["aa"]));
        db.set_unresolved_body(af, vec![call(&["af"])]).unwrap();
        db.set_unresolved_body(bf, vec![call(&["aa", "af"])]).unwrap();
        db
    };
    let mut d1 = build();
    let mut d2 = build();
    d1.resolve_idents().unwrap();
    d2.resolve_idents().unwrap();
    for id in [ItemId(2), ItemId(4)] {
        assert_eq!(resolved_handles(&d1, id), resolved_handles(&d2, id));
    }
}

#[test]
fn sibling_import_order_does_not_change_resolved_bodies() {
    // Two independent imports of one scope, processed in either
    // declaration order, give the same resolved bodies.
    let build = |swapped: bool| {
        let mut db = Database::new();
        let aa = db.new_item("aa".to_string(), ItemKind::Module, None);
        let af = db.new_item("af".to_string(), ItemKind::Function, Some(aa));
        let bb = db.new_item("bb".to_string(), ItemKind::Module, None);
        let bf = db.new_item("bf".to_string(), ItemKind::Function, Some(bb));
        let cc = db.new_item("cc".to_string(), ItemKind::Module, None);
        let cf = db.new_item("cf".to_string(), ItemKind::Function, Some(cc));
        if swapped {
            db.add_import(cc, ident(&["bb"]));
            db.add_import(cc, ident(&["aa"]));
        } else {
            db.add_import(cc, ident(&["aa"]));
            db.add_import(cc, ident(&["bb"]));
        }
        db.set_unresolved_body(af, vec![]).unwrap();
        db.set_unresolved_body(bf, vec![]).unwrap();
        db.set_unresolved_body(cf, vec![call(&["aa", "af"]), call(&["bb", "bf"])])
            .unwrap();
        db.resolve_idents().unwrap();
        db
    };
    let d1 = build(false);
    let d2 = build(true);
    let cf = ItemId(6);
    assert_eq!(resolved_handles(&d1, cf), resolved_handles(&d2, cf));
    assert_eq!(resolved_handles(&d1, cf), vec![ItemId(2), ItemId(4)]);
}

#[test]
fn imports_never_resolve_through_a_same_pass_alias() {
    // Module aa declares its own child yy; a sibling module ww also
    // has a child named yy.  aa imports ww.yy (rebinding the name yy)
    // and then yy.  The second import resolves against the scopes as
    // the builder left them — where yy is aa's own child — and never
    // through the alias the first import bound.
    let mut db = Database::new();
    let aa = db.new_item("aa".to_string(), ItemKind::Module, None);
    let yy_in_aa = db.new_item("yy".to_string(), ItemKind::Module, Some(aa));
    let ww = db.new_item("ww".to_string(), ItemKind::Module, None);
    let _yy_in_ww = db.new_item("yy".to_string(), ItemKind::Module, Some(ww));
    let af = db.new_item("af".to_string(), ItemKind::Function, Some(aa));
    db.add_import(aa, ident(&["ww", "yy"]));
    db.add_import(aa, ident(&["yy"]));
    db.set_unresolved_body(af, vec![call(&["yy"])]).unwrap();
    db.resolve_idents().unwrap();
    assert_eq!(resolved_handles(&db, af), vec![yy_in_aa]);
}

#[test]
fn same_name_imports_keep_the_later_one() {
    // Two imports of one scope bind the same final name: the later
    // declaration wins, and it binds its own snapshot resolution.
    let mut db = Database::new();
    let aa = db.new_item("aa".to_string(), ItemKind::Module, None);
    let _tt_in_aa = db.new_item("tt".to_string(), ItemKind::Module, Some(aa));
    let ww = db.new_item("ww".to_string(), ItemKind::Module, None);
    let tt_in_ww = db.new_item("tt".to_string(), ItemKind::Module, Some(ww));
    let cc = db.new_item("cc".to_string(), ItemKind::Module, None);
    let cf = db.new_item("cf".to_string(), ItemKind::Function, Some(cc));
    db.add_import(cc, ident(&["aa", "tt"]));
    db.add_import(cc, ident(&["ww", "tt"]));
    db.set_unresolved_body(cf, vec![call(&["tt"])]).unwrap();
    db.resolve_idents().unwrap();
    assert_eq!(resolved_handles(&db, cf), vec![tt_in_ww]);
}

#[test]
fn failed_phase_one_leaves_the_database_unchanged() {
    let mut db = Database::new();
    let aa = db.new_item("aa".to_string(), ItemKind::Module, None);
    let af = db.new_item("af".to_string(), ItemKind::Function, Some(aa));
    db.add_import(aa, ident(&["nowhere"]));
    db.set_unresolved_body(af, vec![]).unwrap();
    assert_eq!(db.resolve_idents().unwrap_err(), ResolveError::SymbolNotFound);
    // No partial result: no body was resolved.
    assert!(db.get_resolved_body(af).is_none());
}

#[test]
fn single_ident_self_reference_beats_everything() {
    let mut db = Database::new();
    let mm = db.new_item("mm".to_string(), ItemKind::Module, None);
    let _child = db.new_item("mm".to_string(), ItemKind::Module, Some(mm));
    let _top = db.new_item("mm".to_string(), ItemKind::Module, None);
    // Starting at mm itself, the bare name mm denotes mm, not its
    // same-named child and not the root binding.
    assert_eq!(db.resolve_single_ident(mm, &ident(&["mm"])).unwrap(), mm);
}

#[test]
fn visible_symbol_prefers_own_children_over_root() {
    let mut db = Database::new();
    let outer = db.new_item("outer".to_string(), ItemKind::Module, None);
    let inner = db.new_item("xx".to_string(), ItemKind::Module, Some(outer));
    let top = db.new_item("xx".to_string(), ItemKind::Module, None);
    assert_eq!(db.get_visible_symbol(outer, &"xx".to_string()).unwrap(), inner);
    assert_eq!(db.get_visible_symbol(ItemId(0), &"xx".to_string()).unwrap(), top);
}

#[test]
fn modules_do_not_fall_back_to_their_parent_scope() {
    let mut db = Database::new();
    let outer = db.new_item("outer".to_string(), ItemKind::Module, None);
    let deep = db.new_item("deep".to_string(), ItemKind::Module, Some(outer));
    let ss = db.new_item("ss".to_string(), ItemKind::Module, Some(outer));
    let ff = db.new_item("ff".to_string(), ItemKind::Function, Some(outer));
    // The nested module does not see its parent's binding of ss, but
    // a function under the same parent does.
    assert_eq!(
        db.get_visible_symbol(deep, &"ss".to_string()).unwrap_err(),
        ResolveError::SymbolNotFound
    );
    assert_eq!(db.get_visible_symbol(ff, &"ss".to_string()).unwrap(), ss);
}

#[test]
fn single_ident_resolution_is_deterministic() {
    let mut db = Database::new();
    let aa = db.new_item("aa".to_string(), ItemKind::Module, None);
    let af = db.new_item("af".to_string(), ItemKind::Function, Some(aa));
    let path = ident(&["aa", "af"]);
    let first = db.resolve_single_ident(af, &path).unwrap();
    let second = db.resolve_single_ident(af, &path).unwrap();
    assert_eq!(first, second);
    assert_eq!(first, af);
}

#[test]
fn single_ident_traversal_into_function_fails() {
    let mut db = Database::new();
    let aa = db.new_item("aa".to_string(), ItemKind::Module, None);
    let af = db.new_item("af".to_string(), ItemKind::Function, Some(aa));
    assert_eq!(
        db.resolve_single_ident(af, &ident(&["af", "anything"])).unwrap_err(),
        ResolveError::InvalidPathSegment
    );
}

#[test]
fn later_binding_shadows_earlier_one() {
    // A name collision overwrites the previous binding: the alias
    // added in phase 1 wins over the declared child of the same name.
    let mut db = Database::new();
    let aa = db.new_item("aa".to_string(), ItemKind::Module, None);
    let target = db.new_item("tt".to_string(), ItemKind::Module, Some(aa));
    let cc = db.new_item("cc".to_string(), ItemKind::Module, None);
    let _own_tt = db.new_item("tt".to_string(), ItemKind::Module, Some(cc));
    let cf = db.new_item("cf".to_string(), ItemKind::Function, Some(cc));
    db.add_import(cc, ident(&["aa", "tt"]));
    db.set_unresolved_body(cf, vec![call(&["tt"])]).unwrap();
    db.resolve_idents().unwrap();
    assert_eq!(resolved_handles(&db, cf), vec![target]);
}
