use modlang::ast::ResolvedAST;
use modlang::database::{Database, ItemId, ItemKind};
use modlang::error::ResolveError;
use modlang::lexer::lex;
use modlang::parser::parse;

fn resolved_handles(db: &Database, id: ItemId) -> Vec<ItemId> {
    db.get_resolved_body(id)
        .unwrap()
        .iter()
        .map(|n| match n {
            ResolvedAST::Call { ident } => *ident,
        })
        .collect()
}

#[test]
fn empty_program_parses_to_just_the_root() {
    let tokens = lex("").unwrap();
    let mut db = Database::new();
    parse(&mut db, &tokens).unwrap();
    assert_eq!(db.item_count(), 1);
}

#[test]
fn single_module_is_declared_under_the_root() {
    let tokens = lex("module m1 { }").unwrap();
    let mut db = Database::new();
    parse(&mut db, &tokens).unwrap();
    assert_eq!(db.item_count(), 2);
    let h = db.get_header(ItemId(1));
    assert_eq!(h.kind, ItemKind::Module);
    assert_eq!(h.name, "m1");
    assert_eq!(h.parent, ItemId(0));
}

#[test]
fn functions_get_their_unresolved_bodies_attached() {
    let tokens = lex("module m1 { function f1() { f1(); f1(); } }").unwrap();
    let mut db = Database::new();
    parse(&mut db, &tokens).unwrap();
    assert_eq!(db.item_count(), 3);
    let f1 = ItemId(2);
    assert!(db.has_unresolved_body(f1));
    assert_eq!(db.get_unresolved_body(f1).unwrap().len(), 2);
}

#[test]
fn missing_module_name_is_rejected() {
    let tokens = lex("module { }").unwrap();
    let mut db = Database::new();
    assert_eq!(parse(&mut db, &tokens).unwrap_err(), ResolveError::UnexpectedToken);
}

#[test]
fn stray_token_at_top_level_is_rejected() {
    let tokens = lex("module m1 { } ;").unwrap();
    let mut db = Database::new();
    assert_eq!(parse(&mut db, &tokens).unwrap_err(), ResolveError::UnexpectedToken);
}

#[test]
fn unclosed_module_is_rejected() {
    let tokens = lex("module m1 { function f1() { }").unwrap();
    let mut db = Database::new();
    assert_eq!(parse(&mut db, &tokens).unwrap_err(), ResolveError::UnexpectedToken);
}

#[test]
fn three_stage_pipeline_resolves_nested_modules_and_imports() {
    let src = "
        module A1 {
            module A2 {
                function a_func() { }
            }
            function top_func() {
                A2.a_func();
            }
        }
        module B1 {
            using A1.A2;
            function b_func() {
                A2.a_func();
            }
        }
    ";
    let tokens = lex(src).unwrap();
    let mut db = Database::new();
    parse(&mut db, &tokens).unwrap();
    // Declaration order: root, A1, A2, a_func, top_func, B1, b_func.
    assert_eq!(db.item_count(), 7);
    let a_func = ItemId(3);
    let top_func = ItemId(4);
    let b_func = ItemId(6);
    assert_eq!(db.get_header(a_func).name, "a_func");
    assert_eq!(db.get_header(top_func).name, "top_func");
    assert_eq!(db.get_header(b_func).name, "b_func");

    db.resolve_idents().unwrap();

    // top_func reaches A2 through its enclosing module, b_func
    // through the alias its module imported: both calls land on the
    // same declaration.
    assert_eq!(resolved_handles(&db, top_func), vec![a_func]);
    assert_eq!(resolved_handles(&db, b_func), vec![a_func]);
}

#[test]
fn resolution_failure_reports_the_missing_symbol() {
    let src = "module m1 { function f1() { m2.g1(); } }";
    let tokens = lex(src).unwrap();
    let mut db = Database::new();
    parse(&mut db, &tokens).unwrap();
    assert_eq!(db.resolve_idents().unwrap_err(), ResolveError::SymbolNotFound);
}

#[test]
fn resolution_failure_reports_traversal_into_a_function() {
    let src = "module m1 { function f1() { } function g1() { f1.h1(); } }";
    let tokens = lex(src).unwrap();
    let mut db = Database::new();
    parse(&mut db, &tokens).unwrap();
    assert_eq!(db.resolve_idents().unwrap_err(), ResolveError::InvalidPathSegment);
}

#[test]
fn function_scope_imports_work_like_module_imports() {
    let src = "
        module A1 {
            module A2 {
                function a_func() { }
            }
        }
        module B1 {
            function b_func() {
                using A1.A2;
                A2.a_func();
            }
        }
    ";
    let tokens = lex(src).unwrap();
    let mut db = Database::new();
    parse(&mut db, &tokens).unwrap();
    db.resolve_idents().unwrap();
    let a_func = ItemId(3);
    let b_func = ItemId(5);
    assert_eq!(db.get_header(b_func).name, "b_func");
    assert_eq!(resolved_handles(&db, b_func), vec![a_func]);
}
