use noir_ir::parser::{parse_program_with_dummy_file, ItemKind, ItemVisibility, ParserError};

fn expect_no_errors(errors: &[ParserError]) {
    assert!(errors.is_empty(), "expected no errors, got {:?}", errors);
}

#[test]
fn parse_module_declaration() {
    let src = "mod foo;";
    let (module, errors) = parse_program_with_dummy_file(src);
    expect_no_errors(&errors);
    assert_eq!(module.items.len(), 1);
    let item = &module.items[0];
    let ItemKind::ModuleDecl(module) = &item.kind else {
        panic!("Expected module declaration");
    };
    assert_eq!("foo", module.ident.to_string());
}

#[test]
fn parse_submodule() {
    let src = "mod foo { mod bar; }";
    let (module, errors) = parse_program_with_dummy_file(src);
    expect_no_errors(&errors);
    assert_eq!(module.items.len(), 1);
    let item = &module.items[0];
    let ItemKind::Submodules(parsed_submodule) = &item.kind else {
        panic!("Expected submodules declaration");
    };
    assert!(!parsed_submodule.is_contract);
    assert_eq!("foo", parsed_submodule.name.to_string());
    assert_eq!(parsed_submodule.contents.items.len(), 1);
}

#[test]
fn parse_contract() {
    let src = "contract foo {}";
    let (module, errors) = parse_program_with_dummy_file(src);
    expect_no_errors(&errors);
    assert_eq!(module.items.len(), 1);
    let item = &module.items[0];
    let ItemKind::Submodules(parsed_submodule) = &item.kind else {
        panic!("Expected submodules declaration");
    };
    assert!(parsed_submodule.is_contract);
    assert_eq!("foo", parsed_submodule.name.to_string());
    assert_eq!(parsed_submodule.contents.items.len(), 0);
}

#[test]
fn missing_semicolon_is_reported() {
    let (module, errors) = parse_program_with_dummy_file("mod foo");
    assert_eq!(errors, vec![ParserError::ExpectedSemicolon]);
    assert_eq!(module.items.len(), 1);
}

#[test]
fn missing_closing_brace_is_reported() {
    let (_, errors) = parse_program_with_dummy_file("contract foo { mod bar;");
    assert_eq!(errors, vec![ParserError::ExpectedRightBrace]);
}

#[test]
fn stray_token_is_reported() {
    let (_, errors) = parse_program_with_dummy_file("}");
    assert_eq!(errors, vec![ParserError::ExpectedItem]);
}

#[test]
fn closing_brace_ends_the_nested_module() {
    let (module, errors) = parse_program_with_dummy_file("mod foo { mod bar; } mod baz;");
    expect_no_errors(&errors);
    assert_eq!(module.items.len(), 2);
    let ItemKind::Submodules(foo) = &module.items[0].kind else {
        panic!("Expected submodules declaration");
    };
    assert_eq!(foo.name.to_string(), "foo");
    assert_eq!(foo.contents.items.len(), 1);
    let ItemKind::ModuleDecl(bar) = &foo.contents.items[0].kind else {
        panic!("Expected module declaration");
    };
    assert_eq!(bar.ident.to_string(), "bar");
    let ItemKind::ModuleDecl(baz) = &module.items[1].kind else {
        panic!("Expected module declaration");
    };
    assert_eq!(baz.ident.to_string(), "baz");
}

#[test]
fn run_of_semicolons_is_one_declaration() {
    let (module, errors) = parse_program_with_dummy_file("mod foo;;;");
    expect_no_errors(&errors);
    assert_eq!(module.items.len(), 1);
    let ItemKind::ModuleDecl(m) = &module.items[0].kind else {
        panic!("Expected module declaration");
    };
    assert!(m.has_semicolon);
}

#[test]
fn contract_with_semicolon_is_a_declaration() {
    let (module, errors) = parse_program_with_dummy_file("contract foo;");
    expect_no_errors(&errors);
    let ItemKind::ModuleDecl(m) = &module.items[0].kind else {
        panic!("Expected module declaration");
    };
    assert_eq!(m.ident.to_string(), "foo");
    assert!(m.has_semicolon);
}

#[test]
fn pub_makes_the_item_public() {
    let (module, errors) = parse_program_with_dummy_file("pub mod foo;");
    expect_no_errors(&errors);
    let ItemKind::ModuleDecl(m) = &module.items[0].kind else {
        panic!("Expected module declaration");
    };
    assert_eq!(m.visibility, ItemVisibility::Public);
}

#[test]
fn unclosed_module_is_still_produced() {
    let (module, errors) = parse_program_with_dummy_file("mod foo {");
    assert_eq!(errors, vec![ParserError::ExpectedRightBrace]);
    assert_eq!(module.items.len(), 1);
    let ItemKind::Submodules(s) = &module.items[0].kind else {
        panic!("Expected submodules declaration");
    };
    assert!(!s.is_contract);
    assert!(s.contents.items.is_empty());
}

#[test]
fn missing_name_is_reported() {
    let (module, errors) = parse_program_with_dummy_file("mod ; mod 1");
    assert_eq!(errors, vec![ParserError::ExpectedIdentifier, ParserError::ExpectedItem, ParserError::ExpectedIdentifier, ParserError::ExpectedItem]);
    assert!(module.items.is_empty());
}
