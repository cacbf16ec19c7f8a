use war_analyzer::parser::{parse_document, tokenize, Block, Document, Statement, TokenKind, Value};

fn decimal_value(value: &Value) -> f64 {
    match value {
        Value::Decimal(d) => d.to_text().parse::<f64>().unwrap(),
        _ => panic!("expected a decimal value"),
    }
}

fn decimal_token(kind: &TokenKind) -> f64 {
    match kind {
        TokenKind::Decimal(d) => d.to_text().parse::<f64>().unwrap(),
        _ => panic!("expected a decimal token"),
    }
}

#[test]
fn tokenizes_identifiers_with_supported_characters() {
    let tokens = tokenize("foo_bar-baz.qux:quux").unwrap();

    assert_eq!(
        tokens[0].kind,
        TokenKind::Identifier("foo_bar-baz.qux:quux".to_string())
    );
}

#[test]
fn tokenizes_strings_without_escapes() {
    let tokens = tokenize("\"United Kingdom\"").unwrap();

    assert_eq!(
        tokens[0].kind,
        TokenKind::String("United Kingdom".to_string())
    );
}

#[test]
fn tokenizes_signed_numbers() {
    let tokens = tokenize("-42 +17 -12.5 99.25").unwrap();

    assert_eq!(tokens[0].kind, TokenKind::Integer(-42));
    assert_eq!(tokens[1].kind, TokenKind::Integer(17));
    assert_eq!(decimal_token(&tokens[2].kind), -12.5);
    assert_eq!(decimal_token(&tokens[3].kind), 99.25);
}

#[test]
fn tokenizes_braces_and_equals() {
    let tokens = tokenize("= { }").unwrap();

    assert_eq!(tokens[0].kind, TokenKind::Equals);
    assert_eq!(tokens[1].kind, TokenKind::LeftBrace);
    assert_eq!(tokens[2].kind, TokenKind::RightBrace);
}

#[test]
fn parses_single_top_level_statement() {
    let document = parse_document("tag = ENG").unwrap();

    assert_eq!(
        document,
        Document {
            statements: vec![Statement {
                key: "tag".to_string(),
                value: Some(Value::Identifier("ENG".to_string())),
            }],
        }
    );
}

#[test]
fn parses_numeric_statement_keys() {
    let document = parse_document(
        r#"
            123 = {
              456 = ENG
            }
            "#,
    )
    .unwrap();

    assert_eq!(document.statements[0].key, "123");
    assert!(matches!(
        document.statements[0].value,
        Some(Value::Block(Block::Statements(_)))
    ));

    let Some(Value::Block(Block::Statements(statements))) = &document.statements[0].value else {
        panic!("expected statement block value");
    };

    assert_eq!(statements[0].key, "456");
    assert_eq!(
        statements[0].value,
        Some(Value::Identifier("ENG".to_string()))
    );
}

#[test]
fn parses_quoted_string_statement_keys() {
    let document = parse_document(
        r#"
            national_focus = {
              "234" = "promote_craftsmen"
            }
            "#,
    )
    .unwrap();

    let Some(Value::Block(Block::Statements(statements))) = &document.statements[0].value else {
        panic!("expected statement block value");
    };

    assert_eq!(statements.len(), 1);
    assert_eq!(statements[0].key, "234");
    assert_eq!(
        statements[0].value,
        Some(Value::String("promote_craftsmen".to_string()))
    );
}

#[test]
fn parses_value_list_blocks() {
    let document = parse_document(
        r#"
            budget_balance = {
              9246.92853 9244.16919 10585.42148
            }
            "#,
    )
    .unwrap();

    let Some(Value::Block(Block::Values(values))) = &document.statements[0].value else {
        panic!("expected value-list block");
    };

    assert_eq!(values.len(), 3);
    assert_eq!(decimal_value(&values[0]), 9246.92853);
    assert_eq!(decimal_value(&values[1]), 9244.16919);
    assert_eq!(decimal_value(&values[2]), 10585.42148);
}

#[test]
fn parses_bare_identifier_statement() {
    let document = parse_document(
        r#"
            active_war
            tag = ENG
            "#,
    )
    .unwrap();

    assert_eq!(document.statements[0].key, "active_war");
    assert_eq!(document.statements[0].value, None);
    assert_eq!(
        document.statements[1].value,
        Some(Value::Identifier("ENG".to_string()))
    );
}

#[test]
fn parses_nested_blocks() {
    let document = parse_document(
        r#"
            country = {
              tag = ENG
              name = "United Kingdom"
              prestige = 12.5
            }
            "#,
    )
    .unwrap();

    let Some(Value::Block(Block::Statements(statements))) = &document.statements[0].value else {
        panic!("expected statement block value");
    };

    assert_eq!(document.statements[0].key, "country");
    assert_eq!(statements.len(), 3);
    assert_eq!(statements[0].key, "tag");
    assert_eq!(statements[1].key, "name");
    assert_eq!(decimal_value(statements[2].value.as_ref().unwrap()), 12.5);
}

#[test]
fn preserves_top_level_statement_order() {
    let document = parse_document(
        r#"
            first = 1
            second = 2
            third = 3
            "#,
    )
    .unwrap();

    let keys: Vec<&str> = document
        .statements
        .iter()
        .map(|statement| statement.key.as_str())
        .collect();

    assert_eq!(keys, vec!["first", "second", "third"]);
}

#[test]
fn accepts_trailing_root_closing_braces() {
    let document = parse_document("tag = ENG }}").unwrap();

    assert_eq!(document.statements.len(), 1);
    assert_eq!(document.statements[0].key, "tag");
    assert_eq!(
        document.statements[0].value,
        Some(Value::Identifier("ENG".to_string()))
    );
}

#[test]
fn rejects_missing_equals() {
    let error = parse_document("tag ENG").unwrap_err();

    assert!(error.to_string().contains("expected '=' after key 'tag'"));
}

#[test]
fn rejects_non_trailing_root_closing_brace() {
    let error = parse_document("tag = ENG } other = FRA").unwrap_err();

    assert!(error.to_string().contains("unexpected '}'"));
}

#[test]
fn rejects_bare_numeric_statement() {
    let error = parse_document("123").unwrap_err();

    assert!(error.to_string().contains("expected '=' after key '123'"));
}

#[test]
fn rejects_missing_closing_brace() {
    let error = parse_document("country = { tag = ENG").unwrap_err();

    assert!(
        error
            .to_string()
            .contains("expected '}' before end of input")
    );
}

#[test]
fn rejects_invalid_string_termination() {
    let error = parse_document("name = \"United Kingdom").unwrap_err();

    assert!(error.to_string().contains("unterminated string literal"));
}

#[test]
fn preserves_duplicate_keys_in_one_block() {
    let document = parse_document("country = { tag = ENG tag = FRA }").unwrap();

    let Some(Value::Block(Block::Statements(statements))) = &document.statements[0].value else {
        panic!("expected statement block value");
    };

    assert_eq!(statements.len(), 2);
    assert_eq!(statements[0].key, "tag");
    assert_eq!(
        statements[0].value,
        Some(Value::Identifier("ENG".to_string()))
    );
    assert_eq!(statements[1].key, "tag");
    assert_eq!(
        statements[1].value,
        Some(Value::Identifier("FRA".to_string()))
    );
}
