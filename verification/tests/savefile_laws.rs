use war_analyzer::parser::{
    is_decimal_literal, is_identifier_char, is_integer_literal, parse_document, strip_number_sign,
    tokenize, Lexer, ParseError, TokenKind,
};
use war_analyzer::view::build_parsed_savefile_view;
use war_analyzer::war::{
    extract_wars, parse_save_date, wars_have_unique_originals, SaveDate,
};

#[test]
fn tokens_carry_one_based_lines_and_columns_and_end_with_eof() {
    let tokens = tokenize("a = 1\n  b = { }").unwrap();
    assert_eq!((tokens[0].line, tokens[0].column), (1, 1));
    assert_eq!((tokens[3].line, tokens[3].column), (2, 3));
    assert_eq!(tokens.last().unwrap().kind, TokenKind::Eof);
    assert_eq!(tokenize("").unwrap().len(), 1);
}

#[test]
fn reports_parse_errors_with_their_position() {
    let error = parse_document("a = 1\nb c").unwrap_err();
    assert_eq!(error.to_string(), "expected '=' after key 'b' at line 2, column 3");
    let error = tokenize("x = \"open").unwrap_err();
    assert_eq!(error.to_string(), "unterminated string literal at line 1, column 5");
}

#[test]
fn reads_savefile_dates_and_writes_them_as_iso() {
    let date = parse_save_date(&"1836.12.9".to_string()).expect("expected a date");
    assert_eq!(date, SaveDate { year: 1836, month: 12, day: 9 });
    assert_eq!(date.to_iso_string(), "1836-12-09");
    assert_eq!(SaveDate { year: 5, month: 1, day: 30 }.to_iso_string(), "0005-01-30");
    assert_eq!(parse_save_date(&"1836.12".to_string()), None);
    assert_eq!(parse_save_date(&"1836.256.1".to_string()), None);
    assert_eq!(parse_save_date(&"+1836.+1.+2".to_string()), Some(SaveDate { year: 1836, month: 1, day: 2 }));
}

#[test]
fn finds_repeated_original_participants() {
    let document = parse_document(
        "active_war = { name = \"X\" original_attacker = ENG original_attacker = FRA }",
    )
    .unwrap();
    assert!(!wars_have_unique_originals(&document));
    let document = parse_document("active_war = { name = \"X\" original_attacker = ENG }").unwrap();
    assert!(wars_have_unique_originals(&document));
    let document = parse_document(
        "previous_war = { name = \"Y\" original_defender = FRA original_defender = FRA }",
    )
    .unwrap();
    assert!(!wars_have_unique_originals(&document));
}

#[test]
fn war_total_is_the_sum_of_its_battle_totals() {
    let document = parse_document(
        r#"
        active_war = {
          name = "Sum War"
          history = {
            battle = { name = "A" location = 1 attacker = { losses = 1.5 } defender = { losses = 2 } }
            battle = { name = "B" location = 2 attacker = { losses = -1294967.296 } defender = { } }
          }
          original_attacker = ENG
          original_defender = FRA
        }
        "#,
    )
    .unwrap();
    assert!(wars_have_unique_originals(&document));
    let wars = extract_wars(&document);
    let war = &wars.active_wars[0];
    assert_eq!(war.total_losses(), war.attacker_total_losses() + war.defender_total_losses());
    let view = build_parsed_savefile_view("sum.v2".to_string(), 1, &wars);
    let shown = &view.active_wars[0];
    let battles: u128 = shown.battles.iter().map(|b| b.total_losses as u128).sum();
    assert_eq!(shown.total_losses, battles);
    assert_eq!(shown.total_losses, 3_000_003_500);
    assert_eq!(shown.battles[0].name, "B");
}

#[test]
fn classifies_number_literals_and_identifier_characters() {
    assert!(is_integer_literal("-42"));
    assert!(is_integer_literal("+7"));
    assert!(!is_integer_literal("-"));
    assert!(!is_integer_literal("4a"));
    assert!(is_decimal_literal("-12.5"));
    assert!(!is_decimal_literal("12."));
    assert!(!is_decimal_literal(".5"));
    assert!(!is_decimal_literal("1.2.3"));
    assert_eq!(strip_number_sign("+17"), "17");
    assert_eq!(strip_number_sign("-1.5"), "1.5");
    assert_eq!(strip_number_sign("x"), "x");
    assert!(is_identifier_char(':'));
    assert!(!is_identifier_char('#'));
    assert!(!is_identifier_char('é'));
}

#[test]
fn lexer_tracks_lines_and_columns() {
    let mut lexer = Lexer::new("  a\nb");
    lexer.skip_whitespace();
    assert_eq!(lexer.peek_char(), Some('a'));
    assert_eq!(lexer.bump_char(), Some('a'));
    assert_eq!(lexer.bump_char(), Some('\n'));
    assert_eq!(lexer.bump_char(), Some('b'));
    assert_eq!(lexer.bump_char(), None);
    assert_eq!(ParseError::new(3, 4, "oops".to_string()).to_string(), "oops at line 3, column 4");
}

#[test]
fn iso_dates_read_back_and_order_as_dates() {
    let dates = [
        SaveDate { year: 5, month: 1, day: 30 },
        SaveDate { year: 1836, month: 1, day: 1 },
        SaveDate { year: 1836, month: 1, day: 2 },
        SaveDate { year: 1836, month: 12, day: 9 },
        SaveDate { year: 9999, month: 99, day: 99 },
    ];
    for (i, a) in dates.iter().enumerate() {
        let text = a.to_iso_string();
        assert_eq!(parse_save_date(&text.replace('-', ".")), Some(*a));
        assert_eq!(text.len(), 10);
        assert_eq!(&text[4..5], "-");
        assert_eq!(&text[7..8], "-");
        for (j, b) in dates.iter().enumerate() {
            assert_eq!(text < b.to_iso_string(), i < j);
            assert_eq!(text == b.to_iso_string(), i == j);
        }
    }
    let wide = SaveDate { year: 65535, month: 255, day: 255 };
    assert_eq!(parse_save_date(&wide.to_iso_string().replace('-', ".")), Some(wide));
}

#[test]
fn surrounding_whitespace_changes_nothing_parsed() {
    let plain = "tag = ENG\nactive_war\nlist = { 1 2 }";
    let padded = format!(" \n\t {plain} \r\n  ");
    assert_eq!(parse_document(plain).unwrap(), parse_document(&padded).unwrap());
    let bad = "a = 1\nb c";
    let plain_error = parse_document(bad).unwrap_err().to_string();
    let padded_error = parse_document(&format!("\n\n  {bad}\n")).unwrap_err().to_string();
    assert_eq!(plain_error, "expected '=' after key 'b' at line 2, column 3");
    assert_eq!(padded_error, "expected '=' after key 'b' at line 4, column 3");
}

#[test]
fn keeps_unit_counts_in_unit_kind_order() {
    let document = parse_document(
        "active_war = { name = \"X\" history = { battle = { name = \"B\" location = 1 attacker = { infantry = 3 artillery = 2 hussar = 1 infantry = 4 } defender = { } } } original_attacker = ENG original_defender = FRA }",
    )
    .unwrap();
    let wars = extract_wars(&document);
    let counts = &wars.active_wars[0].history.battles[0].attacker.unit_counts;
    assert_eq!(counts.len(), 3);
    let kinds: Vec<(&str, i64)> =
        (0..counts.len()).map(|i| (counts.entry(i).unit_kind.as_str(), counts.entry(i).count)).collect();
    assert_eq!(kinds, vec![("artillery", 2), ("hussar", 1), ("infantry", 4)]);
}
