use sql_lexer::{lex, Keyword, Location, Symbol, TokenValue};

#[test]
fn empty() {
    let tokens = lex("").unwrap();
    assert!(tokens.is_empty());
}

#[test]
fn nonsense() {
    let tokens = lex("deadbeef");
    assert!(tokens.is_err());
}

#[test]
fn keyword_lower_case() {
    let tokens = lex("select").unwrap();
    assert_eq!(tokens.len(), 1);
    assert_eq!(tokens[0].value, TokenValue::Keyword(Keyword::Select));
    assert_eq!(tokens[0].location, Location { line: 0, column: 0 });
}

#[test]
fn keyword_upper_case() {
    let tokens = lex("SELECT").unwrap();
    assert_eq!(tokens.len(), 1);
    assert_eq!(tokens[0].value, TokenValue::Keyword(Keyword::Select));
}

#[test]
fn keyword_mixed_case() {
    let tokens = lex("Select").unwrap();
    assert_eq!(tokens.len(), 1);
    assert_eq!(tokens[0].value, TokenValue::Keyword(Keyword::Select));
}

#[test]
fn all_keywords() {
    let tokens = lex("select from as table create insert into values int text").unwrap();
    let expected = [
        Keyword::Select,
        Keyword::From,
        Keyword::As,
        Keyword::Table,
        Keyword::Create,
        Keyword::Insert,
        Keyword::Into,
        Keyword::Values,
        Keyword::Int,
        Keyword::Text,
    ];
    assert_eq!(tokens.len(), expected.len());
    for (token, keyword) in tokens.iter().zip(expected.iter()) {
        assert_eq!(token.value, TokenValue::Keyword(*keyword));
    }
}

#[test]
fn each_symbol_alone() {
    let cases = [
        (";", Symbol::Semicolon),
        ("*", Symbol::Asterisk),
        (",", Symbol::Comma),
        ("(", Symbol::LeftParen),
        (")", Symbol::RightParen),
    ];
    for (text, symbol) in cases.iter() {
        let tokens = lex(text).unwrap();
        assert_eq!(tokens.len(), 1);
        assert_eq!(tokens[0].value, TokenValue::Symbol(*symbol));
        assert_eq!(tokens[0].location, Location { line: 0, column: 0 });
    }
}

#[test]
fn newline_moves_to_next_line() {
    let tokens = lex("select\nfrom").unwrap();
    assert_eq!(tokens.len(), 2);
    assert_eq!(tokens[0].location, Location { line: 0, column: 0 });
    assert_eq!(tokens[1].location, Location { line: 1, column: 0 });
}

#[test]
fn column_resets_after_newline() {
    let tokens = lex("select\n  from").unwrap();
    assert_eq!(tokens.len(), 2);
    assert_eq!(tokens[1].location, Location { line: 1, column: 2 });
}

#[test]
fn number_decodes() {
    let tokens = lex("12345").unwrap();
    assert_eq!(tokens.len(), 1);
    assert_eq!(tokens[0].value, TokenValue::Number(12345));
    assert_eq!(tokens[0].location, Location { line: 0, column: 0 });
}

#[test]
fn number_at_signed_64_bit_bounds() {
    let tokens = lex("9223372036854775807").unwrap();
    assert_eq!(tokens[0].value, TokenValue::Number(i64::MAX));
    let tokens = lex("-9223372036854775808").unwrap();
    assert_eq!(tokens[0].value, TokenValue::Number(i64::MIN));
}

#[test]
fn number_overflow_fails_at_literal_start() {
    let err = lex("9223372036854775808").unwrap_err();
    assert_eq!(err.location, Location { line: 0, column: 0 });
    assert_eq!(err.last, None);
    let err = lex("-9223372036854775809").unwrap_err();
    assert_eq!(err.location, Location { line: 0, column: 0 });
}

#[test]
fn number_with_plus_sign() {
    let tokens = lex("+17").unwrap();
    assert_eq!(tokens.len(), 1);
    assert_eq!(tokens[0].value, TokenValue::Number(17));
}

#[test]
fn number_run_is_maximal() {
    let err = lex("123abc").unwrap_err();
    assert_eq!(err.location, Location { line: 0, column: 3 });
    assert_eq!(err.last.unwrap().value, TokenValue::Number(123));
}

#[test]
fn adjacent_numbers_with_sign() {
    let tokens = lex("1-2").unwrap();
    assert_eq!(tokens.len(), 2);
    assert_eq!(tokens[0].value, TokenValue::Number(1));
    assert_eq!(tokens[1].value, TokenValue::Number(-2));
    assert_eq!(tokens[1].location, Location { line: 0, column: 1 });
}

#[test]
fn string_literal() {
    let tokens = lex("'abc'").unwrap();
    assert_eq!(tokens.len(), 1);
    assert_eq!(tokens[0].value, TokenValue::StringLit("abc".to_string()));
    assert_eq!(tokens[0].location, Location { line: 0, column: 0 });
}

#[test]
fn empty_string_literal() {
    let tokens = lex("''").unwrap();
    assert_eq!(tokens.len(), 1);
    assert_eq!(tokens[0].value, TokenValue::StringLit(String::new()));
}

#[test]
fn string_keeps_original_case() {
    let tokens = lex("'SELECT'").unwrap();
    assert_eq!(tokens[0].value, TokenValue::StringLit("SELECT".to_string()));
}

#[test]
fn unterminated_string_fails() {
    let err = lex("'abc").unwrap_err();
    assert_eq!(err.location, Location { line: 0, column: 0 });
    assert_eq!(err.last, None);
}

#[test]
fn string_with_embedded_newline() {
    let tokens = lex("'a\nb'*").unwrap();
    assert_eq!(tokens.len(), 2);
    assert_eq!(tokens[0].value, TokenValue::StringLit("a\nb".to_string()));
    assert_eq!(tokens[0].location, Location { line: 0, column: 0 });
    assert_eq!(tokens[1].value, TokenValue::Symbol(Symbol::Asterisk));
    assert_eq!(tokens[1].location, Location { line: 1, column: 2 });
}

#[test]
fn whitespace_only_input() {
    let tokens = lex("  \t\n ").unwrap();
    assert!(tokens.is_empty());
}

#[test]
fn tab_counts_one_column() {
    let tokens = lex("\tselect").unwrap();
    assert_eq!(tokens[0].location, Location { line: 0, column: 1 });
}

#[test]
fn free_identifier_is_rejected() {
    let err = lex("x").unwrap_err();
    assert_eq!(err.location, Location { line: 0, column: 0 });
    assert_eq!(err.last, None);
}

#[test]
fn whole_statement() {
    let tokens = lex("select * from values;").unwrap();
    assert_eq!(tokens.len(), 5);
    assert_eq!(tokens[0].value, TokenValue::Keyword(Keyword::Select));
    assert_eq!(tokens[1].value, TokenValue::Symbol(Symbol::Asterisk));
    assert_eq!(tokens[2].value, TokenValue::Keyword(Keyword::From));
    assert_eq!(tokens[3].value, TokenValue::Keyword(Keyword::Values));
    assert_eq!(tokens[4].value, TokenValue::Symbol(Symbol::Semicolon));
    assert_eq!(tokens[1].location, Location { line: 0, column: 7 });
    assert_eq!(tokens[4].location, Location { line: 0, column: 20 });
}

#[test]
fn positions_never_decrease() {
    let tokens = lex("select *\n, ( 12 )\n'txt' ;").unwrap();
    for pair in tokens.windows(2) {
        let a = pair[0].location;
        let b = pair[1].location;
        assert!(a.line < b.line || (a.line == b.line && a.column < b.column));
    }
}

#[test]
fn error_keeps_last_token() {
    let err = lex("select deadbeef").unwrap_err();
    assert_eq!(err.location, Location { line: 0, column: 7 });
    let last = err.last.unwrap();
    assert_eq!(last.value, TokenValue::Keyword(Keyword::Select));
    assert_eq!(last.location, Location { line: 0, column: 0 });
}
