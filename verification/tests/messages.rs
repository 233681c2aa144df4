use sql_lexer::{lex, Location, ParseError, Token, TokenValue};

#[test]
fn message_without_prior_token() {
    let err = lex("deadbeef").unwrap_err();
    assert_eq!(err.message(), "Unable to lex token, at 0:0");
}

#[test]
fn message_names_last_keyword() {
    let err = lex("select deadbeef").unwrap_err();
    assert_eq!(
        err.message(),
        "Unable to lex token after Keyword(Select), at 0:7"
    );
}

#[test]
fn message_names_last_number() {
    let err = lex("1 ?").unwrap_err();
    assert_eq!(err.last.as_ref().unwrap().value, TokenValue::Number(1));
    assert_eq!(err.message(), "Unable to lex token after Number(1), at 0:2");
}

#[test]
fn message_renders_negative_number() {
    let err = lex("-12 ?").unwrap_err();
    assert_eq!(
        err.message(),
        "Unable to lex token after Number(-12), at 0:4"
    );
}

#[test]
fn message_names_last_string() {
    let err = lex("'a' ?").unwrap_err();
    assert_eq!(
        err.message(),
        "Unable to lex token after String(\"a\"), at 0:4"
    );
}

#[test]
fn message_names_last_symbol() {
    let err = lex("; ?").unwrap_err();
    assert_eq!(
        err.message(),
        "Unable to lex token after Symbol(Semicolon), at 0:2"
    );
}

#[test]
fn message_renders_identifier_value() {
    let err = ParseError {
        location: Location { line: 2, column: 9 },
        last: Some(Token {
            value: TokenValue::Identifier("col_1".to_string()),
            location: Location { line: 2, column: 3 },
        }),
    };
    assert_eq!(
        err.message(),
        "Unable to lex token after Identifier(\"col_1\"), at 2:9"
    );
}

#[test]
fn message_uses_line_and_column() {
    let err = lex("select\nfrom ?").unwrap_err();
    assert_eq!(
        err.message(),
        "Unable to lex token after Keyword(From), at 1:5"
    );
}
