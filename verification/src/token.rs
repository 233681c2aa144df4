//! The token model: lexical categories, position-tagged tokens, and the
//! error value produced when scanning gets stuck.
//!
//! Each executable type has a ghost model reached through `View`; the
//! scanner's contracts are stated over these models.

use vstd::prelude::*;

verus! {

/// A source position: 0-based line and 0-based column, both counted in
/// characters. The column resets to 0 after every newline.
#[derive(Debug, Copy, Clone, PartialEq, Eq, Structural)]
pub struct Location {
    pub line: usize,
    pub column: usize,
}

/// Mathematical model of a position: unbounded line and column counts.
pub ghost struct LocModel {
    pub line: nat,
    pub column: nat,
}

impl View for Location {
    type V = LocModel;

    open spec fn view(&self) -> LocModel {
        LocModel { line: self.line as nat, column: self.column as nat }
    }
}

/// The closed set of keywords. Matching against source text is
/// case-insensitive.
#[derive(Debug, Copy, Clone, PartialEq, Eq, Structural)]
pub enum Keyword {
    Select,
    From,
    As,
    Table,
    Create,
    Insert,
    Into,
    Values,
    Int,
    Text,
}

/// The closed set of single-character punctuation symbols.
#[derive(Debug, Copy, Clone, PartialEq, Eq, Structural)]
pub enum Symbol {
    Semicolon,
    Asterisk,
    Comma,
    LeftParen,
    RightParen,
}

/// A classified lexeme. `Identifier` and `StringLit` own a copy of the
/// matched text (for a string literal, the text between the quotes);
/// `Number` holds the decoded signed 64-bit value.
#[derive(Debug, Clone, PartialEq, Eq)]
pub enum TokenValue {
    Keyword(Keyword),
    Symbol(Symbol),
    Identifier(String),
    StringLit(String),
    Number(i64),
}

/// Model of a token value: text as a character sequence, the number as an
/// unbounded integer.
pub ghost enum ValueModel {
    Keyword(Keyword),
    Symbol(Symbol),
    Identifier(Seq<char>),
    StringLit(Seq<char>),
    Number(int),
}

impl View for TokenValue {
    type V = ValueModel;

    open spec fn view(&self) -> ValueModel {
        match self {
            TokenValue::Keyword(k) => ValueModel::Keyword(*k),
            TokenValue::Symbol(s) => ValueModel::Symbol(*s),
            TokenValue::Identifier(t) => ValueModel::Identifier(t@),
            TokenValue::StringLit(t) => ValueModel::StringLit(t@),
            TokenValue::Number(n) => ValueModel::Number(*n as int),
        }
    }
}

/// A classified lexeme together with the position of its first character.
#[derive(Debug, Clone, PartialEq, Eq)]
pub struct Token {
    pub value: TokenValue,
    pub location: Location,
}

/// Model of a token.
pub ghost struct TokenModel {
    pub value: ValueModel,
    pub location: LocModel,
}

impl View for Token {
    type V = TokenModel;

    open spec fn view(&self) -> TokenModel {
        TokenModel { value: self.value@, location: self.location@ }
    }
}

/// The error produced when no lexical category matches: the position where
/// scanning got stuck, and the most recently accepted token, if any, kept
/// for diagnostics.
#[derive(Debug, Clone, PartialEq, Eq)]
pub struct ParseError {
    pub location: Location,
    pub last: Option<Token>,
}

/// Model of a lexing error.
pub ghost struct ErrorModel {
    pub location: LocModel,
    pub last: Option<TokenModel>,
}

impl View for ParseError {
    type V = ErrorModel;

    open spec fn view(&self) -> ErrorModel {
        ErrorModel {
            location: self.location@,
            last: match self.last {
                Option::None => Option::None,
                Option::Some(t) => Option::Some(t@),
            },
        }
    }
}

} // verus!
