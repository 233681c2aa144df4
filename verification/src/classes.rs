//! Character classes used by the scanner, ASCII case folding, and the
//! keyword table.

use vstd::prelude::*;
use crate::token::Keyword;
use crate::token::Symbol;

verus! {

/// Whitespace: space, tab or newline.
pub open spec fn is_space(c: char) -> bool {
    c == ' ' || c == '\t' || c == '\n'
}

/// Decimal digit.
pub open spec fn is_digit(c: char) -> bool {
    48 <= c as u32 <= 57
}

/// ASCII letter.
pub open spec fn is_letter(c: char) -> bool {
    (65 <= c as u32 <= 90) || (97 <= c as u32 <= 122)
}

/// First character of an identifier-shaped lexeme: a letter or underscore.
pub open spec fn is_word_start(c: char) -> bool {
    is_letter(c) || c == '_'
}

/// Continuation character of an identifier-shaped lexeme.
pub open spec fn is_word_char(c: char) -> bool {
    is_word_start(c) || is_digit(c)
}

/// The quote character that delimits string literals.
pub open spec fn quote() -> char {
    '\''
}

/// Numeric value of a decimal digit character.
pub open spec fn digit_val(c: char) -> nat
    recommends
        is_digit(c),
{
    (c as u32 - 48) as nat
}

/// ASCII lower-casing of a single character; everything but an upper-case
/// letter is left unchanged.
pub open spec fn lower(c: char) -> char {
    match c {
        'A' => 'a',
        'B' => 'b',
        'C' => 'c',
        'D' => 'd',
        'E' => 'e',
        'F' => 'f',
        'G' => 'g',
        'H' => 'h',
        'I' => 'i',
        'J' => 'j',
        'K' => 'k',
        'L' => 'l',
        'M' => 'm',
        'N' => 'n',
        'O' => 'o',
        'P' => 'p',
        'Q' => 'q',
        'R' => 'r',
        'S' => 's',
        'T' => 't',
        'U' => 'u',
        'V' => 'v',
        'W' => 'w',
        'X' => 'x',
        'Y' => 'y',
        'Z' => 'z',
        _ => c,
    }
}

/// Case-folded image of a character sequence.
pub open spec fn lower_seq(s: Seq<char>) -> Seq<char> {
    s.map_values(|c: char| lower(c))
}

/// The lower-case spelling of each keyword.
pub open spec fn keyword_chars(k: Keyword) -> Seq<char> {
    match k {
        Keyword::Select => "select"@,
        Keyword::From => "from"@,
        Keyword::As => "as"@,
        Keyword::Table => "table"@,
        Keyword::Create => "create"@,
        Keyword::Insert => "insert"@,
        Keyword::Into => "into"@,
        Keyword::Values => "values"@,
        Keyword::Int => "int"@,
        Keyword::Text => "text"@,
    }
}

/// The keyword, if any, whose lower-case spelling is `w`.
pub open spec fn keyword_of(w: Seq<char>) -> Option<Keyword> {
    if w == keyword_chars(Keyword::Select) {
        Option::Some(Keyword::Select)
    } else if w == keyword_chars(Keyword::From) {
        Option::Some(Keyword::From)
    } else if w == keyword_chars(Keyword::As) {
        Option::Some(Keyword::As)
    } else if w == keyword_chars(Keyword::Table) {
        Option::Some(Keyword::Table)
    } else if w == keyword_chars(Keyword::Create) {
        Option::Some(Keyword::Create)
    } else if w == keyword_chars(Keyword::Insert) {
        Option::Some(Keyword::Insert)
    } else if w == keyword_chars(Keyword::Into) {
        Option::Some(Keyword::Into)
    } else if w == keyword_chars(Keyword::Values) {
        Option::Some(Keyword::Values)
    } else if w == keyword_chars(Keyword::Int) {
        Option::Some(Keyword::Int)
    } else if w == keyword_chars(Keyword::Text) {
        Option::Some(Keyword::Text)
    } else {
        Option::None
    }
}

/// The symbol, if any, written as the single character `c`.
pub open spec fn symbol_of(c: char) -> Option<Symbol> {
    if c == ';' {
        Option::Some(Symbol::Semicolon)
    } else if c == '*' {
        Option::Some(Symbol::Asterisk)
    } else if c == ',' {
        Option::Some(Symbol::Comma)
    } else if c == '(' {
        Option::Some(Symbol::LeftParen)
    } else if c == ')' {
        Option::Some(Symbol::RightParen)
    } else {
        Option::None
    }
}

/// Executable whitespace test.
pub fn space_check(c: char) -> (r: bool)
    ensures
        r == is_space(c),
{
    c == ' ' || c == '\t' || c == '\n'
}

/// Executable digit test.
pub fn digit_check(c: char) -> (r: bool)
    ensures
        r == is_digit(c),
{
    let u: u32 = c as u32;
    48 <= u && u <= 57
}

/// Executable identifier-start test.
pub fn word_start_check(c: char) -> (r: bool)
    ensures
        r == is_word_start(c),
{
    let u: u32 = c as u32;
    (65 <= u && u <= 90) || (97 <= u && u <= 122) || c == '_'
}

/// Executable identifier-continuation test.
pub fn word_char_check(c: char) -> (r: bool)
    ensures
        r == is_word_char(c),
{
    word_start_check(c) || digit_check(c)
}

/// Executable ASCII case folding, equal to the spec-level `lower`.
pub fn lower_char(c: char) -> (r: char)
    ensures
        r == lower(c),
{
    match c {
        'A' => 'a',
        'B' => 'b',
        'C' => 'c',
        'D' => 'd',
        'E' => 'e',
        'F' => 'f',
        'G' => 'g',
        'H' => 'h',
        'I' => 'i',
        'J' => 'j',
        'K' => 'k',
        'L' => 'l',
        'M' => 'm',
        'N' => 'n',
        'O' => 'o',
        'P' => 'p',
        'Q' => 'q',
        'R' => 'r',
        'S' => 's',
        'T' => 't',
        'U' => 'u',
        'V' => 'v',
        'W' => 'w',
        'X' => 'x',
        'Y' => 'y',
        'Z' => 'z',
        _ => c,
    }
}

/// Executable symbol recognition, equal to the spec-level `symbol_of`.
pub fn symbol_check(c: char) -> (r: Option<Symbol>)
    ensures
        r == symbol_of(c),
{
    if c == ';' {
        Option::Some(Symbol::Semicolon)
    } else if c == '*' {
        Option::Some(Symbol::Asterisk)
    } else if c == ',' {
        Option::Some(Symbol::Comma)
    } else if c == '(' {
        Option::Some(Symbol::LeftParen)
    } else if c == ')' {
        Option::Some(Symbol::RightParen)
    } else {
        Option::None
    }
}

} // verus!
