//! Rendering of lexing errors as human-readable text.
//!
//! The message names the failure position and, when a token had already
//! been accepted, a debug-style rendering of that token's value:
//! `Unable to lex token after Keyword(Select), at 0:7`.

use vstd::prelude::*;
use crate::token::{Keyword, Symbol, TokenValue, ValueModel, ParseError, ErrorModel};

verus! {

/// The character a decimal digit is written as.
pub open spec fn digit_char(d: nat) -> char {
    if d == 0 {
        '0'
    } else if d == 1 {
        '1'
    } else if d == 2 {
        '2'
    } else if d == 3 {
        '3'
    } else if d == 4 {
        '4'
    } else if d == 5 {
        '5'
    } else if d == 6 {
        '6'
    } else if d == 7 {
        '7'
    } else if d == 8 {
        '8'
    } else {
        '9'
    }
}

/// Decimal spelling of `n`, most significant digit first, no leading zero
/// except for zero itself.
pub open spec fn dec_digits(n: nat) -> Seq<char>
    decreases n,
{
    if n < 10 {
        seq![digit_char(n)]
    } else {
        dec_digits(n / 10) + seq![digit_char(n % 10)]
    }
}

/// Decimal spelling of a possibly negative value.
pub open spec fn int_text(n: int) -> Seq<char> {
    if n < 0 {
        seq!['-'] + dec_digits((-n) as nat)
    } else {
        dec_digits(n as nat)
    }
}

/// The name a keyword is rendered under.
pub open spec fn keyword_name(k: Keyword) -> Seq<char> {
    match k {
        Keyword::Select => "Select"@,
        Keyword::From => "From"@,
        Keyword::As => "As"@,
        Keyword::Table => "Table"@,
        Keyword::Create => "Create"@,
        Keyword::Insert => "Insert"@,
        Keyword::Into => "Into"@,
        Keyword::Values => "Values"@,
        Keyword::Int => "Int"@,
        Keyword::Text => "Text"@,
    }
}

/// The name a symbol is rendered under.
pub open spec fn symbol_name(s: Symbol) -> Seq<char> {
    match s {
        Symbol::Semicolon => "Semicolon"@,
        Symbol::Asterisk => "Asterisk"@,
        Symbol::Comma => "Comma"@,
        Symbol::LeftParen => "LeftParen"@,
        Symbol::RightParen => "RightParen"@,
    }
}

/// Debug-style rendering of a token value; the text of an identifier or a
/// string literal appears verbatim between quotes.
pub open spec fn value_text(v: ValueModel) -> Seq<char> {
    match v {
        ValueModel::Keyword(k) => "Keyword("@ + keyword_name(k) + ")"@,
        ValueModel::Symbol(s) => "Symbol("@ + symbol_name(s) + ")"@,
        ValueModel::Identifier(t) => "Identifier(\""@ + t + "\")"@,
        ValueModel::StringLit(t) => "String(\""@ + t + "\")"@,
        ValueModel::Number(n) => "Number("@ + int_text(n) + ")"@,
    }
}

/// The whole message: the hint clause appears only when a token had been
/// accepted before the failure.
pub open spec fn error_message(e: ErrorModel) -> Seq<char> {
    "Unable to lex token"@ + (match e.last {
        Option::None => Seq::<char>::empty(),
        Option::Some(t) => " after "@ + value_text(t.value),
    }) + ", at "@ + dec_digits(e.location.line) + ":"@ + dec_digits(e.location.column)
}

/// The one-character text of a decimal digit.
fn digit_text(d: u64) -> (r: &'static str)
    requires
        d < 10,
    ensures
        r@ == seq![digit_char(d as nat)],
{
    proof {
        reveal_strlit("0");
        reveal_strlit("1");
        reveal_strlit("2");
        reveal_strlit("3");
        reveal_strlit("4");
        reveal_strlit("5");
        reveal_strlit("6");
        reveal_strlit("7");
        reveal_strlit("8");
        reveal_strlit("9");
    }
    match d {
        0 => "0",
        1 => "1",
        2 => "2",
        3 => "3",
        4 => "4",
        5 => "5",
        6 => "6",
        7 => "7",
        8 => "8",
        _ => "9",
    }
}

/// Appends the decimal spelling of `n` to `out`.
fn push_decimal(out: &mut String, n: u64)
    ensures
        final(out)@ == old(out)@ + dec_digits(n as nat),
    decreases n,
{
    if n >= 10 {
        push_decimal(out, n / 10);
    }
    let d = digit_text(n % 10);
    out.append(d);
    proof {
        if n >= 10 {
            assert(old(out)@ + dec_digits((n / 10) as nat) + seq![digit_char((n % 10) as nat)]
                =~= old(out)@ + dec_digits(n as nat));
        } else {
            assert(old(out)@ + seq![digit_char(n as nat)] =~= old(out)@ + dec_digits(n as nat));
        }
    }
}

/// The rendered name of a keyword.
fn keyword_text(k: Keyword) -> (r: &'static str)
    ensures
        r@ == keyword_name(k),
{
    match k {
        Keyword::Select => "Select",
        Keyword::From => "From",
        Keyword::As => "As",
        Keyword::Table => "Table",
        Keyword::Create => "Create",
        Keyword::Insert => "Insert",
        Keyword::Into => "Into",
        Keyword::Values => "Values",
        Keyword::Int => "Int",
        Keyword::Text => "Text",
    }
}

/// The rendered name of a symbol.
fn symbol_text(s: Symbol) -> (r: &'static str)
    ensures
        r@ == symbol_name(s),
{
    match s {
        Symbol::Semicolon => "Semicolon",
        Symbol::Asterisk => "Asterisk",
        Symbol::Comma => "Comma",
        Symbol::LeftParen => "LeftParen",
        Symbol::RightParen => "RightParen",
    }
}

/// Debug-style rendering of a token value, equal to the spec-level
/// `value_text`.
pub fn render_value(v: &TokenValue) -> (r: String)
    ensures
        r@ == value_text(v@),
{
    match v {
        TokenValue::Keyword(k) => {
            let mut out = String::from_str("Keyword(");
            out.append(keyword_text(*k));
            out.append(")");
            proof {
                assert(out@ =~= value_text(v@));
            }
            out
        },
        TokenValue::Symbol(s) => {
            let mut out = String::from_str("Symbol(");
            out.append(symbol_text(*s));
            out.append(")");
            proof {
                assert(out@ =~= value_text(v@));
            }
            out
        },
        TokenValue::Identifier(t) => {
            let mut out = String::from_str("Identifier(\"");
            out.append(t.as_str());
            out.append("\")");
            proof {
                assert(out@ =~= value_text(v@));
            }
            out
        },
        TokenValue::StringLit(t) => {
            let mut out = String::from_str("String(\"");
            out.append(t.as_str());
            out.append("\")");
            proof {
                assert(out@ =~= value_text(v@));
            }
            out
        },
        TokenValue::Number(n) => {
            let mut out = String::from_str("Number(");
            if *n < 0 {
                proof {
                    reveal_strlit("-");
                }
                out.append("-");
                let mag: u64 = if *n == i64::MIN {
                    0x8000_0000_0000_0000
                } else {
                    (-*n) as u64
                };
                push_decimal(&mut out, mag);
            } else {
                push_decimal(&mut out, *n as u64);
            }
            out.append(")");
            proof {
                assert(out@ =~= value_text(v@));
            }
            out
        },
    }
}

impl ParseError {
    /// Renders the error as the diagnostic line
    /// `Unable to lex token{ after <value>}, at <line>:<column>`, where the
    /// hint clause appears only when a token had been accepted before the
    /// failure.
    pub fn message(&self) -> (r: String)
        ensures
            r@ == error_message(self@),
    {
        let mut out = String::from_str("Unable to lex token");
        match &self.last {
            Option::None => {},
            Option::Some(t) => {
                out.append(" after ");
                let rendered = render_value(&t.value);
                out.append(rendered.as_str());
            },
        }
        out.append(", at ");
        push_decimal(&mut out, self.location.line as u64);
        out.append(":");
        push_decimal(&mut out, self.location.column as u64);
        proof {
            assert(out@ =~= error_message(self@));
        }
        out
    }
}

} // verus!
