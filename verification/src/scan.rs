//! The scanner: a mathematical description of one lexing step and of the
//! whole scan, followed by the executable lexer proved against it.
//!
//! At each offset the scanner tries a fixed, ordered list of matchers —
//! whitespace, symbol, quoted string, number, keyword — and accepts the
//! first that matches; every match consumes at least one character. When
//! no matcher accepts, or a matcher's own scan fails (an unterminated
//! string, a numeric literal outside the signed 64-bit range), the whole
//! scan stops at that position.

use vstd::prelude::*;
use crate::classes::{
    is_space, is_digit, is_word_start, is_word_char, quote, digit_val, keyword_chars, lower,
    lower_seq, keyword_of,
    symbol_of, space_check, digit_check, word_start_check, word_char_check, lower_char,
    symbol_check,
};
use crate::token::{Location, LocModel, Keyword, TokenValue, ValueModel, Token, TokenModel,
    ParseError};

verus! {

/// Length of the longest whitespace prefix of `s`.
pub open spec fn space_run(s: Seq<char>) -> nat
    decreases s.len(),
{
    if s.len() == 0 || !is_space(s[0]) {
        0
    } else {
        1 + space_run(s.skip(1))
    }
}

/// Length of the longest decimal-digit prefix of `s`.
pub open spec fn digit_run(s: Seq<char>) -> nat
    decreases s.len(),
{
    if s.len() == 0 || !is_digit(s[0]) {
        0
    } else {
        1 + digit_run(s.skip(1))
    }
}

/// Length of the longest identifier-shaped prefix of `s`.
pub open spec fn word_run(s: Seq<char>) -> nat
    decreases s.len(),
{
    if s.len() == 0 || !is_word_char(s[0]) {
        0
    } else {
        1 + word_run(s.skip(1))
    }
}

/// Index of the first occurrence of `c` in `s`, if any.
pub open spec fn find_char(s: Seq<char>, c: char) -> Option<nat>
    decreases s.len(),
{
    if s.len() == 0 {
        Option::None
    } else if s[0] == c {
        Option::Some(0nat)
    } else {
        match find_char(s.skip(1), c) {
            Option::None => Option::None,
            Option::Some(i) => Option::Some(i + 1),
        }
    }
}

/// Value of a sequence of decimal digits, most significant first.
pub open spec fn digits_val(s: Seq<char>) -> nat
    decreases s.len(),
{
    if s.len() == 0 {
        0
    } else {
        digits_val(s.drop_last()) * 10 + digit_val(s.last())
    }
}

/// Position reached from `loc` after consuming one character: a newline
/// moves to the start of the next line, anything else advances the column.
pub open spec fn advance_one(loc: LocModel, c: char) -> LocModel {
    if c == '\n' {
        LocModel { line: loc.line + 1, column: 0 }
    } else {
        LocModel { line: loc.line, column: loc.column + 1 }
    }
}

/// Position reached from `loc` after consuming all of `s`.
pub open spec fn advance(loc: LocModel, s: Seq<char>) -> LocModel
    decreases s.len(),
{
    if s.len() == 0 {
        loc
    } else {
        advance_one(advance(loc, s.drop_last()), s.last())
    }
}

/// Largest magnitude a decimal literal may decode to: `i64::MAX` for an
/// unsigned or plus-signed literal, one more for a minus-signed one.
pub open spec fn mag_limit(neg: bool) -> nat {
    if neg {
        0x8000_0000_0000_0000
    } else {
        0x7fff_ffff_ffff_ffff
    }
}

/// What one scanning step does at the front of `s`.
pub ghost enum MatchStep {
    /// No matcher accepts here, or a matcher's own scan failed: the whole
    /// lex stops at this position.
    Refused,
    /// Whitespace: `width` characters are consumed, no token is produced.
    Skipped { width: nat },
    /// A token: `value` is produced and `width` characters are consumed.
    Matched { value: ValueModel, width: nat },
}

/// The numeric matcher on a suffix whose first character is a digit or a
/// sign followed by a digit: the maximal digit run is decoded; a value
/// outside the signed 64-bit range refuses (and so stops the whole scan).
pub open spec fn match_number(s: Seq<char>) -> MatchStep {
    let signed = s[0] == '-' || s[0] == '+';
    let neg = s[0] == '-';
    let body = if signed { s.skip(1) } else { s };
    let n = digit_run(body);
    let v = digits_val(body.take(n as int));
    if v <= mag_limit(neg) {
        MatchStep::Matched {
            value: ValueModel::Number(if neg { -(v as int) } else { v as int }),
            width: n + (if signed { 1nat } else { 0nat }),
        }
    } else {
        MatchStep::Refused
    }
}

/// Whether the numeric matcher claims the front of `s`.
pub open spec fn number_starts(s: Seq<char>) -> bool {
    is_digit(s[0]) || ((s[0] == '-' || s[0] == '+') && s.len() > 1 && is_digit(s[1]))
}

/// One scanning step at the front of a non-empty suffix `s`: the matchers
/// in priority order, first match wins.
pub open spec fn match_at(s: Seq<char>) -> MatchStep
    recommends
        s.len() > 0,
{
    if is_space(s[0]) {
        MatchStep::Skipped { width: space_run(s) }
    } else if symbol_of(s[0]) is Some {
        MatchStep::Matched { value: ValueModel::Symbol(symbol_of(s[0])->0), width: 1 }
    } else if s[0] == quote() {
        match find_char(s.skip(1), quote()) {
            Option::None => MatchStep::Refused,
            Option::Some(j) => MatchStep::Matched {
                value: ValueModel::StringLit(s.subrange(1, j + 1 as int)),
                width: j + 2,
            },
        }
    } else if number_starts(s) {
        match_number(s)
    } else if is_word_start(s[0]) {
        let n = word_run(s);
        match keyword_of(lower_seq(s.take(n as int))) {
            Option::Some(k) => MatchStep::Matched { value: ValueModel::Keyword(k), width: n },
            Option::None => MatchStep::Refused,
        }
    } else {
        MatchStep::Refused
    }
}

/// The outcome of scanning a suffix: either every character was consumed,
/// or scanning got stuck at `location`; either way `tokens` are the tokens
/// produced before the end or the failure.
pub ghost enum ScanOutcome {
    Done { tokens: Seq<TokenModel> },
    Stuck { tokens: Seq<TokenModel>, location: LocModel },
}

/// The whole scan of `s` starting at position `loc`: repeat `match_at`
/// until the input is exhausted or a step refuses.
pub open spec fn scan(s: Seq<char>, loc: LocModel) -> ScanOutcome
    decreases s.len(),
        via scan_decreases
{
    if s.len() == 0 {
        ScanOutcome::Done { tokens: seq![] }
    } else {
        match match_at(s) {
            MatchStep::Refused => ScanOutcome::Stuck { tokens: seq![], location: loc },
            MatchStep::Skipped { width } => scan(
                s.skip(width as int),
                advance(loc, s.take(width as int)),
            ),
            MatchStep::Matched { value, width } => {
                let tok = TokenModel { value, location: loc };
                match scan(s.skip(width as int), advance(loc, s.take(width as int))) {
                    ScanOutcome::Done { tokens } => ScanOutcome::Done {
                        tokens: seq![tok] + tokens,
                    },
                    ScanOutcome::Stuck { tokens, location } => ScanOutcome::Stuck {
                        tokens: seq![tok] + tokens,
                        location,
                    },
                }
            },
        }
    }
}

/// Every accepted match consumes at least one character and at most the
/// whole suffix.
pub proof fn lemma_match_at_width(s: Seq<char>)
    requires
        s.len() > 0,
    ensures
        match match_at(s) {
            MatchStep::Refused => true,
            MatchStep::Skipped { width } => 1 <= width <= s.len(),
            MatchStep::Matched { value, width } => 1 <= width <= s.len(),
        },
{
    lemma_space_run_props(s);
    lemma_word_run_props(s);
    if s.len() > 0 && s[0] == quote() {
        lemma_find_char_props(s.skip(1), quote());
    }
    if s.len() > 0 && number_starts(s) && !is_space(s[0]) && symbol_of(s[0]) is None && s[0]
        != quote() {
        let signed = s[0] == '-' || s[0] == '+';
        let body = if signed { s.skip(1) } else { s };
        lemma_digit_run_props(body);
        if signed {
            assert(body[0] == s[1]);
        }
    }
}

#[via_fn]
proof fn scan_decreases(s: Seq<char>, loc: LocModel) {
    if s.len() > 0 {
        lemma_match_at_width(s);
    }
}

/// The whitespace run is a prefix of `s`: every character before it is
/// whitespace, the character at its end (if any) is not, and it is empty
/// only when `s` does not start with whitespace.
pub proof fn lemma_space_run_props(s: Seq<char>)
    ensures
        space_run(s) <= s.len(),
        forall|i: int| 0 <= i < space_run(s) ==> is_space(#[trigger] s[i]),
        space_run(s) < s.len() ==> !is_space(s[space_run(s) as int]),
        s.len() > 0 && is_space(s[0]) ==> space_run(s) >= 1,
    decreases s.len(),
{
    if s.len() > 0 && is_space(s[0]) {
        lemma_space_run_props(s.skip(1));
        assert forall|i: int| 0 <= i < space_run(s) implies is_space(#[trigger] s[i]) by {
            if i >= 1 {
                assert(s.skip(1)[i - 1] == s[i]);
            }
        }
        if space_run(s) < s.len() {
            assert(s.skip(1)[space_run(s) - 1] == s[space_run(s) as int]);
        }
    }
}

/// As `lemma_space_run_props`, for the digit run.
pub proof fn lemma_digit_run_props(s: Seq<char>)
    ensures
        digit_run(s) <= s.len(),
        forall|i: int| 0 <= i < digit_run(s) ==> is_digit(#[trigger] s[i]),
        digit_run(s) < s.len() ==> !is_digit(s[digit_run(s) as int]),
        s.len() > 0 && is_digit(s[0]) ==> digit_run(s) >= 1,
    decreases s.len(),
{
    if s.len() > 0 && is_digit(s[0]) {
        lemma_digit_run_props(s.skip(1));
        assert forall|i: int| 0 <= i < digit_run(s) implies is_digit(#[trigger] s[i]) by {
            if i >= 1 {
                assert(s.skip(1)[i - 1] == s[i]);
            }
        }
        if digit_run(s) < s.len() {
            assert(s.skip(1)[digit_run(s) - 1] == s[digit_run(s) as int]);
        }
    }
}

/// As `lemma_space_run_props`, for the identifier-character run.
pub proof fn lemma_word_run_props(s: Seq<char>)
    ensures
        word_run(s) <= s.len(),
        forall|i: int| 0 <= i < word_run(s) ==> is_word_char(#[trigger] s[i]),
        word_run(s) < s.len() ==> !is_word_char(s[word_run(s) as int]),
        s.len() > 0 && is_word_char(s[0]) ==> word_run(s) >= 1,
    decreases s.len(),
{
    if s.len() > 0 && is_word_char(s[0]) {
        lemma_word_run_props(s.skip(1));
        assert forall|i: int| 0 <= i < word_run(s) implies is_word_char(#[trigger] s[i]) by {
            if i >= 1 {
                assert(s.skip(1)[i - 1] == s[i]);
            }
        }
        if word_run(s) < s.len() {
            assert(s.skip(1)[word_run(s) - 1] == s[word_run(s) as int]);
        }
    }
}

/// A longer digit prefix never decodes to a smaller value.
pub proof fn lemma_digits_val_mono(s: Seq<char>, j: int, k: int)
    requires
        0 <= j <= k <= s.len(),
    ensures
        digits_val(s.take(j)) <= digits_val(s.take(k)),
    decreases k - j,
{
    if j < k {
        lemma_digits_val_mono(s, j, k - 1);
        assert(s.take(k).drop_last() =~= s.take(k - 1));
        let prev = digits_val(s.take(k - 1));
        assert(prev <= prev * 10) by (nonlinear_arith);
    }
}

/// `find_char` returns the index of the first occurrence of `c`, and
/// returns nothing exactly when `c` does not occur.
pub proof fn lemma_find_char_props(s: Seq<char>, c: char)
    ensures
        match find_char(s, c) {
            Option::None => forall|i: int| 0 <= i < s.len() ==> #[trigger] s[i] != c,
            Option::Some(j) => j < s.len() && s[j as int] == c && forall|i: int|
                0 <= i < j ==> #[trigger] s[i] != c,
        },
    decreases s.len(),
{
    if s.len() > 0 && s[0] != c {
        lemma_find_char_props(s.skip(1), c);
        match find_char(s, c) {
            Option::None => {
                assert forall|i: int| 0 <= i < s.len() implies #[trigger] s[i] != c by {
                    if i >= 1 {
                        assert(s.skip(1)[i - 1] == s[i]);
                    }
                }
            },
            Option::Some(j) => {
                assert(s.skip(1)[j - 1] == s[j as int]);
                assert forall|i: int| 0 <= i < j implies #[trigger] s[i] != c by {
                    if i >= 1 {
                        assert(s.skip(1)[i - 1] == s[i]);
                    }
                }
            },
        }
    }
}

/// Lexicographic order on positions: `a` is at or before `b`.
pub open spec fn loc_le(a: LocModel, b: LocModel) -> bool {
    a.line < b.line || (a.line == b.line && a.column <= b.column)
}

/// Strict lexicographic order on positions.
pub open spec fn loc_lt(a: LocModel, b: LocModel) -> bool {
    a.line < b.line || (a.line == b.line && a.column < b.column)
}

/// Consuming characters never moves the position backwards.
pub proof fn lemma_advance_ge(loc: LocModel, s: Seq<char>)
    ensures
        loc_le(loc, advance(loc, s)),
    decreases s.len(),
{
    if s.len() > 0 {
        lemma_advance_ge(loc, s.drop_last());
    }
}

/// Consuming at least one character moves the position strictly forward.
pub proof fn lemma_advance_strict(loc: LocModel, s: Seq<char>)
    requires
        s.len() >= 1,
    ensures
        loc_lt(loc, advance(loc, s)),
    decreases s.len(),
{
    if s.len() > 1 {
        lemma_advance_strict(loc, s.drop_last());
    } else {
        assert(s.drop_last().len() == 0);
        assert(advance(loc, s.drop_last()) == loc);
    }
    assert(advance(loc, s) == advance_one(advance(loc, s.drop_last()), s.last()));
}

/// The tokens an outcome carries, whether the scan finished or got stuck.
pub open spec fn outcome_tokens(o: ScanOutcome) -> Seq<TokenModel> {
    match o {
        ScanOutcome::Done { tokens } => tokens,
        ScanOutcome::Stuck { tokens, .. } => tokens,
    }
}

/// Every token of a scan started at `loc` is positioned at or after `loc`,
/// and the positions of distinct tokens are strictly increasing in
/// (line, column) lexicographic order.
pub proof fn lemma_scan_positions(s: Seq<char>, loc: LocModel)
    ensures
        forall|p: int|
            0 <= p < outcome_tokens(scan(s, loc)).len() ==> loc_le(
                loc,
                #[trigger] outcome_tokens(scan(s, loc))[p].location,
            ),
        forall|p: int, q: int|
            0 <= p < q < outcome_tokens(scan(s, loc)).len() ==> loc_lt(
                #[trigger] outcome_tokens(scan(s, loc))[p].location,
                #[trigger] outcome_tokens(scan(s, loc))[q].location,
            ),
    decreases s.len(),
{
    if s.len() > 0 {
        lemma_match_at_width(s);
        match match_at(s) {
            MatchStep::Refused => {},
            MatchStep::Skipped { width } => {
                let next = advance(loc, s.take(width as int));
                lemma_scan_positions(s.skip(width as int), next);
                lemma_advance_ge(loc, s.take(width as int));
            },
            MatchStep::Matched { value, width } => {
                let next = advance(loc, s.take(width as int));
                lemma_scan_positions(s.skip(width as int), next);
                lemma_advance_strict(loc, s.take(width as int));
                assert(loc_lt(loc, next));
                let tok = TokenModel { value, location: loc };
                let rest = outcome_tokens(scan(s.skip(width as int), next));
                assert(forall|p: int|
                    0 <= p < rest.len() ==> loc_le(next, #[trigger] rest[p].location));
                assert(forall|p: int, q: int|
                    0 <= p < q < rest.len() ==> loc_lt(
                        #[trigger] rest[p].location,
                        #[trigger] rest[q].location,
                    ));
                let toks = outcome_tokens(scan(s, loc));
                assert(toks == seq![tok] + rest);
                assert forall|p: int| 0 <= p < toks.len() implies loc_le(
                    loc,
                    #[trigger] toks[p].location,
                ) by {
                    if p >= 1 {
                        assert(toks[p] == rest[p - 1]);
                        assert(loc_le(next, rest[p - 1].location));
                    }
                }
                assert forall|p: int, q: int| 0 <= p < q < toks.len() implies loc_lt(
                    #[trigger] toks[p].location,
                    #[trigger] toks[q].location,
                ) by {
                    assert(toks[q] == rest[q - 1]);
                    assert(loc_le(next, rest[q - 1].location));
                    if p >= 1 {
                        assert(toks[p] == rest[p - 1]);
                        assert(loc_lt(rest[p - 1].location, rest[q - 1].location));
                    }
                }
            },
        }
    }
}

/// Law: the positions of the tokens of a successful lex are strictly
/// increasing — in particular non-decreasing — in (line, column)
/// lexicographic order.
pub proof fn lemma_token_positions_monotone(s: Seq<char>)
    ensures
        scan(s, origin()) matches ScanOutcome::Done { tokens } ==> forall|p: int, q: int|
            0 <= p < q < tokens.len() ==> loc_lt(
                #[trigger] tokens[p].location,
                #[trigger] tokens[q].location,
            ),
{
    lemma_scan_positions(s, origin());
    match scan(s, origin()) {
        ScanOutcome::Done { tokens } => {
            assert(tokens == outcome_tokens(scan(s, origin())));
        },
        ScanOutcome::Stuck { .. } => {},
    }
}

/// Law: keyword recognition is case-insensitive. Any identifier-shaped
/// input whose case-folded spelling is a keyword's lexes to exactly that
/// one keyword token, at the start of the input.
pub proof fn lemma_keyword_case_insensitive(w: Seq<char>, k: Keyword)
    requires
        w.len() > 0,
        is_word_start(w[0]),
        forall|i: int| 0 <= i < w.len() ==> is_word_char(#[trigger] w[i]),
        lower_seq(w) == keyword_chars(k),
    ensures
        scan(w, origin()) == (ScanOutcome::Done {
            tokens: seq![TokenModel { value: ValueModel::Keyword(k), location: origin() }],
        }),
{
    assert(!is_space(w[0]));
    assert(symbol_of(w[0]) is None);
    assert(w[0] != quote());
    assert(!is_digit(w[0]));
    assert(!number_starts(w));
    lemma_word_run_props(w);
    if word_run(w) < w.len() {
        assert(is_word_char(w[word_run(w) as int]));
    }
    assert(word_run(w) == w.len());
    assert(w.take(w.len() as int) =~= w);
    assert(keyword_of(lower_seq(w)) == Option::Some(k)) by {
        lemma_keyword_chars_distinct(k);
    }
    assert(match_at(w) == (MatchStep::Matched {
        value: ValueModel::Keyword(k),
        width: w.len() as nat,
    }));
    assert(w.skip(w.len() as int).len() == 0);
    assert(scan(w.skip(w.len() as int), advance(origin(), w.take(w.len() as int)))
        == (ScanOutcome::Done { tokens: Seq::<TokenModel>::empty() }));
    let tok = TokenModel { value: ValueModel::Keyword(k), location: origin() };
    assert(seq![tok] + Seq::<TokenModel>::empty() =~= seq![tok]);
}

/// The spellings of distinct keywords differ, so `keyword_of` maps a
/// keyword's own spelling to that keyword.
proof fn lemma_keyword_chars_distinct(k: Keyword)
    ensures
        keyword_of(keyword_chars(k)) == Option::Some(k),
{
    reveal_strlit("select");
    reveal_strlit("from");
    reveal_strlit("as");
    reveal_strlit("table");
    reveal_strlit("create");
    reveal_strlit("insert");
    reveal_strlit("into");
    reveal_strlit("values");
    reveal_strlit("int");
    reveal_strlit("text");
    assert("select"@.len() == 6);
    assert("from"@.len() == 4);
    assert("as"@.len() == 2);
    assert("table"@.len() == 5);
    assert("create"@.len() == 6);
    assert("insert"@.len() == 6);
    assert("into"@.len() == 4);
    assert("values"@.len() == 6);
    assert("int"@.len() == 3);
    assert("text"@.len() == 4);
    assert("select"@[0] == 's');
    assert("create"@[0] == 'c');
    assert("insert"@[0] == 'i');
    assert("values"@[0] == 'v');
    assert("from"@[0] == 'f');
    assert("into"@[0] == 'i');
    assert("text"@[0] == 't');
    match k {
        Keyword::Select => {
            assert(keyword_of("select"@) == Option::Some(Keyword::Select));
        },
        Keyword::From => {
            assert(keyword_of("from"@) == Option::Some(Keyword::From));
        },
        Keyword::As => {
            assert(keyword_of("as"@) == Option::Some(Keyword::As));
        },
        Keyword::Table => {
            assert(keyword_of("table"@) == Option::Some(Keyword::Table));
        },
        Keyword::Create => {
            assert(keyword_of("create"@) == Option::Some(Keyword::Create));
        },
        Keyword::Insert => {
            assert(keyword_of("insert"@) == Option::Some(Keyword::Insert));
        },
        Keyword::Into => {
            assert(keyword_of("into"@) == Option::Some(Keyword::Into));
        },
        Keyword::Values => {
            assert(keyword_of("values"@) == Option::Some(Keyword::Values));
        },
        Keyword::Int => {
            assert(keyword_of("int"@) == Option::Some(Keyword::Int));
        },
        Keyword::Text => {
            assert(keyword_of("text"@) == Option::Some(Keyword::Text));
        },
    }
}

/// Law: an input that is one run of decimal digits whose value exceeds the
/// signed 64-bit range stops the scan at the literal's start, with no
/// token produced.
pub proof fn lemma_number_overflow_stuck(d: Seq<char>, loc: LocModel)
    requires
        d.len() > 0,
        forall|i: int| 0 <= i < d.len() ==> is_digit(#[trigger] d[i]),
        digits_val(d) > 0x7fff_ffff_ffff_ffff,
    ensures
        scan(d, loc) == (ScanOutcome::Stuck { tokens: Seq::<TokenModel>::empty(), location: loc }),
{
    assert(is_digit(d[0]));
    assert(!is_space(d[0]));
    assert(symbol_of(d[0]) is None);
    assert(d[0] != quote());
    assert(number_starts(d));
    lemma_digit_run_props(d);
    if digit_run(d) < d.len() {
        assert(is_digit(d[digit_run(d) as int]));
    }
    assert(digit_run(d) == d.len());
    assert(d.take(d.len() as int) =~= d);
    assert(match_number(d) is Refused);
}

/// Law: an opening quote with no closing quote after it stops the scan at
/// the quote's position — never a partial string token.
pub proof fn lemma_unterminated_string_stuck(s: Seq<char>, loc: LocModel)
    requires
        s.len() > 0,
        s[0] == '\'',
        forall|i: int| 1 <= i < s.len() ==> #[trigger] s[i] != '\'',
    ensures
        scan(s, loc) == (ScanOutcome::Stuck { tokens: Seq::<TokenModel>::empty(), location: loc }),
{
    assert(!is_space(s[0]));
    assert(symbol_of(s[0]) is None);
    lemma_find_char_props(s.skip(1), quote());
    match find_char(s.skip(1), quote()) {
        Option::None => {},
        Option::Some(j) => {
            assert(s.skip(1)[j as int] == s[j + 1 as int]);
        },
    }
    assert(find_char(s.skip(1), quote()) is None);
}

/// The models of a sequence of tokens.
pub open spec fn token_views(ts: Seq<Token>) -> Seq<TokenModel> {
    ts.map_values(|t: Token| t@)
}

/// The start of the input: line 0, column 0.
pub open spec fn origin() -> LocModel {
    LocModel { line: 0, column: 0 }
}

/// `o` with the already-produced tokens `ts` put back in front.
pub open spec fn prepend_tokens(ts: Seq<TokenModel>, o: ScanOutcome) -> ScanOutcome {
    match o {
        ScanOutcome::Done { tokens } => ScanOutcome::Done { tokens: ts + tokens },
        ScanOutcome::Stuck { tokens, location } => ScanOutcome::Stuck {
            tokens: ts + tokens,
            location,
        },
    }
}

/// What the executable scanner found at one offset.
enum StepOutcome {
    Refused,
    Skipped { width: usize },
    Matched { value: TokenValue, width: usize },
}

/// The characters of `source`, in order.
fn to_char_vec(source: &str) -> (v: Vec<char>)
    ensures
        v@ == source@,
{
    let n = source.unicode_len();
    let mut v: Vec<char> = Vec::new();
    let mut i: usize = 0;
    while i < n
        invariant
            i <= n,
            n == source@.len(),
            v@ == source@.take(i as int),
        decreases n - i,
    {
        v.push(source.get_char(i));
        i = i + 1;
        proof {
            assert(v@ =~= source@.take(i as int));
        }
    }
    proof {
        assert(source@.take(n as int) =~= source@);
    }
    v
}

/// The position reached from `loc` after the `w` characters of `chars`
/// that start at offset `i`.
fn advance_loc(loc: Location, chars: &Vec<char>, i: usize, w: usize) -> (r: Location)
    requires
        i + w <= chars@.len(),
        loc.line + w <= usize::MAX,
        loc.column + w <= usize::MAX,
    ensures
        r@ == advance(loc@, chars@.subrange(i as int, i + w)),
        r.line <= loc.line + w,
        r.column <= loc.column + w,
{
    let n = chars.len();
    let mut cur = loc;
    let mut j: usize = 0;
    while j < w
        invariant
            j <= w,
            i + w <= chars@.len(),
            n == chars@.len(),
            loc.line + w <= usize::MAX,
            loc.column + w <= usize::MAX,
            cur@ == advance(loc@, chars@.subrange(i as int, i + j)),
            cur.line <= loc.line + j,
            cur.column <= loc.column + j,
        decreases w - j,
    {
        proof {
            assert(chars@.subrange(i as int, i + j + 1).drop_last() =~= chars@.subrange(
                i as int,
                i + j,
            ));
            assert(chars@.subrange(i as int, i + j + 1).last() == chars@[i + j]);
        }
        if chars[i + j] == '\n' {
            cur = Location { line: cur.line + 1, column: 0 };
        } else {
            cur = Location { line: cur.line, column: cur.column + 1 };
        }
        j = j + 1;
    }
    cur
}

/// First offset at or after `i` whose character is not whitespace.
fn space_run_end(chars: &Vec<char>, i: usize) -> (j: usize)
    requires
        i <= chars@.len(),
    ensures
        i <= j <= chars@.len(),
        forall|k: int| i <= k < j ==> is_space(#[trigger] chars@[k]),
        j < chars@.len() ==> !is_space(chars@[j as int]),
{
    let n = chars.len();
    let mut j = i;
    while j < n
        invariant
            i <= j <= n,
            n == chars@.len(),
            forall|k: int| i <= k < j ==> is_space(#[trigger] chars@[k]),
        decreases n - j,
    {
        if !space_check(chars[j]) {
            return j;
        }
        j = j + 1;
    }
    j
}

/// First offset at or after `i` whose character is not a decimal digit.
fn digit_run_end(chars: &Vec<char>, i: usize) -> (j: usize)
    requires
        i <= chars@.len(),
    ensures
        i <= j <= chars@.len(),
        forall|k: int| i <= k < j ==> is_digit(#[trigger] chars@[k]),
        j < chars@.len() ==> !is_digit(chars@[j as int]),
{
    let n = chars.len();
    let mut j = i;
    while j < n
        invariant
            i <= j <= n,
            n == chars@.len(),
            forall|k: int| i <= k < j ==> is_digit(#[trigger] chars@[k]),
        decreases n - j,
    {
        if !digit_check(chars[j]) {
            return j;
        }
        j = j + 1;
    }
    j
}

/// Decodes the `m` digits of `chars` starting at `start`, most significant
/// first, unless their value exceeds `limit`.
fn decode_digits(chars: &Vec<char>, start: usize, m: usize, limit: u64) -> (r: Option<u64>)
    requires
        start + m <= chars@.len(),
        limit >= 9,
        forall|k: int| start <= k < start + m ==> is_digit(#[trigger] chars@[k]),
    ensures
        ({
            let ds = chars@.subrange(start as int, start + m);
            match r {
                Option::Some(v) => v as nat == digits_val(ds) && v <= limit,
                Option::None => digits_val(ds) > limit,
            }
        }),
{
    let ghost ds = chars@.subrange(start as int, start + m);
    let n = chars.len();
    let mut mag: u64 = 0;
    let mut k: usize = 0;
    proof {
        assert(ds.take(0) =~= Seq::<char>::empty());
    }
    while k < m
        invariant
            k <= m,
            start + m <= chars@.len(),
            n == chars@.len(),
            limit >= 9,
            forall|k: int| start <= k < start + m ==> is_digit(#[trigger] chars@[k]),
            ds == chars@.subrange(start as int, start + m),
            mag as nat == digits_val(ds.take(k as int)),
            mag <= limit,
        decreases m - k,
    {
        let c = chars[start + k];
        proof {
            assert(ds[k as int] == chars@[start + k]);
        }
        let d: u64 = (c as u32 - 48) as u64;
        proof {
            assert(ds.take(k + 1).drop_last() =~= ds.take(k as int));
            assert(ds.take(k + 1).last() == ds[k as int]);
            assert(digits_val(ds.take(k + 1)) == digits_val(ds.take(k as int)) * 10 + digit_val(
                ds[k as int],
            ));
        }
        let q = (limit - d) / 10;
        if mag > q {
            proof {
                let l = limit as nat;
                let dd = d as nat;
                let mg = mag as nat;
                assert(mg * 10 + dd > l) by (nonlinear_arith)
                    requires
                        mg > (l - dd) / 10,
                        dd <= 9,
                        dd <= l,
                ;
                lemma_digits_val_mono(ds, k + 1, m as int);
                assert(ds.take(m as int) =~= ds);
            }
            return Option::None;
        }
        proof {
            let l = limit as nat;
            let dd = d as nat;
            let mg = mag as nat;
            assert(mg * 10 + dd <= l) by (nonlinear_arith)
                requires
                    mg <= (l - dd) / 10,
                    dd <= 9,
                    dd <= l,
            ;
        }
        mag = mag * 10 + d;
        k = k + 1;
    }
    proof {
        assert(ds.take(m as int) =~= ds);
    }
    Option::Some(mag)
}

/// Whether the characters of `chars` in `[start, end)`, case-folded, spell
/// exactly `w`.
fn word_matches(chars: &Vec<char>, start: usize, end: usize, w: &str) -> (r: bool)
    requires
        start <= end <= chars@.len(),
    ensures
        r == (lower_seq(chars@.subrange(start as int, end as int)) == w@),
{
    let ghost sub = chars@.subrange(start as int, end as int);
    let wn = w.unicode_len();
    if end - start != wn {
        proof {
            assert(lower_seq(sub).len() == sub.len());
        }
        return false;
    }
    let mut i: usize = 0;
    while i < wn
        invariant
            i <= wn,
            start + wn == end,
            end <= chars@.len(),
            wn == w@.len(),
            sub == chars@.subrange(start as int, end as int),
            forall|j: int| 0 <= j < i ==> lower_seq(sub)[j] == w@[j],
        decreases wn - i,
    {
        let c = lower_char(chars[start + i]);
        proof {
            assert(sub[i as int] == chars@[start + i]);
            assert(lower_seq(sub)[i as int] == lower(sub[i as int]));
        }
        if c != w.get_char(i) {
            return false;
        }
        i = i + 1;
    }
    proof {
        assert(lower_seq(sub) =~= w@);
    }
    true
}

/// The keyword, if any, spelled case-insensitively by the characters of
/// `chars` in `[start, end)`; equal to the spec-level `keyword_of` on the
/// case-folded range.
fn keyword_lookup(chars: &Vec<char>, start: usize, end: usize) -> (r: Option<Keyword>)
    requires
        start <= end <= chars@.len(),
    ensures
        r == keyword_of(lower_seq(chars@.subrange(start as int, end as int))),
{
    if word_matches(chars, start, end, "select") {
        Option::Some(Keyword::Select)
    } else if word_matches(chars, start, end, "from") {
        Option::Some(Keyword::From)
    } else if word_matches(chars, start, end, "as") {
        Option::Some(Keyword::As)
    } else if word_matches(chars, start, end, "table") {
        Option::Some(Keyword::Table)
    } else if word_matches(chars, start, end, "create") {
        Option::Some(Keyword::Create)
    } else if word_matches(chars, start, end, "insert") {
        Option::Some(Keyword::Insert)
    } else if word_matches(chars, start, end, "into") {
        Option::Some(Keyword::Into)
    } else if word_matches(chars, start, end, "values") {
        Option::Some(Keyword::Values)
    } else if word_matches(chars, start, end, "int") {
        Option::Some(Keyword::Int)
    } else if word_matches(chars, start, end, "text") {
        Option::Some(Keyword::Text)
    } else {
        Option::None
    }
}

/// First offset at or after `i` whose character is not an identifier
/// character.
fn word_run_end(chars: &Vec<char>, i: usize) -> (j: usize)
    requires
        i <= chars@.len(),
    ensures
        i <= j <= chars@.len(),
        forall|k: int| i <= k < j ==> is_word_char(#[trigger] chars@[k]),
        j < chars@.len() ==> !is_word_char(chars@[j as int]),
{
    let n = chars.len();
    let mut j = i;
    while j < n
        invariant
            i <= j <= n,
            n == chars@.len(),
            forall|k: int| i <= k < j ==> is_word_char(#[trigger] chars@[k]),
        decreases n - j,
    {
        if !word_char_check(chars[j]) {
            return j;
        }
        j = j + 1;
    }
    j
}

/// Offset of the closing quote after the opening quote at `i`, or the
/// input's length when there is none.
fn quote_scan(chars: &Vec<char>, i: usize) -> (j: usize)
    requires
        i < chars@.len(),
    ensures
        i + 1 <= j <= chars@.len(),
        forall|k: int| i + 1 <= k < j ==> #[trigger] chars@[k] != '\'',
        j < chars@.len() ==> chars@[j as int] == '\'',
{
    let n = chars.len();
    let mut j = i + 1;
    while j < n
        invariant
            i + 1 <= j <= n,
            n == chars@.len(),
            forall|k: int| i + 1 <= k < j ==> #[trigger] chars@[k] != '\'',
        decreases n - j,
    {
        if chars[j] == '\'' {
            return j;
        }
        j = j + 1;
    }
    j
}

/// One executable scanning step at offset `i`, equal to the spec-level
/// `match_at` on the remaining suffix.
fn scan_step(source: &str, chars: &Vec<char>, i: usize) -> (r: StepOutcome)
    requires
        chars@ == source@,
        i < chars@.len(),
    ensures
        ({
            let s = chars@.skip(i as int);
            match r {
                StepOutcome::Refused => match_at(s) is Refused,
                StepOutcome::Skipped { width } => 0 < width && i + width <= chars@.len()
                    && match_at(s) == (MatchStep::Skipped { width: width as nat }),
                StepOutcome::Matched { value, width } => 0 < width && i + width <= chars@.len()
                    && match_at(s) == (MatchStep::Matched {
                    value: value@,
                    width: width as nat,
                }),
            }
        }),
{
    let ghost s = chars@.skip(i as int);
    let n = chars.len();
    let c = chars[i];
    proof {
        assert(s[0] == chars@[i as int]);
        assert forall|k: int| 0 <= k < s.len() implies #[trigger] s[k] == chars@[i + k] by {}
    }
    if space_check(c) {
        let j = space_run_end(chars, i);
        proof {
            lemma_space_run_props(s);
            assert forall|k: int| 0 <= k < j - i implies is_space(#[trigger] s[k]) by {
                assert(s[k] == chars@[i + k]);
            }
            if j - i < s.len() {
                assert(s[j - i] == chars@[j as int]);
            }
            // the two characterizations pin the same run length
            if space_run(s) < j - i {
                assert(is_space(s[space_run(s) as int]));
            }
            if space_run(s) > j - i {
                assert(is_space(s[j - i]));
            }
            assert(space_run(s) == j - i);
        }
        StepOutcome::Skipped { width: j - i }
    } else if let Option::Some(sym) = symbol_check(c) {
        StepOutcome::Matched { value: TokenValue::Symbol(sym), width: 1 }
    } else if c == '\'' {
        let j = quote_scan(chars, i);
        proof {
            lemma_find_char_props(s.skip(1), quote());
            assert forall|k: int| 0 <= k < s.len() - 1 implies #[trigger] s.skip(1)[k] == chars@[
                i + 1 + k
            ] by {
                assert(s.skip(1)[k] == s[k + 1]);
            }
        }
        if j == n {
            proof {
                match find_char(s.skip(1), quote()) {
                    Option::Some(p) => {
                        assert(s.skip(1)[p as int] == chars@[i + 1 + p]);
                    },
                    Option::None => {},
                }
            }
            StepOutcome::Refused
        } else {
            proof {
                assert(chars@[j as int] == s.skip(1)[j - i - 1]);
                match find_char(s.skip(1), quote()) {
                    Option::None => {
                        assert(s.skip(1)[j - i - 1] != '\'');
                    },
                    Option::Some(p) => {
                        if p < j - i - 1 {
                            assert(s.skip(1)[p as int] == chars@[i + 1 + p]);
                        }
                        if p > j - i - 1 {
                            assert(s.skip(1)[j - i - 1] != '\'');
                        }
                        assert(p == j - i - 1);
                    },
                }
                assert(s.subrange(1, j - i) =~= chars@.subrange(i + 1, j as int));
            }
            let text = source.substring_char(i + 1, j).to_owned();
            StepOutcome::Matched { value: TokenValue::StringLit(text), width: j + 1 - i }
        }
    } else if digit_check(c) || ((c == '-' || c == '+') && i + 1 < n && digit_check(
        chars[i + 1],
    )) {
        proof {
            if s.len() > 1 {
                assert(s[1] == chars@[i + 1]);
            }
        }
        let signed = c == '-' || c == '+';
        let neg = c == '-';
        let start = if signed { i + 1 } else { i };
        let ghost body = if signed { s.skip(1) } else { s };
        let j = digit_run_end(chars, start);
        proof {
            assert forall|k: int| 0 <= k < body.len() implies #[trigger] body[k] == chars@[
                start + k
            ] by {
                if signed {
                    assert(body[k] == s[k + 1]);
                }
            }
            lemma_digit_run_props(body);
            assert forall|k: int| 0 <= k < j - start implies is_digit(#[trigger] body[k]) by {
                assert(body[k] == chars@[start + k]);
            }
            if j - start < body.len() {
                assert(body[j - start] == chars@[j as int]);
            }
            if digit_run(body) < j - start {
                assert(is_digit(body[digit_run(body) as int]));
            }
            if digit_run(body) > j - start {
                assert(is_digit(body[j - start]));
            }
            assert(digit_run(body) == j - start);
            assert(body.take(j - start) =~= chars@.subrange(start as int, j as int));
        }
        let limit: u64 = if neg {
            0x8000_0000_0000_0000
        } else {
            0x7fff_ffff_ffff_ffff
        };
        match decode_digits(chars, start, j - start, limit) {
            Option::None => StepOutcome::Refused,
            Option::Some(mag) => {
                let v: i64 = if neg {
                    if mag == 0x8000_0000_0000_0000 {
                        i64::MIN
                    } else {
                        -(mag as i64)
                    }
                } else {
                    mag as i64
                };
                StepOutcome::Matched { value: TokenValue::Number(v), width: j - i }
            },
        }
    } else if word_start_check(c) {
        let j = word_run_end(chars, i);
        proof {
            lemma_word_run_props(s);
            assert forall|k: int| 0 <= k < j - i implies is_word_char(#[trigger] s[k]) by {
                assert(s[k] == chars@[i + k]);
            }
            if j - i < s.len() {
                assert(s[j - i] == chars@[j as int]);
            }
            if word_run(s) < j - i {
                assert(is_word_char(s[word_run(s) as int]));
            }
            if word_run(s) > j - i {
                assert(is_word_char(s[j - i]));
            }
            assert(word_run(s) == j - i);
            assert(s.take(j - i) =~= chars@.subrange(i as int, j as int));
        }
        match keyword_lookup(chars, i, j) {
            Option::Some(k) => StepOutcome::Matched {
                value: TokenValue::Keyword(k),
                width: j - i,
            },
            Option::None => StepOutcome::Refused,
        }
    } else {
        StepOutcome::Refused
    }
}

/// Lexes `source` into its token sequence, or reports the position of the
/// first character at which no lexical category matches, together with the
/// last token accepted before it.
///
/// The result is exactly what the spec-level `scan` describes, started at
/// line 0, column 0.
pub fn lex(source: &str) -> (r: Result<Vec<Token>, ParseError>)
    ensures
        match scan(source@, origin()) {
            ScanOutcome::Done { tokens } => r matches Ok(ts) && token_views(ts@) == tokens,
            ScanOutcome::Stuck { tokens, location } => r matches Err(e) && e@.location == location
                && e@.last == (if tokens.len() == 0 {
                Option::<TokenModel>::None
            } else {
                Option::Some(tokens.last())
            }),
        },
{
    let chars = to_char_vec(source);
    let n = chars.len();
    let mut tokens: Vec<Token> = Vec::new();
    let mut loc = Location { line: 0, column: 0 };
    let mut i: usize = 0;
    proof {
        assert(source@.skip(0) =~= source@);
        assert(token_views(tokens@) =~= Seq::<TokenModel>::empty());
        assert(prepend_tokens(token_views(tokens@), scan(source@, origin())) == scan(
            source@,
            origin(),
        ));
    }
    while i < n
        invariant
            chars@ == source@,
            n == chars@.len(),
            i <= n,
            loc.line <= i,
            loc.column <= i,
            prepend_tokens(token_views(tokens@), scan(source@.skip(i as int), loc@)) == scan(
                source@,
                origin(),
            ),
        decreases n - i,
    {
        let ghost s = source@.skip(i as int);
        let step = scan_step(source, &chars, i);
        match step {
            StepOutcome::Refused => {
                proof {
                    assert(scan(s, loc@) == (ScanOutcome::Stuck {
                        tokens: Seq::<TokenModel>::empty(),
                        location: loc@,
                    }));
                    assert(token_views(tokens@) + Seq::<TokenModel>::empty() =~= token_views(
                        tokens@,
                    ));
                }
                let last = tokens.pop();
                return Result::Err(ParseError { location: loc, last });
            },
            StepOutcome::Skipped { width } => {
                proof {
                    assert(s.skip(width as int) =~= source@.skip(i + width));
                    assert(s.take(width as int) =~= source@.subrange(i as int, i + width));
                }
                loc = advance_loc(loc, &chars, i, width);
                i = i + width;
            },
            StepOutcome::Matched { value, width } => {
                let tok = Token { value, location: loc };
                proof {
                    assert(s.skip(width as int) =~= source@.skip(i + width));
                    assert(s.take(width as int) =~= source@.subrange(i as int, i + width));
                    assert(token_views(tokens@.push(tok)) =~= token_views(tokens@) + seq![tok@]);
                    assert forall|o: ScanOutcome|
                        prepend_tokens(token_views(tokens@.push(tok)), o) == prepend_tokens(
                            token_views(tokens@),
                            prepend_tokens(seq![tok@], o),
                        ) by {
                        match o {
                            ScanOutcome::Done { tokens: ts } => {
                                assert((token_views(tokens@) + seq![tok@]) + ts =~= token_views(
                                    tokens@,
                                ) + (seq![tok@] + ts));
                            },
                            ScanOutcome::Stuck { tokens: ts, location } => {
                                assert((token_views(tokens@) + seq![tok@]) + ts =~= token_views(
                                    tokens@,
                                ) + (seq![tok@] + ts));
                            },
                        }
                    }
                }
                tokens.push(tok);
                loc = advance_loc(loc, &chars, i, width);
                i = i + width;
            },
        }
    }
    proof {
        assert(source@.skip(n as int) =~= Seq::<char>::empty());
        assert(scan(source@.skip(n as int), loc@) == (ScanOutcome::Done {
            tokens: Seq::<TokenModel>::empty(),
        }));
        assert(token_views(tokens@) + Seq::<TokenModel>::empty() =~= token_views(tokens@));
    }
    Result::Ok(tokens)
}

} // verus!
