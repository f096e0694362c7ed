//! The streaming tokenizer: recognizes one json primitive token at a
//! byte offset, skipping surrounding whitespace, and reports when the
//! buffer ends inside a possibly valid token (`Incomplete`) or cannot
//! start any token (`Invalid`).
//!
//! String and numeric tokens carry their raw text: a string keeps its
//! surrounding quotes and written escapes, a number keeps its digits,
//! sign, decimal point and exponent as they stand in the input.

use vstd::prelude::*;

verus! {

/// A primitive json token.
#[derive(Debug, PartialEq, Eq, Clone)]
pub enum TokenType {
    LeftBrace,
    RightBrace,
    LeftBracket,
    RightBracket,
    Comma,
    Colon,
    /// Raw text of a string literal, quotes included.
    String(Vec<u8>),
    BoolTrue,
    BoolFalse,
    /// Raw text of a numeric literal.
    Number(Vec<u8>),
    Null,
}

/// The mathematical shape of a token: as [`TokenType`], with byte
/// sequences in place of vectors.
pub ghost enum SpecToken {
    LeftBrace,
    RightBrace,
    LeftBracket,
    RightBracket,
    Comma,
    Colon,
    String(Seq<u8>),
    BoolTrue,
    BoolFalse,
    Number(Seq<u8>),
    Null,
}

impl View for TokenType {
    type V = SpecToken;

    open spec fn view(&self) -> SpecToken {
        match self {
            TokenType::LeftBrace => SpecToken::LeftBrace,
            TokenType::RightBrace => SpecToken::RightBrace,
            TokenType::LeftBracket => SpecToken::LeftBracket,
            TokenType::RightBracket => SpecToken::RightBracket,
            TokenType::Comma => SpecToken::Comma,
            TokenType::Colon => SpecToken::Colon,
            TokenType::String(v) => SpecToken::String(v@),
            TokenType::BoolTrue => SpecToken::BoolTrue,
            TokenType::BoolFalse => SpecToken::BoolFalse,
            TokenType::Number(v) => SpecToken::Number(v@),
            TokenType::Null => SpecToken::Null,
        }
    }
}

/// What the lexer found at an offset.
#[derive(Debug, PartialEq, Eq, Clone)]
pub enum Lexed {
    /// A token, and the offset just past it and any whitespace around it.
    Token(TokenType, usize),
    /// Only whitespace remains.
    End,
    /// The buffer ends inside a possibly valid token.
    Incomplete,
    /// No token can start at this position.
    Invalid,
}

/// The mathematical shape of a lexer outcome.
pub ghost enum SpecLexed {
    Token(SpecToken, int),
    End,
    Incomplete,
    Invalid,
}

impl View for Lexed {
    type V = SpecLexed;

    open spec fn view(&self) -> SpecLexed {
        match self {
            Lexed::Token(t, n) => SpecLexed::Token(t@, *n as int),
            Lexed::End => SpecLexed::End,
            Lexed::Incomplete => SpecLexed::Incomplete,
            Lexed::Invalid => SpecLexed::Invalid,
        }
    }
}

/// The outcome of scanning the tail of one token: the offset just past
/// it, a need for more input, or a malformed token.
pub ghost enum SpecScan {
    Done(int),
    Incomplete,
    Invalid,
}

/// Json whitespace: space, tab, line feed, carriage return.
pub open spec fn is_ws(b: u8) -> bool {
    b == 32 || b == 9 || b == 10 || b == 13
}

/// An ASCII decimal digit.
pub open spec fn is_digit(b: u8) -> bool {
    48 <= b && b <= 57
}

/// An ASCII hexadecimal digit.
pub open spec fn is_hex(b: u8) -> bool {
    is_digit(b) || (65 <= b && b <= 70) || (97 <= b && b <= 102)
}

/// A character that may follow a backslash on its own: one of
/// `" \ / b f n r t`.
pub open spec fn is_simple_escape(b: u8) -> bool {
    b == 34 || b == 92 || b == 47 || b == 98 || b == 102 || b == 110 || b == 114 || b == 116
}

/// The first offset at or after `pos` that holds no whitespace.
pub open spec fn first_non_ws(s: Seq<u8>, pos: int) -> int
    decreases s.len() - pos,
    when 0 <= pos <= s.len()
{
    if pos >= s.len() {
        s.len() as int
    } else if is_ws(s[pos]) {
        first_non_ws(s, pos + 1)
    } else {
        pos
    }
}

/// The first offset at or after `i` that holds no decimal digit.
pub open spec fn digits_end(s: Seq<u8>, i: int) -> int
    decreases s.len() - i,
    when 0 <= i <= s.len()
{
    if i >= s.len() {
        s.len() as int
    } else if is_digit(s[i]) {
        digits_end(s, i + 1)
    } else {
        i
    }
}

/// Every byte of `s` in `[i, j)` is a hexadecimal digit.
pub open spec fn all_hex(s: Seq<u8>, i: int, j: int) -> bool {
    forall|k: int| i <= k < j ==> #[trigger] is_hex(s[k])
}

/// Scan the contents of a string literal from `i` (just past the
/// opening quote, or past a consumed escape) to its closing quote.
pub open spec fn scan_string(s: Seq<u8>, i: int) -> SpecScan
    decreases s.len() - i,
    when 0 <= i <= s.len()
{
    if i >= s.len() {
        SpecScan::Incomplete
    } else if s[i] == 34 {
        SpecScan::Done(i + 1)
    } else if s[i] == 92 {
        if i + 1 >= s.len() {
            SpecScan::Incomplete
        } else if is_simple_escape(s[i + 1]) {
            scan_string(s, i + 2)
        } else if s[i + 1] == 117 {
            if i + 6 <= s.len() {
                if all_hex(s, i + 2, i + 6) {
                    scan_string(s, i + 6)
                } else {
                    SpecScan::Invalid
                }
            } else {
                if all_hex(s, i + 2, s.len() as int) {
                    SpecScan::Incomplete
                } else {
                    SpecScan::Invalid
                }
            }
        } else {
            SpecScan::Invalid
        }
    } else if s[i] < 32 {
        SpecScan::Invalid
    } else {
        scan_string(s, i + 1)
    }
}

/// Scan an optional exponent at `r` and end the number.
pub open spec fn scan_exponent(s: Seq<u8>, r: int) -> SpecScan
    recommends
        0 <= r <= s.len(),
{
    if r >= s.len() || (s[r] != 101 && s[r] != 69) {
        SpecScan::Done(r)
    } else {
        // s[r] is `e` or `E`; an optional sign, then one or more digits
        let u = if r + 1 < s.len() && (s[r + 1] == 43 || s[r + 1] == 45) {
            r + 2
        } else {
            r + 1
        };
        if u >= s.len() {
            SpecScan::Incomplete
        } else if !is_digit(s[u]) {
            SpecScan::Invalid
        } else {
            SpecScan::Done(digits_end(s, u))
        }
    }
}

/// Scan an optional fraction and exponent at `q` and end the number.
pub open spec fn scan_fraction(s: Seq<u8>, q: int) -> SpecScan
    recommends
        0 <= q <= s.len(),
{
    if q >= s.len() || s[q] != 46 {
        scan_exponent(s, q)
    } else {
        // s[q] is `.`; one or more digits must follow
        if q + 1 >= s.len() {
            SpecScan::Incomplete
        } else if !is_digit(s[q + 1]) {
            SpecScan::Invalid
        } else {
            scan_exponent(s, digits_end(s, q + 1))
        }
    }
}

/// Scan a numeric literal whose first byte (a digit or `-`) stands at
/// `i`: an optional minus, then `0` or a nonzero digit run, then an
/// optional fraction and exponent.
pub open spec fn scan_number(s: Seq<u8>, i: int) -> SpecScan
    recommends
        0 <= i < s.len(),
{
    let p = if s[i] == 45 {
        i + 1
    } else {
        i
    };
    if p >= s.len() {
        SpecScan::Incomplete
    } else if !is_digit(s[p]) {
        SpecScan::Invalid
    } else if s[p] == 48 {
        scan_fraction(s, p + 1)
    } else {
        scan_fraction(s, digits_end(s, p))
    }
}

/// Scan a keyword expected at `i`, byte for byte.
pub open spec fn scan_keyword(s: Seq<u8>, i: int, kw: Seq<u8>) -> SpecScan
    recommends
        0 <= i <= s.len(),
{
    if i + kw.len() <= s.len() {
        if s.subrange(i, i + kw.len()) == kw {
            SpecScan::Done(i + kw.len())
        } else {
            SpecScan::Invalid
        }
    } else {
        if s.subrange(i, s.len() as int) == kw.subrange(0, s.len() - i) {
            SpecScan::Incomplete
        } else {
            SpecScan::Invalid
        }
    }
}

/// The bytes of `null`.
pub open spec fn kw_null() -> Seq<u8> {
    seq![110u8, 117u8, 108u8, 108u8]
}

/// The bytes of `true`.
pub open spec fn kw_true() -> Seq<u8> {
    seq![116u8, 114u8, 117u8, 101u8]
}

/// The bytes of `false`.
pub open spec fn kw_false() -> Seq<u8> {
    seq![102u8, 97u8, 108u8, 115u8, 101u8]
}

/// Wrap a scanned token whose text spans `[i, j)`: the reported end
/// also skips the whitespace behind the token.
pub open spec fn wrap_scan(s: Seq<u8>, scan: SpecScan, tok: SpecToken) -> SpecLexed
    recommends
        scan matches SpecScan::Done(j) ==> 0 <= j <= s.len(),
{
    match scan {
        SpecScan::Done(j) => SpecLexed::Token(tok, first_non_ws(s, j)),
        SpecScan::Incomplete => SpecLexed::Incomplete,
        SpecScan::Invalid => SpecLexed::Invalid,
    }
}

/// What the lexer finds at offset `pos` of `s`: leading whitespace is
/// skipped, then one token is recognized by its first byte, then
/// trailing whitespace is skipped.
pub open spec fn lex_at(s: Seq<u8>, pos: int) -> SpecLexed
    recommends
        0 <= pos <= s.len(),
{
    let i = first_non_ws(s, pos);
    if i >= s.len() {
        SpecLexed::End
    } else {
        let b = s[i];
        if b == 123 {
            SpecLexed::Token(SpecToken::LeftBrace, first_non_ws(s, i + 1))
        } else if b == 125 {
            SpecLexed::Token(SpecToken::RightBrace, first_non_ws(s, i + 1))
        } else if b == 91 {
            SpecLexed::Token(SpecToken::LeftBracket, first_non_ws(s, i + 1))
        } else if b == 93 {
            SpecLexed::Token(SpecToken::RightBracket, first_non_ws(s, i + 1))
        } else if b == 44 {
            SpecLexed::Token(SpecToken::Comma, first_non_ws(s, i + 1))
        } else if b == 58 {
            SpecLexed::Token(SpecToken::Colon, first_non_ws(s, i + 1))
        } else if b == 110 {
            wrap_scan(s, scan_keyword(s, i, kw_null()), SpecToken::Null)
        } else if b == 116 {
            wrap_scan(s, scan_keyword(s, i, kw_true()), SpecToken::BoolTrue)
        } else if b == 102 {
            wrap_scan(s, scan_keyword(s, i, kw_false()), SpecToken::BoolFalse)
        } else if b == 34 {
            match scan_string(s, i + 1) {
                SpecScan::Done(j) => SpecLexed::Token(
                    SpecToken::String(s.subrange(i, j)),
                    first_non_ws(s, j),
                ),
                SpecScan::Incomplete => SpecLexed::Incomplete,
                SpecScan::Invalid => SpecLexed::Invalid,
            }
        } else if b == 45 || is_digit(b) {
            match scan_number(s, i) {
                SpecScan::Done(j) => SpecLexed::Token(
                    SpecToken::Number(s.subrange(i, j)),
                    first_non_ws(s, j),
                ),
                SpecScan::Incomplete => SpecLexed::Incomplete,
                SpecScan::Invalid => SpecLexed::Invalid,
            }
        } else {
            SpecLexed::Invalid
        }
    }
}

/// Whitespace skipping stays inside the buffer and moves forward.
pub proof fn lemma_first_non_ws_bounds(s: Seq<u8>, pos: int)
    requires
        0 <= pos <= s.len(),
    ensures
        pos <= first_non_ws(s, pos) <= s.len(),
    decreases s.len() - pos,
{
    if pos < s.len() && is_ws(s[pos]) {
        lemma_first_non_ws_bounds(s, pos + 1);
    }
}

/// A digit run stays inside the buffer and moves forward.
pub proof fn lemma_digits_end_bounds(s: Seq<u8>, i: int)
    requires
        0 <= i <= s.len(),
    ensures
        i <= digits_end(s, i) <= s.len(),
    decreases s.len() - i,
{
    if i < s.len() && is_digit(s[i]) {
        lemma_digits_end_bounds(s, i + 1);
    }
}

/// A scanned string ends inside the buffer, past where it began.
pub proof fn lemma_scan_string_bounds(s: Seq<u8>, i: int)
    requires
        0 <= i <= s.len(),
    ensures
        scan_string(s, i) matches SpecScan::Done(j) ==> i < j <= s.len(),
    decreases s.len() - i,
{
    if i < s.len() && s[i] != 34 {
        if s[i] == 92 {
            if i + 1 < s.len() {
                if is_simple_escape(s[i + 1]) {
                    lemma_scan_string_bounds(s, i + 2);
                } else if s[i + 1] == 117 && i + 6 <= s.len() && all_hex(s, i + 2, i + 6) {
                    lemma_scan_string_bounds(s, i + 6);
                }
            }
        } else if s[i] >= 32 {
            lemma_scan_string_bounds(s, i + 1);
        }
    }
}

/// A scanned exponent ends inside the buffer, no earlier than where it
/// began.
pub proof fn lemma_scan_exponent_bounds(s: Seq<u8>, r: int)
    requires
        0 <= r <= s.len(),
    ensures
        scan_exponent(s, r) matches SpecScan::Done(j) ==> r <= j <= s.len(),
{
    if r < s.len() && (s[r] == 101 || s[r] == 69) {
        let u = if r + 1 < s.len() && (s[r + 1] == 43 || s[r + 1] == 45) {
            r + 2
        } else {
            r + 1
        };
        if u < s.len() && is_digit(s[u]) {
            lemma_digits_end_bounds(s, u);
        }
    }
}

/// A scanned fraction ends inside the buffer, no earlier than where it
/// began.
pub proof fn lemma_scan_fraction_bounds(s: Seq<u8>, q: int)
    requires
        0 <= q <= s.len(),
    ensures
        scan_fraction(s, q) matches SpecScan::Done(j) ==> q <= j <= s.len(),
{
    if q >= s.len() || s[q] != 46 {
        lemma_scan_exponent_bounds(s, q);
    } else if q + 1 < s.len() && is_digit(s[q + 1]) {
        lemma_digits_end_bounds(s, q + 1);
        lemma_scan_exponent_bounds(s, digits_end(s, q + 1));
    }
}

/// A scanned number ends inside the buffer, past where it began.
pub proof fn lemma_scan_number_bounds(s: Seq<u8>, i: int)
    requires
        0 <= i < s.len(),
    ensures
        scan_number(s, i) matches SpecScan::Done(j) ==> i < j <= s.len(),
{
    let p = if s[i] == 45 {
        i + 1
    } else {
        i
    };
    if p < s.len() && is_digit(s[p]) {
        if s[p] == 48 {
            lemma_scan_fraction_bounds(s, p + 1);
        } else {
            lemma_digits_end_bounds(s, p);
            lemma_digits_end_bounds(s, p + 1);
            lemma_scan_fraction_bounds(s, digits_end(s, p));
        }
    }
}

/// A recognized token ends inside the buffer, past where lexing began.
pub proof fn lemma_lex_at_advances(s: Seq<u8>, pos: int)
    requires
        0 <= pos <= s.len(),
    ensures
        lex_at(s, pos) matches SpecLexed::Token(t, n) ==> pos < n <= s.len(),
{
    lemma_first_non_ws_bounds(s, pos);
    let i = first_non_ws(s, pos);
    if i < s.len() {
        let b = s[i];
        lemma_first_non_ws_bounds(s, i + 1);
        if b == 110 || b == 116 || b == 102 {
            let kw = if b == 110 {
                kw_null()
            } else if b == 116 {
                kw_true()
            } else {
                kw_false()
            };
            if i + kw.len() <= s.len() {
                lemma_first_non_ws_bounds(s, i + kw.len());
            }
        } else if b == 34 {
            lemma_scan_string_bounds(s, i + 1);
            match scan_string(s, i + 1) {
                SpecScan::Done(j) => lemma_first_non_ws_bounds(s, j),
                _ => (),
            }
        } else if b == 45 || is_digit(b) {
            lemma_scan_number_bounds(s, i);
            match scan_number(s, i) {
                SpecScan::Done(j) => lemma_first_non_ws_bounds(s, j),
                _ => (),
            }
        }
    }
}

/// Whether `b` is json whitespace.
fn ws_byte(b: u8) -> (r: bool)
    ensures
        r == is_ws(b),
{
    b == 32 || b == 9 || b == 10 || b == 13
}

/// Whether `b` is an ASCII decimal digit.
fn digit_byte(b: u8) -> (r: bool)
    ensures
        r == is_digit(b),
{
    48 <= b && b <= 57
}

/// Whether `b` is an ASCII hexadecimal digit.
fn hex_byte(b: u8) -> (r: bool)
    ensures
        r == is_hex(b),
{
    (48 <= b && b <= 57) || (65 <= b && b <= 70) || (97 <= b && b <= 102)
}

/// The first offset at or after `pos` that holds no whitespace.
fn skip_ws(s: &[u8], pos: usize) -> (r: usize)
    requires
        pos <= s@.len(),
    ensures
        r == first_non_ws(s@, pos as int),
        pos <= r <= s@.len(),
{
    let mut i: usize = pos;
    while i < s.len() && ws_byte(s[i])
        invariant
            pos <= i <= s@.len(),
            first_non_ws(s@, pos as int) == first_non_ws(s@, i as int),
        decreases s@.len() - i,
    {
        i = i + 1;
    }
    i
}

/// The first offset at or after `i` that holds no decimal digit.
fn skip_digits(s: &[u8], i: usize) -> (r: usize)
    requires
        i <= s@.len(),
    ensures
        r == digits_end(s@, i as int),
        i <= r <= s@.len(),
{
    let mut j: usize = i;
    while j < s.len() && digit_byte(s[j])
        invariant
            i <= j <= s@.len(),
            digits_end(s@, i as int) == digits_end(s@, j as int),
        decreases s@.len() - j,
    {
        j = j + 1;
    }
    j
}

/// The outcome of scanning the tail of one token.
enum Scan {
    Done(usize),
    Incomplete,
    Invalid,
}

impl Scan {
    /// The mathematical shape of this outcome.
    spec fn view(&self) -> SpecScan {
        match self {
            Scan::Done(j) => SpecScan::Done(*j as int),
            Scan::Incomplete => SpecScan::Incomplete,
            Scan::Invalid => SpecScan::Invalid,
        }
    }
}

/// Scan the contents of a string literal from `i` to its closing quote.
fn scan_string_at(s: &[u8], i: usize) -> (r: Scan)
    requires
        i <= s@.len(),
    ensures
        r.view() == scan_string(s@, i as int),
{
    let mut j: usize = i;
    loop
        invariant
            i <= j <= s@.len(),
            scan_string(s@, i as int) == scan_string(s@, j as int),
        decreases s@.len() - j,
    {
        if j >= s.len() {
            return Scan::Incomplete;
        }
        let b = s[j];
        if b == 34 {
            return Scan::Done(j + 1);
        } else if b == 92 {
            if j + 1 >= s.len() {
                return Scan::Incomplete;
            }
            let e = s[j + 1];
            if e == 34 || e == 92 || e == 47 || e == 98 || e == 102 || e == 110 || e == 114 || e
                == 116 {
                j = j + 2;
            } else if e == 117 {
                // `\u` must be followed by four hexadecimal digits
                let mut k: usize = j + 2;
                let have_four = s.len() - j >= 6;
                let hex_stop: usize = if have_four {
                    j + 6
                } else {
                    s.len()
                };
                while k < hex_stop && hex_byte(s[k])
                    invariant
                        j + 2 <= k <= hex_stop,
                        hex_stop <= s@.len(),
                        hex_stop == if j + 6 <= s@.len() {
                            (j + 6) as int
                        } else {
                            s@.len() as int
                        },
                        all_hex(s@, j + 2, k as int),
                    decreases hex_stop - k,
                {
                    k = k + 1;
                }
                if k < hex_stop {
                    // a byte before the stop is no hexadecimal digit
                    return Scan::Invalid;
                }
                if !have_four {
                    return Scan::Incomplete;
                }
                j = j + 6;
            } else {
                return Scan::Invalid;
            }
        } else if b < 32 {
            return Scan::Invalid;
        } else {
            j = j + 1;
        }
    }
}

/// Scan an optional exponent at `r` and end the number.
fn scan_exponent_at(s: &[u8], r: usize) -> (res: Scan)
    requires
        r <= s@.len(),
    ensures
        res.view() == scan_exponent(s@, r as int),
{
    if r >= s.len() || (s[r] != 101 && s[r] != 69) {
        return Scan::Done(r);
    }
    let u: usize = if r + 1 < s.len() && (s[r + 1] == 43 || s[r + 1] == 45) {
        r + 2
    } else {
        r + 1
    };
    if u >= s.len() {
        Scan::Incomplete
    } else if !digit_byte(s[u]) {
        Scan::Invalid
    } else {
        Scan::Done(skip_digits(s, u))
    }
}

/// Scan an optional fraction and exponent at `q` and end the number.
fn scan_fraction_at(s: &[u8], q: usize) -> (res: Scan)
    requires
        q <= s@.len(),
    ensures
        res.view() == scan_fraction(s@, q as int),
{
    if q >= s.len() || s[q] != 46 {
        return scan_exponent_at(s, q);
    }
    if q + 1 >= s.len() {
        Scan::Incomplete
    } else if !digit_byte(s[q + 1]) {
        Scan::Invalid
    } else {
        scan_exponent_at(s, skip_digits(s, q + 1))
    }
}

/// Scan a numeric literal whose first byte stands at `i`.
fn scan_number_at(s: &[u8], i: usize) -> (res: Scan)
    requires
        i < s@.len(),
    ensures
        res.view() == scan_number(s@, i as int),
{
    let p: usize = if s[i] == 45 {
        i + 1
    } else {
        i
    };
    if p >= s.len() {
        Scan::Incomplete
    } else if !digit_byte(s[p]) {
        Scan::Invalid
    } else if s[p] == 48 {
        scan_fraction_at(s, p + 1)
    } else {
        scan_fraction_at(s, skip_digits(s, p))
    }
}

/// Scan a keyword of known bytes expected at `i`.
fn scan_keyword_at(s: &[u8], i: usize, kw: &[u8]) -> (res: Scan)
    requires
        i <= s@.len(),
        kw@.len() > 0,
    ensures
        res.view() == scan_keyword(s@, i as int, kw@),
{
    let full = kw.len() <= s.len() - i;
    let stop: usize = if full {
        kw.len()
    } else {
        s.len() - i
    };
    let mut k: usize = 0;
    while k < stop && s[i + k] == kw[k]
        invariant
            0 <= k <= stop,
            stop <= kw@.len(),
            i + stop <= s@.len(),
            i + stop <= usize::MAX,
            full == (i + kw@.len() <= s@.len()),
            stop == if full {
                kw@.len() as int
            } else {
                s@.len() - i
            },
            forall|m: int| 0 <= m < k ==> s@[i + m] == #[trigger] kw@[m],
        decreases stop - k,
    {
        k = k + 1;
    }
    if k < stop {
        // mismatch before the stop
        proof {
            assert(s@[i + k] != kw@[k as int]);
            if full {
                assert(s@.subrange(i as int, i + kw@.len())[k as int] != kw@[k as int]);
            } else {
                assert(s@.subrange(i as int, s@.len() as int)[k as int] != kw@.subrange(
                    0,
                    s@.len() - i,
                )[k as int]);
            }
        }
        return Scan::Invalid;
    }
    if full {
        proof {
            assert(s@.subrange(i as int, i + kw@.len()) =~= kw@);
        }
        Scan::Done(i + kw.len())
    } else {
        proof {
            assert(s@.subrange(i as int, s@.len() as int) =~= kw@.subrange(0, s@.len() - i));
        }
        Scan::Incomplete
    }
}

/// Recognize the token at offset `pos` of `s`, skipping whitespace on
/// both sides of it.
pub fn token_at(s: &[u8], pos: usize) -> (r: Lexed)
    requires
        pos <= s@.len(),
    ensures
        r@ == lex_at(s@, pos as int),
        r@ matches SpecLexed::Token(t, n) ==> pos < n <= s@.len(),
{
    proof {
        lemma_lex_at_advances(s@, pos as int);
    }
    let i = skip_ws(s, pos);
    if i >= s.len() {
        return Lexed::End;
    }
    let b = s[i];
    if b == 123 {
        Lexed::Token(TokenType::LeftBrace, skip_ws(s, i + 1))
    } else if b == 125 {
        Lexed::Token(TokenType::RightBrace, skip_ws(s, i + 1))
    } else if b == 91 {
        Lexed::Token(TokenType::LeftBracket, skip_ws(s, i + 1))
    } else if b == 93 {
        Lexed::Token(TokenType::RightBracket, skip_ws(s, i + 1))
    } else if b == 44 {
        Lexed::Token(TokenType::Comma, skip_ws(s, i + 1))
    } else if b == 58 {
        Lexed::Token(TokenType::Colon, skip_ws(s, i + 1))
    } else if b == 110 {
        let kw: [u8; 4] = [110, 117, 108, 108];
        proof {
            assert(kw@ =~= kw_null());
        }
        match scan_keyword_at(s, i, kw.as_slice()) {
            Scan::Done(j) => Lexed::Token(TokenType::Null, skip_ws(s, j)),
            Scan::Incomplete => Lexed::Incomplete,
            Scan::Invalid => Lexed::Invalid,
        }
    } else if b == 116 {
        let kw: [u8; 4] = [116, 114, 117, 101];
        proof {
            assert(kw@ =~= kw_true());
        }
        match scan_keyword_at(s, i, kw.as_slice()) {
            Scan::Done(j) => Lexed::Token(TokenType::BoolTrue, skip_ws(s, j)),
            Scan::Incomplete => Lexed::Incomplete,
            Scan::Invalid => Lexed::Invalid,
        }
    } else if b == 102 {
        let kw: [u8; 5] = [102, 97, 108, 115, 101];
        proof {
            assert(kw@ =~= kw_false());
        }
        match scan_keyword_at(s, i, kw.as_slice()) {
            Scan::Done(j) => Lexed::Token(TokenType::BoolFalse, skip_ws(s, j)),
            Scan::Incomplete => Lexed::Incomplete,
            Scan::Invalid => Lexed::Invalid,
        }
    } else if b == 34 {
        proof {
            lemma_scan_string_bounds(s@, i + 1);
        }
        match scan_string_at(s, i + 1) {
            Scan::Done(j) => {
                let text = vstd::slice::slice_to_vec(vstd::slice::slice_subrange(s, i, j));
                Lexed::Token(TokenType::String(text), skip_ws(s, j))
            },
            Scan::Incomplete => Lexed::Incomplete,
            Scan::Invalid => Lexed::Invalid,
        }
    } else if b == 45 || digit_byte(b) {
        proof {
            lemma_scan_number_bounds(s@, i as int);
        }
        match scan_number_at(s, i) {
            Scan::Done(j) => {
                let text = vstd::slice::slice_to_vec(vstd::slice::slice_subrange(s, i, j));
                Lexed::Token(TokenType::Number(text), skip_ws(s, j))
            },
            Scan::Incomplete => Lexed::Incomplete,
            Scan::Invalid => Lexed::Invalid,
        }
    } else {
        Lexed::Invalid
    }
}

/// Recognize the first token of `s`: [`token_at`] from its start.
pub fn parse(s: &[u8]) -> (r: Lexed)
    ensures
        r@ == lex_at(s@, 0),
        r@ matches SpecLexed::Token(t, n) ==> 0 < n <= s@.len(),
{
    token_at(s, 0)
}

} // verus!
