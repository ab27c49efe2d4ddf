//! The lexical scanner: character classes, whitespace skipping, and the
//! token grammar for strings, numbers and keywords.
//!
//! The scanner is described by spec functions over `Seq<char>` positions; the
//! executable scanner is proved to return exactly what they describe. Tokens
//! are produced up front, but the stream is cut off at the first lexical
//! error (a [`Tok::BadTok`] sentinel), so the parser observes exactly what an
//! on-demand scanner would have handed it: a lexical error hiding behind a
//! structural one is never reported, and text after the top-level value is
//! trailing content even when it does not lex.
//!
//! Policy notes, where RFC 8259 leaves latitude: a `\u` escape pair must form
//! a valid surrogate pair — a lone surrogate is rejected with
//! [`ErrorKind::InvalidUnicodeEscape`] — and unescaped control characters
//! inside string literals are passed through.

use vstd::prelude::*;
use crate::errors::ErrorKind;

verus! {

// ---------------------------------------------------------------------------
// character classes
// ---------------------------------------------------------------------------

/// JSON insignificant whitespace: space, tab, line feed, carriage return.
pub open spec fn is_ws(c: char) -> bool {
    c == ' ' || c == '\t' || c == '\n' || c == '\r'
}

/// An ASCII decimal digit.
pub open spec fn is_digit(c: char) -> bool {
    0x30 <= (c as u32) && (c as u32) <= 0x39
}

/// An ASCII letter, the alphabet of keyword identifiers.
pub open spec fn is_alpha(c: char) -> bool {
    (0x41 <= (c as u32) && (c as u32) <= 0x5a) || (0x61 <= (c as u32) && (c as u32) <= 0x7a)
}

/// A hexadecimal digit, either case.
pub open spec fn is_hex(c: char) -> bool {
    is_digit(c) || (0x41 <= (c as u32) && (c as u32) <= 0x46) || (0x61 <= (c as u32) && (c as u32)
        <= 0x66)
}

/// The numeric value of a hexadecimal digit.
pub open spec fn hex_val(c: char) -> int
    recommends
        is_hex(c),
{
    let u = c as u32;
    if u <= 0x39 {
        u - 0x30
    } else if u <= 0x46 {
        u - 0x41 + 10
    } else {
        u - 0x61 + 10
    }
}

/// Clamps `x` into `[lo, hi]`; used to make position arithmetic in the
/// recursive grammar functions decrease by construction. Every executable
/// scan advances and stays in bounds, so at every use the clamp is the
/// identity.
pub open spec fn clamp(lo: int, x: int, hi: int) -> int {
    if x < lo {
        lo
    } else if x > hi {
        hi
    } else {
        x
    }
}

// ---------------------------------------------------------------------------
// whitespace and digit runs
// ---------------------------------------------------------------------------

/// The first position at or after `pos` holding a non-whitespace character
/// (or the end of input).
pub open spec fn skip_ws(s: Seq<char>, pos: int) -> int
    decreases s.len() - pos
        when 0 <= pos <= s.len()
{
    if pos < s.len() && is_ws(s[pos]) {
        skip_ws(s, pos + 1)
    } else {
        pos
    }
}

/// The end of the run of decimal digits starting at `pos`.
pub open spec fn scan_digits(s: Seq<char>, pos: int) -> int
    decreases s.len() - pos
        when 0 <= pos <= s.len()
{
    if pos < s.len() && is_digit(s[pos]) {
        scan_digits(s, pos + 1)
    } else {
        pos
    }
}

/// The end of the run of ASCII letters starting at `pos`.
pub open spec fn scan_alpha(s: Seq<char>, pos: int) -> int
    decreases s.len() - pos
        when 0 <= pos <= s.len()
{
    if pos < s.len() && is_alpha(s[pos]) {
        scan_alpha(s, pos + 1)
    } else {
        pos
    }
}

// ---------------------------------------------------------------------------
// numbers
// ---------------------------------------------------------------------------

/// The optional fractional part beginning at `i`: either there is no `.`
/// here, or `.` must be followed by at least one digit.
pub open spec fn scan_frac(s: Seq<char>, i: int) -> Result<int, (ErrorKind, int)> {
    if i < s.len() && s[i] == '.' {
        if i + 1 < s.len() && is_digit(s[i + 1]) {
            Ok(scan_digits(s, i + 1))
        } else {
            Err((ErrorKind::InvalidNumber, i + 1))
        }
    } else {
        Ok(i)
    }
}

/// The optional exponent part beginning at `i`: `e`/`E`, an optional sign,
/// then at least one digit.
pub open spec fn scan_exp(s: Seq<char>, i: int) -> Result<int, (ErrorKind, int)> {
    if i < s.len() && (s[i] == 'e' || s[i] == 'E') {
        let j = if i + 1 < s.len() && (s[i + 1] == '+' || s[i + 1] == '-') {
            i + 2
        } else {
            i + 1
        };
        if j < s.len() && is_digit(s[j]) {
            Ok(scan_digits(s, j))
        } else {
            Err((ErrorKind::InvalidNumber, j))
        }
    } else {
        Ok(i)
    }
}

/// A whole numeric literal beginning at `pos`: optional `-`, an integer part
/// with no superfluous leading zero, then the optional fraction and exponent.
/// Returns the end position of the lexeme, or the offending offset.
pub open spec fn scan_number(s: Seq<char>, pos: int) -> Result<int, (ErrorKind, int)> {
    let p = if pos < s.len() && s[pos] == '-' {
        pos + 1
    } else {
        pos
    };
    if !(p < s.len() && is_digit(s[p])) {
        Err((ErrorKind::InvalidNumber, p))
    } else {
        let ip = if s[p] == '0' {
            p + 1
        } else {
            scan_digits(s, p)
        };
        if ip < s.len() && is_digit(s[ip]) {
            // only reachable after a leading zero
            Err((ErrorKind::InvalidNumber, ip))
        } else {
            match scan_frac(s, ip) {
                Ok(f) => scan_exp(s, f),
                Err(e) => Err(e),
            }
        }
    }
}

/// A sequence of characters that forms exactly one numeric literal. This is
/// the well-formedness condition on [`crate::Value::Number`] lexemes.
pub open spec fn valid_number(lex: Seq<char>) -> bool {
    scan_number(lex, 0) == Result::<int, (ErrorKind, int)>::Ok(lex.len() as int)
}

// ---------------------------------------------------------------------------
// strings
// ---------------------------------------------------------------------------

/// Four hexadecimal digits at `i`, as a value below 0x10000.
pub open spec fn hex4(s: Seq<char>, i: int) -> Option<u32> {
    if i + 4 <= s.len() && is_hex(s[i]) && is_hex(s[i + 1]) && is_hex(s[i + 2]) && is_hex(
        s[i + 3],
    ) {
        Some(
            ((hex_val(s[i]) * 0x1000 + hex_val(s[i + 1]) * 0x100 + hex_val(s[i + 2]) * 0x10
                + hex_val(s[i + 3])) as u32),
        )
    } else {
        None
    }
}

/// Where a malformed `\u` escape goes wrong: the first of the four positions
/// at `i` that is past the end of input or not a hexadecimal digit.
pub open spec fn hex4_err_off(s: Seq<char>, i: int) -> int {
    if !(i < s.len() && is_hex(s[i])) {
        if i < s.len() {
            i
        } else {
            s.len() as int
        }
    } else if !(i + 1 < s.len() && is_hex(s[i + 1])) {
        if i + 1 < s.len() {
            i + 1
        } else {
            s.len() as int
        }
    } else if !(i + 2 < s.len() && is_hex(s[i + 2])) {
        if i + 2 < s.len() {
            i + 2
        } else {
            s.len() as int
        }
    } else {
        if i + 3 < s.len() {
            i + 3
        } else {
            s.len() as int
        }
    }
}

/// The body of a string literal, scanned from `pos` (just after the opening
/// quote), with `acc` the content decoded so far. On success returns the
/// full decoded content and the position just after the closing quote.
pub open spec fn scan_string_from(s: Seq<char>, pos: int, acc: Seq<char>) -> Result<
    (Seq<char>, int),
    (ErrorKind, int),
>
    decreases s.len() - pos
        when 0 <= pos <= s.len()
{
    if pos >= s.len() {
        Err((ErrorKind::UnterminatedString, s.len() as int))
    } else {
        let c = s[pos];
        if c == '"' {
            Ok((acc, pos + 1))
        } else if c != '\\' {
            scan_string_from(s, pos + 1, acc.push(c))
        } else if pos + 1 >= s.len() {
            Err((ErrorKind::UnterminatedString, s.len() as int))
        } else {
            let e = s[pos + 1];
            if e == '"' {
                scan_string_from(s, pos + 2, acc.push('"'))
            } else if e == '\\' {
                scan_string_from(s, pos + 2, acc.push('\\'))
            } else if e == '/' {
                scan_string_from(s, pos + 2, acc.push('/'))
            } else if e == 'b' {
                scan_string_from(s, pos + 2, acc.push('\u{0008}'))
            } else if e == 'f' {
                scan_string_from(s, pos + 2, acc.push('\u{000c}'))
            } else if e == 'n' {
                scan_string_from(s, pos + 2, acc.push('\n'))
            } else if e == 'r' {
                scan_string_from(s, pos + 2, acc.push('\r'))
            } else if e == 't' {
                scan_string_from(s, pos + 2, acc.push('\t'))
            } else if e == 'u' {
                match hex4(s, pos + 2) {
                    None => Err((ErrorKind::InvalidUnicodeEscape, hex4_err_off(s, pos + 2))),
                    Some(u) => {
                        if 0xd800 <= u && u < 0xdc00 {
                            // a high surrogate must be completed by a low one
                            if pos + 8 <= s.len() && s[pos + 6] == '\\' && s[pos + 7] == 'u' {
                                match hex4(s, pos + 8) {
                                    None => Err(
                                        (ErrorKind::InvalidUnicodeEscape, hex4_err_off(s, pos + 8)),
                                    ),
                                    Some(l) => {
                                        if 0xdc00 <= l && l < 0xe000 {
                                            scan_string_from(
                                                s,
                                                pos + 12,
                                                acc.push(
                                                    (((0x10000 + (u - 0xd800) * 0x400 + (l
                                                        - 0xdc00)) as u32) as char),
                                                ),
                                            )
                                        } else {
                                            Err((ErrorKind::InvalidUnicodeEscape, pos))
                                        }
                                    },
                                }
                            } else {
                                Err((ErrorKind::InvalidUnicodeEscape, pos))
                            }
                        } else if 0xdc00 <= u && u < 0xe000 {
                            Err((ErrorKind::InvalidUnicodeEscape, pos))
                        } else {
                            scan_string_from(s, pos + 6, acc.push(((u as u32) as char)))
                        }
                    },
                }
            } else {
                Err((ErrorKind::InvalidEscape, pos + 1))
            }
        }
    }
}

// ---------------------------------------------------------------------------
// tokens
// ---------------------------------------------------------------------------

/// A lexical unit, at the level the parser consumes. `StrTok` carries the
/// decoded content, `NumTok` the raw lexeme. `BadTok` and `EofTok` are the
/// stream's sentinels: a lexical error (with its offending offset) or the
/// end of input.
pub enum Tok {
    LBrace,
    RBrace,
    LBrack,
    RBrack,
    Colon,
    Comma,
    StrTok(Seq<char>),
    NumTok(Seq<char>),
    TrueTok,
    FalseTok,
    NullTok,
    BadTok(ErrorKind, int),
    EofTok,
}

/// A token with the offset of its first character.
pub struct STok {
    pub kind: Tok,
    pub off: int,
}

/// Whether a token ends the stream.
pub open spec fn is_sentinel(t: Tok) -> bool {
    t is BadTok || t is EofTok
}

/// The keyword lexemes.
pub open spec fn kw_true() -> Seq<char> {
    seq!['t', 'r', 'u', 'e']
}

pub open spec fn kw_false() -> Seq<char> {
    seq!['f', 'a', 'l', 's', 'e']
}

pub open spec fn kw_null() -> Seq<char> {
    seq!['n', 'u', 'l', 'l']
}

/// The token stream of `s` from position `pos` on: tokens in order, ended by
/// exactly one sentinel. Positions advance by construction (see [`clamp`]);
/// every executable scan advances, so the clamps are the identity.
pub open spec fn tokenize_from(s: Seq<char>, pos: int) -> Seq<STok>
    decreases s.len() - pos
        when 0 <= pos <= s.len()
{
    let p = clamp(pos, skip_ws(s, pos), s.len() as int);
    if p >= s.len() {
        seq![STok { kind: Tok::EofTok, off: s.len() as int }]
    } else {
        let c = s[p];
        if c == '{' {
            seq![STok { kind: Tok::LBrace, off: p }] + tokenize_from(s, p + 1)
        } else if c == '}' {
            seq![STok { kind: Tok::RBrace, off: p }] + tokenize_from(s, p + 1)
        } else if c == '[' {
            seq![STok { kind: Tok::LBrack, off: p }] + tokenize_from(s, p + 1)
        } else if c == ']' {
            seq![STok { kind: Tok::RBrack, off: p }] + tokenize_from(s, p + 1)
        } else if c == ':' {
            seq![STok { kind: Tok::Colon, off: p }] + tokenize_from(s, p + 1)
        } else if c == ',' {
            seq![STok { kind: Tok::Comma, off: p }] + tokenize_from(s, p + 1)
        } else if c == '"' {
            match scan_string_from(s, p + 1, Seq::empty()) {
                Ok((content, end)) => seq![STok { kind: Tok::StrTok(content), off: p }]
                    + tokenize_from(s, clamp(p + 1, end, s.len() as int)),
                Err((k, o)) => seq![STok { kind: Tok::BadTok(k, o), off: p }],
            }
        } else if c == '-' || is_digit(c) {
            match scan_number(s, p) {
                Ok(end) => {
                    let e2 = clamp(p + 1, end, s.len() as int);
                    seq![STok { kind: Tok::NumTok(s.subrange(p, e2)), off: p }] + tokenize_from(
                        s,
                        e2,
                    )
                },
                Err((k, o)) => seq![STok { kind: Tok::BadTok(k, o), off: p }],
            }
        } else if is_alpha(c) {
            let e2 = clamp(p + 1, scan_alpha(s, p), s.len() as int);
            let w = s.subrange(p, e2);
            if w == kw_true() {
                seq![STok { kind: Tok::TrueTok, off: p }] + tokenize_from(s, e2)
            } else if w == kw_false() {
                seq![STok { kind: Tok::FalseTok, off: p }] + tokenize_from(s, e2)
            } else if w == kw_null() {
                seq![STok { kind: Tok::NullTok, off: p }] + tokenize_from(s, e2)
            } else {
                seq![STok { kind: Tok::BadTok(ErrorKind::UnexpectedToken, p), off: p }]
            }
        } else {
            seq![STok { kind: Tok::BadTok(ErrorKind::UnexpectedToken, p), off: p }]
        }
    }
}

// ---------------------------------------------------------------------------
// the executable scanner
// ---------------------------------------------------------------------------

/// Relies on `char::from_u32` of std: `Some` exactly on Unicode scalar
/// values (not a surrogate, at most 0x10FFFF), and the character returned
/// has the given code.
#[verifier::external_body]
fn char_from_u32(u: u32) -> (r: Option<char>)
    ensures
        r is Some <==> vstd::utf8::is_scalar(u),
        r is Some ==> (r->0 as u32) == u,
{
    char::from_u32(u)
}

fn is_ws_e(c: char) -> (r: bool)
    ensures
        r == is_ws(c),
{
    c == ' ' || c == '\t' || c == '\n' || c == '\r'
}

fn is_digit_e(c: char) -> (r: bool)
    ensures
        r == is_digit(c),
{
    let u = c as u32;
    0x30 <= u && u <= 0x39
}

fn is_alpha_e(c: char) -> (r: bool)
    ensures
        r == is_alpha(c),
{
    let u = c as u32;
    (0x41 <= u && u <= 0x5a) || (0x61 <= u && u <= 0x7a)
}

fn is_hex_e(c: char) -> (r: bool)
    ensures
        r == is_hex(c),
{
    let u = c as u32;
    (0x30 <= u && u <= 0x39) || (0x41 <= u && u <= 0x46) || (0x61 <= u && u <= 0x66)
}

fn hex_val_e(c: char) -> (r: u32)
    requires
        is_hex(c),
    ensures
        r as int == hex_val(c),
        r < 16,
{
    let u = c as u32;
    if u <= 0x39 {
        u - 0x30
    } else if u <= 0x46 {
        u - 0x41 + 10
    } else {
        u - 0x61 + 10
    }
}

#[verifier::loop_isolation(false)]
fn skip_ws_e(s: &Vec<char>, pos: usize) -> (r: usize)
    requires
        pos <= s@.len(),
    ensures
        r as int == skip_ws(s@, pos as int),
        pos <= r <= s@.len(),
        !(r < s@.len() && is_ws(s@[r as int])),
{
    let mut p = pos;
    while p < s.len() && is_ws_e(s[p])
        invariant
            pos <= p <= s@.len(),
            skip_ws(s@, pos as int) == skip_ws(s@, p as int),
        decreases s@.len() - p,
    {
        p = p + 1;
    }
    p
}

#[verifier::loop_isolation(false)]
fn scan_digits_e(s: &Vec<char>, pos: usize) -> (r: usize)
    requires
        pos <= s@.len(),
    ensures
        r as int == scan_digits(s@, pos as int),
        pos <= r <= s@.len(),
        !(r < s@.len() && is_digit(s@[r as int])),
{
    let mut p = pos;
    while p < s.len() && is_digit_e(s[p])
        invariant
            pos <= p <= s@.len(),
            scan_digits(s@, pos as int) == scan_digits(s@, p as int),
        decreases s@.len() - p,
    {
        p = p + 1;
    }
    p
}

#[verifier::loop_isolation(false)]
fn scan_alpha_e(s: &Vec<char>, pos: usize) -> (r: usize)
    requires
        pos <= s@.len(),
    ensures
        r as int == scan_alpha(s@, pos as int),
        pos <= r <= s@.len(),
        !(r < s@.len() && is_alpha(s@[r as int])),
{
    let mut p = pos;
    while p < s.len() && is_alpha_e(s[p])
        invariant
            pos <= p <= s@.len(),
            scan_alpha(s@, pos as int) == scan_alpha(s@, p as int),
        decreases s@.len() - p,
    {
        p = p + 1;
    }
    p
}

fn hex4_e(s: &Vec<char>, i: usize) -> (r: Option<u32>)
    requires
        i <= s@.len(),
    ensures
        r == hex4(s@, i as int),
        r is Some ==> i + 4 <= s@.len() && r->0 < 0x10000,
{
    if s.len() >= 4 && i <= s.len() - 4 && is_hex_e(s[i]) && is_hex_e(s[i + 1]) && is_hex_e(
        s[i + 2],
    ) && is_hex_e(s[i + 3]) {
        let v = hex_val_e(s[i]) * 0x1000 + hex_val_e(s[i + 1]) * 0x100 + hex_val_e(s[i + 2]) * 0x10
            + hex_val_e(s[i + 3]);
        Some(v)
    } else {
        None
    }
}

fn hex4_err_e(s: &Vec<char>, i: usize) -> (r: usize)
    requires
        i <= s@.len(),
    ensures
        r as int == hex4_err_off(s@, i as int),
{
    if i < s.len() && is_hex_e(s[i]) {
        if i + 1 < s.len() && is_hex_e(s[i + 1]) {
            if i + 2 < s.len() && is_hex_e(s[i + 2]) {
                if i + 3 < s.len() {
                    i + 3
                } else {
                    s.len()
                }
            } else if i + 2 < s.len() {
                i + 2
            } else {
                s.len()
            }
        } else if i + 1 < s.len() {
            i + 1
        } else {
            s.len()
        }
    } else if i < s.len() {
        i
    } else {
        s.len()
    }
}

fn scan_number_e(s: &Vec<char>, pos: usize) -> (r: Result<usize, (ErrorKind, usize)>)
    requires
        pos <= s@.len(),
    ensures
        (match r {
            Ok(end) => pos < end <= s@.len() && scan_number(s@, pos as int) == Result::<
                int,
                (ErrorKind, int),
            >::Ok(end as int),
            Err((k, o)) => scan_number(s@, pos as int) == Result::<int, (ErrorKind, int)>::Err(
                (k, o as int),
            ),
        }),
{
    let n = s.len();
    let mut p = pos;
    if p < n && s[p] == '-' {
        p = p + 1;
    }
    if !(p < n && is_digit_e(s[p])) {
        return Err((ErrorKind::InvalidNumber, p));
    }
    let ip = if s[p] == '0' {
        p + 1
    } else {
        scan_digits_e(s, p)
    };
    if ip < n && is_digit_e(s[ip]) {
        return Err((ErrorKind::InvalidNumber, ip));
    }
    let f = if ip < n && s[ip] == '.' {
        if ip + 1 < n && is_digit_e(s[ip + 1]) {
            scan_digits_e(s, ip + 1)
        } else {
            return Err((ErrorKind::InvalidNumber, ip + 1));
        }
    } else {
        ip
    };
    let e = if f < n && (s[f] == 'e' || s[f] == 'E') {
        let j = if f + 1 < n && (s[f + 1] == '+' || s[f + 1] == '-') {
            f + 2
        } else {
            f + 1
        };
        if j < n && is_digit_e(s[j]) {
            scan_digits_e(s, j)
        } else {
            return Err((ErrorKind::InvalidNumber, j));
        }
    } else {
        f
    };
    Ok(e)
}

#[verifier::loop_isolation(false)]
fn scan_string_e(s: &Vec<char>, pos: usize) -> (r: Result<(Vec<char>, usize), (ErrorKind, usize)>)
    requires
        pos <= s@.len(),
    ensures
        (match r {
            Ok((content, end)) => pos < end <= s@.len() && scan_string_from(
                s@,
                pos as int,
                Seq::empty(),
            ) == Result::<(Seq<char>, int), (ErrorKind, int)>::Ok((content@, end as int)),
            Err((k, o)) => scan_string_from(s@, pos as int, Seq::empty()) == Result::<
                (Seq<char>, int),
                (ErrorKind, int),
            >::Err((k, o as int)),
        }),
{
    let n = s.len();
    let mut p = pos;
    let mut acc: Vec<char> = Vec::new();
    loop
        invariant
            pos <= p <= n,
            scan_string_from(s@, pos as int, Seq::empty()) == scan_string_from(
                s@,
                p as int,
                acc@,
            ),
        decreases s@.len() - p,
    {
        if p >= n {
            return Err((ErrorKind::UnterminatedString, n));
        }
        let c = s[p];
        if c == '"' {
            return Ok((acc, p + 1));
        } else if c != '\\' {
            acc.push(c);
            p = p + 1;
        } else if p + 1 >= n {
            return Err((ErrorKind::UnterminatedString, n));
        } else {
            let e = s[p + 1];
            if e == '"' {
                acc.push('"');
                p = p + 2;
            } else if e == '\\' {
                acc.push('\\');
                p = p + 2;
            } else if e == '/' {
                acc.push('/');
                p = p + 2;
            } else if e == 'b' {
                acc.push('\u{0008}');
                p = p + 2;
            } else if e == 'f' {
                acc.push('\u{000c}');
                p = p + 2;
            } else if e == 'n' {
                acc.push('\n');
                p = p + 2;
            } else if e == 'r' {
                acc.push('\r');
                p = p + 2;
            } else if e == 't' {
                acc.push('\t');
                p = p + 2;
            } else if e == 'u' {
                match hex4_e(s, p + 2) {
                    None => {
                        return Err((ErrorKind::InvalidUnicodeEscape, hex4_err_e(s, p + 2)));
                    },
                    Some(u) => {
                        if 0xd800 <= u && u < 0xdc00 {
                            if n >= 8 && p <= n - 8 && s[p + 6] == '\\' && s[p + 7] == 'u' {
                                match hex4_e(s, p + 8) {
                                    None => {
                                        return Err(
                                            (ErrorKind::InvalidUnicodeEscape, hex4_err_e(s, p + 8)),
                                        );
                                    },
                                    Some(l) => {
                                        if 0xdc00 <= l && l < 0xe000 {
                                            let scalar = 0x10000 + (u - 0xd800) * 0x400 + (l
                                                - 0xdc00);
                                            let c2 = char_from_u32(scalar).unwrap();
                                            proof {
                                                vstd::utf8::char_u32_cast(c2, scalar);
                                            }
                                            acc.push(c2);
                                            p = p + 12;
                                        } else {
                                            return Err((ErrorKind::InvalidUnicodeEscape, p));
                                        }
                                    },
                                }
                            } else {
                                return Err((ErrorKind::InvalidUnicodeEscape, p));
                            }
                        } else if 0xdc00 <= u && u < 0xe000 {
                            return Err((ErrorKind::InvalidUnicodeEscape, p));
                        } else {
                            let c2 = char_from_u32(u).unwrap();
                            proof {
                                vstd::utf8::char_u32_cast(c2, u);
                            }
                            acc.push(c2);
                            p = p + 6;
                        }
                    },
                }
            } else {
                return Err((ErrorKind::InvalidEscape, p + 1));
            }
        }
    }
}

/// The executable form of [`Tok`]: payloads are vectors, offsets `usize`.
pub enum TokE {
    LBrace,
    RBrace,
    LBrack,
    RBrack,
    Colon,
    Comma,
    StrTok(Vec<char>),
    NumTok(Vec<char>),
    TrueTok,
    FalseTok,
    NullTok,
    BadTok(ErrorKind, usize),
    EofTok,
}

/// The executable form of [`STok`].
pub struct STokE {
    pub kind: TokE,
    pub off: usize,
}

impl View for TokE {
    type V = Tok;

    open spec fn view(&self) -> Tok {
        match self {
            TokE::LBrace => Tok::LBrace,
            TokE::RBrace => Tok::RBrace,
            TokE::LBrack => Tok::LBrack,
            TokE::RBrack => Tok::RBrack,
            TokE::Colon => Tok::Colon,
            TokE::Comma => Tok::Comma,
            TokE::StrTok(content) => Tok::StrTok(content@),
            TokE::NumTok(lex) => Tok::NumTok(lex@),
            TokE::TrueTok => Tok::TrueTok,
            TokE::FalseTok => Tok::FalseTok,
            TokE::NullTok => Tok::NullTok,
            TokE::BadTok(k, o) => Tok::BadTok(*k, *o as int),
            TokE::EofTok => Tok::EofTok,
        }
    }
}

impl View for STokE {
    type V = STok;

    open spec fn view(&self) -> STok {
        STok { kind: self.kind@, off: self.off as int }
    }
}

/// The abstraction of an executable token stream.
pub open spec fn vtoks(ts: Seq<STokE>) -> Seq<STok> {
    ts.map_values(|t: STokE| t@)
}

/// A well-formed token stream: it ends with exactly one sentinel. The
/// tokenizer guarantees this; the parser relies on it to stay in bounds.
pub open spec fn wf_toks(ts: Seq<STok>) -> bool {
    &&& ts.len() >= 1
    &&& is_sentinel(ts.last().kind)
    &&& forall|i: int| 0 <= i < ts.len() - 1 ==> !is_sentinel(#[trigger] ts[i].kind)
}

/// A copy of `s[a..b]`.
#[verifier::loop_isolation(false)]
pub(crate) fn copy_range(s: &Vec<char>, a: usize, b: usize) -> (r: Vec<char>)
    requires
        a <= b <= s@.len(),
    ensures
        r@ == s@.subrange(a as int, b as int),
{
    let mut r: Vec<char> = Vec::new();
    let mut p = a;
    while p < b
        invariant
            a <= p <= b,
            r@ == s@.subrange(a as int, p as int),
        decreases b - p,
    {
        r.push(s[p]);
        assert(r@ =~= s@.subrange(a as int, p + 1 as int));
        p = p + 1;
    }
    r
}

/// The executable scanner: the whole token stream of `s`, cut off at the
/// first lexical error, exactly as [`tokenize_from`] describes it.
#[verifier::loop_isolation(false)]
pub fn tokenize(s: &Vec<char>) -> (toks: Vec<STokE>)
    ensures
        vtoks(toks@) == tokenize_from(s@, 0),
        wf_toks(vtoks(toks@)),
        toks@.len() >= 1,
{
    let n = s.len();
    let mut out: Vec<STokE> = Vec::new();
    let mut pos: usize = 0;
    loop
        invariant
            pos <= n,
            tokenize_from(s@, 0) == vtoks(out@) + tokenize_from(s@, pos as int),
            forall|k: int| 0 <= k < out@.len() ==> !is_sentinel(#[trigger] vtoks(out@)[k].kind),
        decreases s@.len() - pos,
    {
        let ghost pre = vtoks(out@);
        let p = skip_ws_e(s, pos);
        if p >= n {
            out.push(STokE { kind: TokE::EofTok, off: n });
            assert(vtoks(out@) =~= pre + seq![STok { kind: Tok::EofTok, off: s@.len() as int }]);
            return out;
        }
        let c = s[p];
        if c == '{' {
            out.push(STokE { kind: TokE::LBrace, off: p });
            assert(vtoks(out@) =~= pre + seq![STok { kind: Tok::LBrace, off: p as int }]);
            pos = p + 1;
        } else if c == '}' {
            out.push(STokE { kind: TokE::RBrace, off: p });
            assert(vtoks(out@) =~= pre + seq![STok { kind: Tok::RBrace, off: p as int }]);
            pos = p + 1;
        } else if c == '[' {
            out.push(STokE { kind: TokE::LBrack, off: p });
            assert(vtoks(out@) =~= pre + seq![STok { kind: Tok::LBrack, off: p as int }]);
            pos = p + 1;
        } else if c == ']' {
            out.push(STokE { kind: TokE::RBrack, off: p });
            assert(vtoks(out@) =~= pre + seq![STok { kind: Tok::RBrack, off: p as int }]);
            pos = p + 1;
        } else if c == ':' {
            out.push(STokE { kind: TokE::Colon, off: p });
            assert(vtoks(out@) =~= pre + seq![STok { kind: Tok::Colon, off: p as int }]);
            pos = p + 1;
        } else if c == ',' {
            out.push(STokE { kind: TokE::Comma, off: p });
            assert(vtoks(out@) =~= pre + seq![STok { kind: Tok::Comma, off: p as int }]);
            pos = p + 1;
        } else if c == '"' {
            match scan_string_e(s, p + 1) {
                Ok((content, end)) => {
                    let ghost cv = content@;
                    out.push(STokE { kind: TokE::StrTok(content), off: p });
                    assert(vtoks(out@) =~= pre + seq![STok { kind: Tok::StrTok(cv), off: p as int }]);
                    pos = end;
                },
                Err((k, o)) => {
                    out.push(STokE { kind: TokE::BadTok(k, o), off: p });
                    assert(vtoks(out@) =~= pre + seq![
                        STok { kind: Tok::BadTok(k, o as int), off: p as int },
                    ]);
                    return out;
                },
            }
        } else if c == '-' || is_digit_e(c) {
            match scan_number_e(s, p) {
                Ok(end) => {
                    let lex = copy_range(s, p, end);
                    let ghost lv = lex@;
                    out.push(STokE { kind: TokE::NumTok(lex), off: p });
                    assert(vtoks(out@) =~= pre + seq![STok { kind: Tok::NumTok(lv), off: p as int }]);
                    pos = end;
                },
                Err((k, o)) => {
                    out.push(STokE { kind: TokE::BadTok(k, o), off: p });
                    assert(vtoks(out@) =~= pre + seq![
                        STok { kind: Tok::BadTok(k, o as int), off: p as int },
                    ]);
                    return out;
                },
            }
        } else if is_alpha_e(c) {
            let end = scan_alpha_e(s, p);
            let ghost w = s@.subrange(p as int, end as int);
            if end - p == 4 && s[p] == 't' && s[p + 1] == 'r' && s[p + 2] == 'u' && s[p + 3] == 'e' {
                proof {
                    assert(w =~= kw_true());
                }
                out.push(STokE { kind: TokE::TrueTok, off: p });
                assert(vtoks(out@) =~= pre + seq![STok { kind: Tok::TrueTok, off: p as int }]);
                pos = end;
            } else if end - p == 5 && s[p] == 'f' && s[p + 1] == 'a' && s[p + 2] == 'l' && s[p + 3]
                == 's' && s[p + 4] == 'e' {
                proof {
                    assert(w =~= kw_false());
                }
                out.push(STokE { kind: TokE::FalseTok, off: p });
                assert(vtoks(out@) =~= pre + seq![STok { kind: Tok::FalseTok, off: p as int }]);
                pos = end;
            } else if end - p == 4 && s[p] == 'n' && s[p + 1] == 'u' && s[p + 2] == 'l' && s[p + 3]
                == 'l' {
                proof {
                    assert(w =~= kw_null());
                }
                out.push(STokE { kind: TokE::NullTok, off: p });
                assert(vtoks(out@) =~= pre + seq![STok { kind: Tok::NullTok, off: p as int }]);
                pos = end;
            } else {
                proof {
                    if w == kw_true() {
                        assert(w.len() == 4 && w[0] == 't' && w[1] == 'r' && w[2] == 'u' && w[3]
                            == 'e');
                    }
                    if w == kw_false() {
                        assert(w.len() == 5 && w[0] == 'f' && w[1] == 'a' && w[2] == 'l' && w[3]
                            == 's' && w[4] == 'e');
                    }
                    if w == kw_null() {
                        assert(w.len() == 4 && w[0] == 'n' && w[1] == 'u' && w[2] == 'l' && w[3]
                            == 'l');
                    }
                }
                out.push(STokE { kind: TokE::BadTok(ErrorKind::UnexpectedToken, p), off: p });
                assert(vtoks(out@) =~= pre + seq![
                    STok { kind: Tok::BadTok(ErrorKind::UnexpectedToken, p as int), off: p as int },
                ]);
                return out;
            }
        } else {
            out.push(STokE { kind: TokE::BadTok(ErrorKind::UnexpectedToken, p), off: p });
            assert(vtoks(out@) =~= pre + seq![
                STok { kind: Tok::BadTok(ErrorKind::UnexpectedToken, p as int), off: p as int },
            ]);
            return out;
        }
    }
}

} // verus!
