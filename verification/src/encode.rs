//! The pretty-printing encoder: renders a [`Value`] tree with two-space
//! indentation, each container child on its own line, strings re-escaped,
//! and a single trailing newline.
//!
//! The rendering is stated by the spec functions [`encoded`],
//! [`encoded_elems`] and [`encoded_pairs`]; the executable encoder is proved
//! to emit exactly what they describe, or to report
//! [`ErrorKind::MaxDepthExceeded`] exactly when the tree is nested deeper
//! than the limit.

use vstd::prelude::*;
use crate::errors::ErrorKind;
use crate::errors::JsonError;
use crate::model::JsonVal;
use crate::model::Value;
use crate::model::depth;
use crate::model::depth_elems;
use crate::model::depth_pairs;
use crate::model::lemma_depth_elems_all_le;
use crate::model::lemma_depth_elems_ge;
use crate::model::lemma_depth_pairs_all_le;
use crate::model::lemma_depth_pairs_ge;
use crate::model::lemma_velems_index;
use crate::model::lemma_velems_len;
use crate::model::lemma_vpairs_index;
use crate::model::lemma_vpairs_len;
use crate::model::velems;
use crate::model::vpairs;
use crate::parse::DEFAULT_MAX_DEPTH;
use crate::scan::kw_false;
use crate::scan::kw_null;
use crate::scan::kw_true;

verus! {

broadcast use lemma_velems_index, lemma_vpairs_index, lemma_velems_len, lemma_vpairs_len;

/// `n` spaces of indentation.
pub open spec fn spaces(n: nat) -> Seq<char> {
    Seq::new(n, |i: int| ' ')
}

/// The lowercase hexadecimal digit for a value below sixteen.
pub open spec fn hex_digit(v: int) -> char
    recommends
        0 <= v < 16,
{
    if v < 10 {
        ((0x30 + v) as u32) as char
    } else {
        ((0x57 + v) as u32) as char
    }
}

/// How one character of string content is rendered: the short escapes of
/// the escape table, `\u00XX` for the remaining control characters, and
/// everything else (including `/` and non-ASCII characters) literally.
pub open spec fn escape_char(c: char) -> Seq<char> {
    if c == '"' {
        seq!['\\', '"']
    } else if c == '\\' {
        seq!['\\', '\\']
    } else if c == '\u{0008}' {
        seq!['\\', 'b']
    } else if c == '\u{000c}' {
        seq!['\\', 'f']
    } else if c == '\n' {
        seq!['\\', 'n']
    } else if c == '\r' {
        seq!['\\', 'r']
    } else if c == '\t' {
        seq!['\\', 't']
    } else if (c as u32) < 0x20 {
        seq!['\\', 'u', '0', '0', hex_digit((c as u32) as int / 16), hex_digit(
            (c as u32) as int % 16,
        )]
    } else {
        seq![c]
    }
}

/// A whole string content, rendered character by character.
pub open spec fn escape_string(s: Seq<char>) -> Seq<char>
    decreases s.len(),
{
    if s.len() == 0 {
        Seq::empty()
    } else {
        escape_char(s[0]) + escape_string(s.drop_first())
    }
}

/// The pretty-printed rendering of a value at indentation level `ind`
/// (without the document's trailing newline).
pub open spec fn encoded(v: JsonVal, ind: nat) -> Seq<char>
    decreases v,
{
    match v {
        JsonVal::Null => kw_null(),
        JsonVal::Bool(b) => if b {
            kw_true()
        } else {
            kw_false()
        },
        JsonVal::Num(lex) => lex,
        JsonVal::Str(s) => seq!['"'] + escape_string(s) + seq!['"'],
        JsonVal::Arr(elems) => {
            if elems.len() == 0 {
                seq!['[', ']']
            } else {
                seq!['['] + encoded_elems(elems, ind) + seq![']']
            }
        },
        JsonVal::Obj(pairs) => {
            if pairs.len() == 0 {
                seq!['{', '}']
            } else {
                seq!['{'] + encoded_pairs(pairs, ind) + seq!['}']
            }
        },
    }
}

/// The inside of a non-empty array: each element on its own line one level
/// deeper, a comma after every element but the last, and the closing
/// bracket's indentation at the end.
pub open spec fn encoded_elems(elems: Seq<JsonVal>, ind: nat) -> Seq<char>
    decreases elems,
{
    if elems.len() == 0 {
        seq!['\n'] + spaces(2 * ind)
    } else {
        seq!['\n'] + spaces(2 * (ind + 1)) + encoded(elems[0], ind + 1) + (if elems.len() > 1 {
            seq![',']
        } else {
            Seq::empty()
        }) + encoded_elems(elems.drop_first(), ind)
    }
}

/// The inside of a non-empty object: each `"key": value` member on its own
/// line one level deeper, a comma after every member but the last, and the
/// closing brace's indentation at the end.
pub open spec fn encoded_pairs(pairs: Seq<(Seq<char>, JsonVal)>, ind: nat) -> Seq<char>
    decreases pairs,
{
    if pairs.len() == 0 {
        seq!['\n'] + spaces(2 * ind)
    } else {
        seq!['\n'] + spaces(2 * (ind + 1)) + seq!['"'] + escape_string(pairs[0].0) + seq!['"', ':', ' ']
            + encoded(pairs[0].1, ind + 1) + (if pairs.len() > 1 {
            seq![',']
        } else {
            Seq::empty()
        }) + encoded_pairs(pairs.drop_first(), ind)
    }
}

// ---------------------------------------------------------------------------
// the executable encoder
// ---------------------------------------------------------------------------

/// The lowercase hexadecimal digit character.
fn hex_digit_e(v: u32) -> (c: char)
    requires
        v < 16,
    ensures
        c == hex_digit(v as int),
{
    if v < 10 {
        ((0x30 + v) as u8) as char
    } else {
        ((0x57 + v) as u8) as char
    }
}

/// Appends `n` spaces.
#[verifier::loop_isolation(false)]
fn push_spaces(out: &mut Vec<char>, n: usize)
    ensures
        final(out)@ == old(out)@ + spaces(n as nat),
{
    let mut j: usize = 0;
    while j < n
        invariant
            j <= n,
            out@ == old(out)@ + spaces(j as nat),
        decreases n - j,
    {
        out.push(' ');
        assert(spaces(j as nat).push(' ') =~= spaces((j + 1) as nat));
        j = j + 1;
    }
}

/// Appends a copy of `s`.
#[verifier::loop_isolation(false)]
fn push_all(out: &mut Vec<char>, s: &Vec<char>)
    ensures
        final(out)@ == old(out)@ + s@,
{
    let n = s.len();
    let mut j: usize = 0;
    while j < n
        invariant
            j <= n,
            out@ == old(out)@ + s@.take(j as int),
        decreases n - j,
    {
        out.push(s[j]);
        assert(s@.take(j as int).push(s@[j as int]) =~= s@.take(j + 1 as int));
        j = j + 1;
    }
    assert(s@.take(n as int) =~= s@);
}

/// Appends the rendering of one string content, escaped as [`escape_string`]
/// describes.
#[verifier::loop_isolation(false)]
fn push_escaped(out: &mut Vec<char>, s: &Vec<char>)
    ensures
        final(out)@ == old(out)@ + escape_string(s@),
{
    let n = s.len();
    let mut j: usize = 0;
    proof {
        assert(s@.skip(0) =~= s@);
        assert(out@.skip(old(out)@.len() as int) =~= Seq::<char>::empty());
    }
    while j < n
        invariant
            j <= n,
            out@.len() >= old(out)@.len(),
            out@.subrange(0, old(out)@.len() as int) == old(out)@,
            escape_string(s@) == out@.skip(old(out)@.len() as int) + escape_string(
                s@.skip(j as int),
            ),
        decreases n - j,
    {
        let ghost emitted = out@.skip(old(out)@.len() as int);
        let ghost rest = s@.skip(j as int);
        proof {
            assert(rest[0] == s@[j as int]);
            assert(rest.drop_first() =~= s@.skip(j + 1 as int));
        }
        let c = s[j];
        let u = c as u32;
        if c == '"' {
            out.push('\\');
            out.push('"');
        } else if c == '\\' {
            out.push('\\');
            out.push('\\');
        } else if c == '\u{0008}' {
            out.push('\\');
            out.push('b');
        } else if c == '\u{000c}' {
            out.push('\\');
            out.push('f');
        } else if c == '\n' {
            out.push('\\');
            out.push('n');
        } else if c == '\r' {
            out.push('\\');
            out.push('r');
        } else if c == '\t' {
            out.push('\\');
            out.push('t');
        } else if u < 0x20 {
            out.push('\\');
            out.push('u');
            out.push('0');
            out.push('0');
            out.push(hex_digit_e(u / 16));
            out.push(hex_digit_e(u % 16));
        } else {
            out.push(c);
        }
        proof {
            assert(out@.skip(old(out)@.len() as int) =~= emitted + escape_char(s@[j as int]));
            assert(out@.subrange(0, old(out)@.len() as int) =~= old(out)@);
        }
        j = j + 1;
    }
    proof {
        assert(escape_string(s@.skip(n as int)) == Seq::<char>::empty());
        assert(out@.skip(old(out)@.len() as int) + Seq::<char>::empty() =~= out@.skip(
            old(out)@.len() as int,
        ));
        assert(out@ =~= out@.subrange(0, old(out)@.len() as int) + out@.skip(
            old(out)@.len() as int,
        ));
    }
}

/// Appends the rendering of `v` at indentation `ind` with `b` levels of
/// container nesting still allowed; leaves `out` unusable when the budget
/// does not suffice (the caller discards it).
fn encode_value_into(v: &Value, ind: usize, b: usize, out: &mut Vec<char>) -> (ok: bool)
    requires
        2 * (ind + b) + 2 <= usize::MAX,
    ensures
        ok <==> depth(v@) <= b,
        ok ==> final(out)@ == old(out)@ + encoded(v@, ind as nat),
    decreases v, 1int,
{
    match v {
        Value::Null => {
            out.push('n');
            out.push('u');
            out.push('l');
            out.push('l');
            assert(out@ =~= old(out)@ + kw_null());
            true
        },
        Value::Bool(bv) => {
            if *bv {
                out.push('t');
                out.push('r');
                out.push('u');
                out.push('e');
                assert(out@ =~= old(out)@ + kw_true());
            } else {
                out.push('f');
                out.push('a');
                out.push('l');
                out.push('s');
                out.push('e');
                assert(out@ =~= old(out)@ + kw_false());
            }
            true
        },
        Value::Number(lex) => {
            push_all(out, lex);
            true
        },
        Value::String(s) => {
            out.push('"');
            push_escaped(out, s);
            out.push('"');
            assert(out@ =~= old(out)@ + (seq!['"'] + escape_string(s@) + seq!['"']));
            true
        },
        Value::Array(elems) => {
            assert(depth(v@) == 1 + depth_elems(velems(elems@)));
            if b == 0 {
                return false;
            }
            encode_array_into(elems, ind, b, out)
        },
        Value::Object(pairs) => {
            assert(depth(v@) == 1 + depth_pairs(vpairs(pairs@)));
            if b == 0 {
                return false;
            }
            encode_object_into(pairs, ind, b, out)
        },
    }
}

/// Appends the rendering of an array with elements `elems`.
#[verifier::loop_isolation(false)]
#[verifier::rlimit(60)]
fn encode_array_into(elems: &Vec<Value>, ind: usize, b: usize, out: &mut Vec<char>) -> (ok: bool)
    requires
        2 * (ind + b) + 2 <= usize::MAX,
        b >= 1,
    ensures
        ok <==> 1 + depth_elems(velems(elems@)) <= b,
        ok ==> final(out)@ == old(out)@ + encoded(JsonVal::Arr(velems(elems@)), ind as nat),
    decreases elems, 0int,
{
    let ghost ve = velems(elems@);
    if elems.len() == 0 {
        out.push('[');
        out.push(']');
        assert(out@ =~= old(out)@ + seq!['[', ']']);
        assert(depth_elems(ve) == 0);
        return true;
    }
    out.push('[');
    let n = elems.len();
    let mut idx: usize = 0;
    proof {
        assert(ve.skip(0) =~= ve);
        assert(out@.subrange(0, old(out)@.len() + 1 as int) =~= old(out)@ + seq!['[']);
        assert(out@.skip(old(out)@.len() + 1 as int) =~= Seq::<char>::empty());
    }
    while idx < n
        invariant
            0 < n == elems@.len(),
            idx <= n,
            out@.len() >= old(out)@.len() + 1,
            out@.subrange(0, old(out)@.len() + 1 as int) == old(out)@ + seq!['['],
            encoded_elems(ve, ind as nat) == out@.skip(old(out)@.len() + 1 as int)
                + encoded_elems(ve.skip(idx as int), ind as nat),
            forall|m: int| 0 <= m < idx ==> depth(#[trigger] ve[m]) <= (b - 1) as nat,
        decreases n - idx,
    {
        let ghost emitted = out@.skip(old(out)@.len() + 1 as int);
        let ghost rest = ve.skip(idx as int);
        proof {
            assert(rest[0] == ve[idx as int]);
            assert(ve[idx as int] == elems@[idx as int]@);
            assert(rest.drop_first() =~= ve.skip(idx + 1 as int));
        }
        out.push('\n');
        push_spaces(out, 2 * (ind + 1));
        let ok = encode_value_into(&elems[idx], ind + 1, b - 1, out);
        if !ok {
            proof {
                lemma_depth_elems_ge(ve, idx as int);
            }
            return false;
        }
        if idx + 1 < n {
            out.push(',');
        }
        proof {
            assert(out@.skip(old(out)@.len() + 1 as int) =~= emitted + (seq!['\n'] + spaces(
                2 * (ind + 1) as nat,
            ) + encoded(ve[idx as int], (ind + 1) as nat) + (if rest.len() > 1 {
                seq![',']
            } else {
                Seq::<char>::empty()
            })));
            assert(out@.subrange(0, old(out)@.len() + 1 as int) =~= old(out)@ + seq!['[']);
        }
        idx = idx + 1;
    }
    proof {
        lemma_depth_elems_all_le(ve, (b - 1) as nat);
    }
    let ghost emitted = out@.skip(old(out)@.len() + 1 as int);
    proof {
        assert(out@ =~= out@.subrange(0, old(out)@.len() + 1 as int) + emitted);
    }
    out.push('\n');
    push_spaces(out, 2 * ind);
    out.push(']');
    proof {
        assert(ve.skip(n as int) =~= Seq::<JsonVal>::empty());
        assert(encoded_elems(ve, ind as nat) =~= emitted + (seq!['\n'] + spaces(2 * ind as nat)));
        assert(encoded(JsonVal::Arr(ve), ind as nat) == seq!['['] + encoded_elems(ve, ind as nat)
            + seq![']']);
        assert(out@ =~= old(out)@ + (seq!['['] + encoded_elems(ve, ind as nat) + seq![']']));
    }
    true
}

/// Appends the rendering of an object with members `pairs`.
#[verifier::loop_isolation(false)]
#[verifier::rlimit(60)]
fn encode_object_into(
    pairs: &Vec<(Vec<char>, Value)>,
    ind: usize,
    b: usize,
    out: &mut Vec<char>,
) -> (ok: bool)
    requires
        2 * (ind + b) + 2 <= usize::MAX,
        b >= 1,
    ensures
        ok <==> 1 + depth_pairs(vpairs(pairs@)) <= b,
        ok ==> final(out)@ == old(out)@ + encoded(JsonVal::Obj(vpairs(pairs@)), ind as nat),
    decreases pairs, 0int,
{
    let ghost vp = vpairs(pairs@);
    if pairs.len() == 0 {
        out.push('{');
        out.push('}');
        assert(out@ =~= old(out)@ + seq!['{', '}']);
        assert(depth_pairs(vp) == 0);
        return true;
    }
    out.push('{');
    let n = pairs.len();
    let mut idx: usize = 0;
    proof {
        assert(vp.skip(0) =~= vp);
        assert(out@.subrange(0, old(out)@.len() + 1 as int) =~= old(out)@ + seq!['{']);
        assert(out@.skip(old(out)@.len() + 1 as int) =~= Seq::<char>::empty());
    }
    while idx < n
        invariant
            0 < n == pairs@.len(),
            idx <= n,
            out@.len() >= old(out)@.len() + 1,
            out@.subrange(0, old(out)@.len() + 1 as int) == old(out)@ + seq!['{'],
            encoded_pairs(vp, ind as nat) == out@.skip(old(out)@.len() + 1 as int)
                + encoded_pairs(vp.skip(idx as int), ind as nat),
            forall|m: int| 0 <= m < idx ==> depth((#[trigger] vp[m]).1) <= (b - 1) as nat,
        decreases n - idx,
    {
        let ghost emitted = out@.skip(old(out)@.len() + 1 as int);
        let ghost rest = vp.skip(idx as int);
        proof {
            assert(rest[0] == vp[idx as int]);
            assert(vp[idx as int] == (pairs@[idx as int].0@, pairs@[idx as int].1@));
            assert(rest.drop_first() =~= vp.skip(idx + 1 as int));
        }
        out.push('\n');
        push_spaces(out, 2 * (ind + 1));
        out.push('"');
        push_escaped(out, &pairs[idx].0);
        out.push('"');
        out.push(':');
        out.push(' ');
        let ok = encode_value_into(&pairs[idx].1, ind + 1, b - 1, out);
        if !ok {
            proof {
                lemma_depth_pairs_ge(vp, idx as int);
            }
            return false;
        }
        if idx + 1 < n {
            out.push(',');
        }
        proof {
            assert(out@.skip(old(out)@.len() + 1 as int) =~= emitted + (seq!['\n'] + spaces(
                2 * (ind + 1) as nat,
            ) + seq!['"'] + escape_string(vp[idx as int].0) + seq!['"', ':', ' '] + encoded(
                vp[idx as int].1,
                (ind + 1) as nat,
            ) + (if rest.len() > 1 {
                seq![',']
            } else {
                Seq::<char>::empty()
            })));
            assert(out@.subrange(0, old(out)@.len() + 1 as int) =~= old(out)@ + seq!['{']);
        }
        idx = idx + 1;
    }
    proof {
        lemma_depth_pairs_all_le(vp, (b - 1) as nat);
    }
    let ghost emitted = out@.skip(old(out)@.len() + 1 as int);
    proof {
        assert(out@ =~= out@.subrange(0, old(out)@.len() + 1 as int) + emitted);
    }
    out.push('\n');
    push_spaces(out, 2 * ind);
    out.push('}');
    proof {
        assert(vp.skip(n as int) =~= Seq::<(Seq<char>, JsonVal)>::empty());
        assert(encoded_pairs(vp, ind as nat) =~= emitted + (seq!['\n'] + spaces(2 * ind as nat)));
        assert(encoded(JsonVal::Obj(vp), ind as nat) == seq!['{'] + encoded_pairs(vp, ind as nat)
            + seq!['}']);
        assert(out@ =~= old(out)@ + (seq!['{'] + encoded_pairs(vp, ind as nat) + seq!['}']));
    }
    true
}

/// Pretty-prints a value with an explicit container-nesting limit: exactly
/// [`encoded`] at indentation zero plus a trailing newline, or
/// [`ErrorKind::MaxDepthExceeded`] exactly when the tree is nested deeper
/// than `limit`. The bound on `limit` keeps the indentation arithmetic
/// within `usize`; the default limit is far below it.
pub fn encode_with_limit(v: &Value, limit: usize) -> (r: Result<Vec<char>, JsonError>)
    requires
        2 * (limit as int) + 2 <= usize::MAX,
    ensures
        r is Ok <==> depth(v@) <= limit,
        (match r {
            Ok(out) => out@ == encoded(v@, 0) + seq!['\n'],
            Err(e) => e.kind == ErrorKind::MaxDepthExceeded && e.offset == 0,
        }),
{
    let mut out: Vec<char> = Vec::new();
    if encode_value_into(v, 0, limit, &mut out) {
        out.push('\n');
        proof {
            assert(out@ =~= encoded(v@, 0) + seq!['\n']);
        }
        Ok(out)
    } else {
        Err(JsonError { kind: ErrorKind::MaxDepthExceeded, offset: 0 })
    }
}

/// Pretty-prints a value with the default nesting limit
/// [`DEFAULT_MAX_DEPTH`].
pub fn encode(v: &Value) -> (r: Result<Vec<char>, JsonError>)
    ensures
        r is Ok <==> depth(v@) <= DEFAULT_MAX_DEPTH,
        (match r {
            Ok(out) => out@ == encoded(v@, 0) + seq!['\n'],
            Err(e) => e.kind == ErrorKind::MaxDepthExceeded && e.offset == 0,
        }),
{
    encode_with_limit(v, DEFAULT_MAX_DEPTH)
}

} // verus!
