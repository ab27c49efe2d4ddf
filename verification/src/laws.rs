//! Laws of the codec that hold for all inputs, stated and proved over the
//! spec functions that the decoder's and encoder's own contracts use.

use vstd::prelude::*;
use crate::encode::encoded;
use crate::encode::escape_char;
use crate::encode::escape_string;
use crate::encode::hex_digit;
use crate::model::JsonVal;
use crate::model::depth;
use crate::model::depth_elems;
use crate::model::depth_pairs;
use crate::model::distinct_keys;
use crate::model::wf;
use crate::model::wf_elems;
use crate::model::wf_pairs;
use crate::model::obj_insert;
use crate::model::obj_lookup;
use crate::parse::parse_array_body;
use crate::parse::parse_elems;
use crate::parse::parse_members;
use crate::parse::parse_object_body;
use crate::parse::parse_value;
use crate::parse::spec_decode;
use crate::scan::clamp;
use crate::scan::hex4;
use crate::scan::hex_val;
use crate::scan::is_digit;
use crate::scan::is_hex;
use crate::scan::is_ws;
use crate::scan::kw_false;
use crate::scan::kw_null;
use crate::scan::kw_true;
use crate::scan::scan_alpha;
use crate::scan::scan_digits;
use crate::scan::scan_exp;
use crate::scan::scan_frac;
use crate::scan::scan_number;
use crate::scan::scan_string_from;
use crate::scan::skip_ws;
use crate::scan::tokenize_from;
use crate::scan::valid_number;
use crate::scan::STok;
use crate::scan::Tok;
use crate::errors::ErrorKind;

verus! {

broadcast use vstd::seq::group_seq_axioms;

// ---------------------------------------------------------------------------
// last write wins
// ---------------------------------------------------------------------------

/// Inserting a member overwrites the value under its key: looking the key
/// up afterwards finds exactly the new value, whether or not the key was
/// already present.
pub proof fn lemma_obj_insert_last_write_wins(
    pairs: Seq<(Seq<char>, JsonVal)>,
    k: Seq<char>,
    v: JsonVal,
)
    ensures
        obj_lookup(obj_insert(pairs, k, v), k) == Some(v),
    decreases pairs,
{
    if pairs.len() == 0 {
        assert(obj_lookup(seq![(k, v)], k) == Some(v));
    } else if pairs[0].0 == k {
        assert((seq![(k, v)] + pairs.drop_first())[0] == (k, v));
    } else {
        lemma_obj_insert_last_write_wins(pairs.drop_first(), k, v);
        let r = seq![pairs[0]] + obj_insert(pairs.drop_first(), k, v);
        assert(r[0] == pairs[0]);
        assert(r.drop_first() =~= obj_insert(pairs.drop_first(), k, v));
    }
}

/// Inserting a member leaves every other key's value alone.
pub proof fn lemma_obj_insert_other_key(
    pairs: Seq<(Seq<char>, JsonVal)>,
    k: Seq<char>,
    v: JsonVal,
    k2: Seq<char>,
)
    requires
        k2 != k,
    ensures
        obj_lookup(obj_insert(pairs, k, v), k2) == obj_lookup(pairs, k2),
    decreases pairs,
{
    if pairs.len() == 0 {
        let r = obj_insert(pairs, k, v);
        assert(r == seq![(k, v)]);
        assert(r[0] == (k, v));
        assert(r.drop_first() =~= Seq::<(Seq<char>, JsonVal)>::empty());
        assert(obj_lookup(r, k2) == obj_lookup(r.drop_first(), k2));
    } else if pairs[0].0 == k {
        let r = obj_insert(pairs, k, v);
        assert(r == seq![(k, v)] + pairs.drop_first());
        assert(r[0] == (k, v));
        assert(r.drop_first() =~= pairs.drop_first());
        assert(obj_lookup(r, k2) == obj_lookup(pairs.drop_first(), k2));
        assert(obj_lookup(pairs, k2) == obj_lookup(pairs.drop_first(), k2));
    } else {
        lemma_obj_insert_other_key(pairs.drop_first(), k, v, k2);
        let r = obj_insert(pairs, k, v);
        assert(r == seq![pairs[0]] + obj_insert(pairs.drop_first(), k, v));
        assert(r[0] == pairs[0]);
        assert(r.len() >= 1);
        assert(r.drop_first() =~= obj_insert(pairs.drop_first(), k, v));
        if pairs[0].0 == k2 {
            assert(obj_lookup(r, k2) == Some(pairs[0].1));
        } else {
            assert(obj_lookup(r, k2) == obj_lookup(r.drop_first(), k2));
        }
    }
}

// ---------------------------------------------------------------------------
// the depth guard
// ---------------------------------------------------------------------------

/// Inserting a member bounded by `bound` into members bounded by `bound`
/// stays bounded by `bound`.
proof fn lemma_obj_insert_depth(
    pairs: Seq<(Seq<char>, JsonVal)>,
    k: Seq<char>,
    v: JsonVal,
    bound: nat,
)
    requires
        depth_pairs(pairs) <= bound,
        depth(v) <= bound,
    ensures
        depth_pairs(obj_insert(pairs, k, v)) <= bound,
    decreases pairs,
{
    if pairs.len() == 0 {
        let r = obj_insert(pairs, k, v);
        assert(r == seq![(k, v)]);
        assert(r[0] == (k, v));
        assert(r.drop_first() =~= Seq::<(Seq<char>, JsonVal)>::empty());
        assert(depth_pairs(r.drop_first()) == 0);
        assert(depth_pairs(r) <= bound);
    } else if pairs[0].0 == k {
        let r = obj_insert(pairs, k, v);
        assert(r == seq![(k, v)] + pairs.drop_first());
        assert(r[0] == (k, v));
        assert(r.drop_first() =~= pairs.drop_first());
        assert(depth_pairs(pairs.drop_first()) <= depth_pairs(pairs));
        assert(depth_pairs(r) <= bound);
    } else {
        lemma_obj_insert_depth(pairs.drop_first(), k, v, bound);
        let r = obj_insert(pairs, k, v);
        assert(r == seq![pairs[0]] + obj_insert(pairs.drop_first(), k, v));
        assert(r[0] == pairs[0]);
        assert(r.drop_first() =~= obj_insert(pairs.drop_first(), k, v));
        assert(depth(pairs[0].1) <= depth_pairs(pairs));
        assert(depth_pairs(r) <= bound);
    }
}

/// Appending an element bounded by `bound` to elements bounded by `bound`
/// stays bounded by `bound`.
proof fn lemma_depth_elems_push(elems: Seq<JsonVal>, v: JsonVal, bound: nat)
    requires
        depth_elems(elems) <= bound,
        depth(v) <= bound,
    ensures
        depth_elems(elems.push(v)) <= bound,
    decreases elems,
{
    let r = elems.push(v);
    if elems.len() == 0 {
        assert(r[0] == v);
        assert(r.drop_first() =~= Seq::<JsonVal>::empty());
        assert(depth_elems(r.drop_first()) == 0);
        assert(depth_elems(r) <= bound);
    } else {
        lemma_depth_elems_push(elems.drop_first(), v, bound);
        assert(r[0] == elems[0]);
        assert(r.drop_first() =~= elems.drop_first().push(v));
        assert(depth(elems[0]) <= depth_elems(elems));
        assert(depth_elems(r) <= bound);
    }
}

proof fn lemma_parse_value_depth(toks: Seq<STok>, i: int, b: nat)
    requires
        0 <= i <= toks.len(),
    ensures
        (match parse_value(toks, i, b) {
            Ok((v, j)) => depth(v) <= b,
            Err(_) => true,
        }),
    decreases b, toks.len() - i, 0int,
{
    if i < toks.len() {
        match toks[i].kind {
            Tok::LBrace => {
                if b > 0 {
                    lemma_parse_object_body_depth(toks, i + 1, (b - 1) as nat);
                }
            },
            Tok::LBrack => {
                if b > 0 {
                    lemma_parse_array_body_depth(toks, i + 1, (b - 1) as nat);
                }
            },
            _ => {},
        }
    }
}

proof fn lemma_parse_object_body_depth(toks: Seq<STok>, i: int, b: nat)
    requires
        0 <= i <= toks.len(),
    ensures
        (match parse_object_body(toks, i, b) {
            Ok((v, j)) => depth(v) <= b + 1,
            Err(_) => true,
        }),
    decreases b, toks.len() - i, 2int,
{
    if i < toks.len() && !(toks[i].kind is RBrace) {
        lemma_parse_members_depth(toks, i, b, Seq::empty());
    }
}

proof fn lemma_parse_members_depth(
    toks: Seq<STok>,
    i: int,
    b: nat,
    acc: Seq<(Seq<char>, JsonVal)>,
)
    requires
        0 <= i <= toks.len(),
        depth_pairs(acc) <= b,
    ensures
        (match parse_members(toks, i, b, acc) {
            Ok((v, j)) => depth(v) <= b + 1,
            Err(_) => true,
        }),
    decreases b, toks.len() - i, 1int,
{
    if i < toks.len() {
        match toks[i].kind {
            Tok::StrTok(k) => {
                if i + 1 < toks.len() && toks[i + 1].kind is Colon {
                    lemma_parse_value_depth(toks, i + 2, b);
                    match parse_value(toks, i + 2, b) {
                        Ok((v0, j0)) => {
                            let j = clamp(i + 3, j0, toks.len() as int);
                            lemma_obj_insert_depth(acc, k, v0, b);
                            if j < toks.len() && toks[j].kind is Comma {
                                lemma_parse_members_depth(toks, j + 1, b, obj_insert(acc, k, v0));
                            }
                        },
                        Err(_) => {},
                    }
                }
            },
            _ => {},
        }
    }
}

proof fn lemma_parse_array_body_depth(toks: Seq<STok>, i: int, b: nat)
    requires
        0 <= i <= toks.len(),
    ensures
        (match parse_array_body(toks, i, b) {
            Ok((v, j)) => depth(v) <= b + 1,
            Err(_) => true,
        }),
    decreases b, toks.len() - i, 2int,
{
    if i < toks.len() && !(toks[i].kind is RBrack) {
        lemma_parse_elems_depth(toks, i, b, Seq::empty());
    }
}

proof fn lemma_parse_elems_depth(toks: Seq<STok>, i: int, b: nat, acc: Seq<JsonVal>)
    requires
        0 <= i <= toks.len(),
        depth_elems(acc) <= b,
    ensures
        (match parse_elems(toks, i, b, acc) {
            Ok((v, j)) => depth(v) <= b + 1,
            Err(_) => true,
        }),
    decreases b, toks.len() - i, 1int,
{
    lemma_parse_value_depth(toks, i, b);
    match parse_value(toks, i, b) {
        Ok((v0, j0)) => {
            let j = clamp(i + 1, j0, toks.len() as int);
            lemma_depth_elems_push(acc, v0, b);
            if j < toks.len() && toks[j].kind is Comma {
                lemma_parse_elems_depth(toks, j + 1, b, acc.push(v0));
            }
        },
        Err(_) => {},
    }
}

// ---------------------------------------------------------------------------
// well-formedness of decoded values
// ---------------------------------------------------------------------------

/// Every number token in a stream carries a valid lexeme.
pub open spec fn nums_valid(ts: Seq<STok>) -> bool {
    forall|i: int|
        0 <= i < ts.len() ==> ((#[trigger] ts[i]).kind is NumTok ==> valid_number(
            ts[i].kind->NumTok_0,
        ))
}

proof fn lemma_nums_valid_cons(t: STok, rest: Seq<STok>)
    requires
        t.kind is NumTok ==> valid_number(t.kind->NumTok_0),
        nums_valid(rest),
    ensures
        nums_valid(seq![t] + rest),
{
    let r = seq![t] + rest;
    assert(r[0] == t);
    assert(forall|m: int| 1 <= m < r.len() ==> r[m] == rest[m - 1]);
}

/// The scanner only emits valid number lexemes.
proof fn lemma_tokenize_nums_valid(s: Seq<char>, pos: int)
    requires
        0 <= pos <= s.len(),
    ensures
        nums_valid(tokenize_from(s, pos)),
    decreases s.len() - pos,
{
    broadcast use lemma_scan_digits_bounds;

    let p = clamp(pos, skip_ws(s, pos), s.len() as int);
    if p >= s.len() {
        let ts = tokenize_from(s, pos);
        assert(ts.len() == 1 && !(ts[0].kind is NumTok));
    } else {
        let c = s[p];
        if c == '{' || c == '}' || c == '[' || c == ']' || c == ':' || c == ',' {
            lemma_tokenize_nums_valid(s, p + 1);
            lemma_nums_valid_cons(tokenize_from(s, pos)[0], tokenize_from(s, p + 1));
        } else if c == '"' {
            match scan_string_from(s, p + 1, Seq::empty()) {
                Ok((content, end)) => {
                    let e2 = clamp(p + 1, end, s.len() as int);
                    lemma_tokenize_nums_valid(s, e2);
                    lemma_nums_valid_cons(
                        STok { kind: Tok::StrTok(content), off: p },
                        tokenize_from(s, e2),
                    );
                },
                Err((k, o)) => {
                    let ts = tokenize_from(s, pos);
                    assert(ts.len() == 1 && !(ts[0].kind is NumTok));
                },
            }
        } else if c == '-' || is_digit(c) {
            match scan_number(s, p) {
                Ok(end) => {
                    lemma_scan_number_bounds(s, p);
                    let e2 = clamp(p + 1, end, s.len() as int);
                    assert(e2 == end);
                    lemma_scan_number_window(s, p, end);
                    lemma_tokenize_nums_valid(s, e2);
                    lemma_nums_valid_cons(
                        STok { kind: Tok::NumTok(s.subrange(p, e2)), off: p },
                        tokenize_from(s, e2),
                    );
                },
                Err((k, o)) => {
                    let ts = tokenize_from(s, pos);
                    assert(ts.len() == 1 && !(ts[0].kind is NumTok));
                },
            }
        } else if crate::scan::is_alpha(c) {
            let e2 = clamp(p + 1, scan_alpha(s, p), s.len() as int);
            let w = s.subrange(p, e2);
            if w == kw_true() || w == kw_false() || w == kw_null() {
                lemma_tokenize_nums_valid(s, e2);
                lemma_nums_valid_cons(tokenize_from(s, pos)[0], tokenize_from(s, e2));
            } else {
                let ts = tokenize_from(s, pos);
                assert(ts.len() == 1 && !(ts[0].kind is NumTok));
            }
        } else {
            let ts = tokenize_from(s, pos);
            assert(ts.len() == 1 && !(ts[0].kind is NumTok));
        }
    }
}

/// Inserting a well-formed value among well-formed members keeps all
/// members well-formed.
proof fn lemma_obj_insert_wf(pairs: Seq<(Seq<char>, JsonVal)>, k: Seq<char>, v: JsonVal)
    requires
        wf_pairs(pairs),
        wf(v),
    ensures
        wf_pairs(obj_insert(pairs, k, v)),
    decreases pairs,
{
    let r = obj_insert(pairs, k, v);
    if pairs.len() == 0 {
        assert(r == seq![(k, v)]);
        assert(r[0] == (k, v));
        assert(r.drop_first() =~= Seq::<(Seq<char>, JsonVal)>::empty());
        assert(wf_pairs(Seq::<(Seq<char>, JsonVal)>::empty()));
        assert(wf_pairs(r));
    } else if pairs[0].0 == k {
        assert(r == seq![(k, v)] + pairs.drop_first());
        assert(r[0] == (k, v));
        assert(r.drop_first() =~= pairs.drop_first());
        assert(wf_pairs(r));
    } else {
        lemma_obj_insert_wf(pairs.drop_first(), k, v);
        assert(r == seq![pairs[0]] + obj_insert(pairs.drop_first(), k, v));
        assert(r[0] == pairs[0]);
        assert(r.drop_first() =~= obj_insert(pairs.drop_first(), k, v));
        assert(wf_pairs(r));
    }
}

/// Every key of an inserted member list is the inserted key or one that was
/// already there.
proof fn lemma_obj_insert_keys(pairs: Seq<(Seq<char>, JsonVal)>, k: Seq<char>, v: JsonVal)
    ensures
        forall|m: int|
            0 <= m < obj_insert(pairs, k, v).len() ==> ((#[trigger] obj_insert(pairs, k, v)[m]).0
                == k || exists|n: int|
                0 <= n < pairs.len() && (#[trigger] pairs[n]).0 == obj_insert(pairs, k, v)[m].0),
    decreases pairs,
{
    let r = obj_insert(pairs, k, v);
    if pairs.len() == 0 {
        assert(r == seq![(k, v)]);
        assert(r[0] == (k, v));
    } else if pairs[0].0 == k {
        assert(r == seq![(k, v)] + pairs.drop_first());
        assert(r[0] == (k, v));
        assert(forall|m: int| 1 <= m < r.len() ==> r[m] == pairs[m]);
    } else {
        lemma_obj_insert_keys(pairs.drop_first(), k, v);
        assert(r == seq![pairs[0]] + obj_insert(pairs.drop_first(), k, v));
        assert(r[0] == pairs[0]);
        assert(forall|m: int|
            1 <= m < r.len() ==> r[m] == obj_insert(pairs.drop_first(), k, v)[m - 1]);
        assert(forall|n: int|
            0 <= n < pairs.drop_first().len() ==> pairs.drop_first()[n] == pairs[n + 1]);
    }
}

/// Inserting keeps the keys distinct.
proof fn lemma_obj_insert_distinct(pairs: Seq<(Seq<char>, JsonVal)>, k: Seq<char>, v: JsonVal)
    requires
        distinct_keys(pairs),
    ensures
        distinct_keys(obj_insert(pairs, k, v)),
    decreases pairs,
{
    let r = obj_insert(pairs, k, v);
    if pairs.len() == 0 {
        assert(r == seq![(k, v)]);
    } else if pairs[0].0 == k {
        assert(r == seq![(k, v)] + pairs.drop_first());
        assert(r[0] == (k, v));
        assert(forall|m: int| 1 <= m < r.len() ==> r[m] == pairs[m]);
    } else {
        assert(forall|n: int|
            0 <= n < pairs.drop_first().len() ==> pairs.drop_first()[n] == pairs[n + 1]);
        lemma_obj_insert_distinct(pairs.drop_first(), k, v);
        lemma_obj_insert_keys(pairs.drop_first(), k, v);
        assert(r == seq![pairs[0]] + obj_insert(pairs.drop_first(), k, v));
        assert(r[0] == pairs[0]);
        assert(forall|m: int|
            1 <= m < r.len() ==> r[m] == obj_insert(pairs.drop_first(), k, v)[m - 1]);
        assert(forall|m: int| 1 <= m < r.len() ==> r[m].0 != pairs[0].0);
    }
}

/// Appending a well-formed element keeps all elements well-formed.
proof fn lemma_wf_elems_push(elems: Seq<JsonVal>, v: JsonVal)
    requires
        wf_elems(elems),
        wf(v),
    ensures
        wf_elems(elems.push(v)),
    decreases elems,
{
    let r = elems.push(v);
    if elems.len() == 0 {
        assert(r[0] == v);
        assert(r.drop_first() =~= Seq::<JsonVal>::empty());
        assert(wf_elems(Seq::<JsonVal>::empty()));
        assert(wf_elems(r));
    } else {
        lemma_wf_elems_push(elems.drop_first(), v);
        assert(r[0] == elems[0]);
        assert(r.drop_first() =~= elems.drop_first().push(v));
        assert(wf_elems(r));
    }
}

proof fn lemma_parse_value_wf(toks: Seq<STok>, i: int, b: nat)
    requires
        0 <= i <= toks.len(),
        nums_valid(toks),
    ensures
        (match parse_value(toks, i, b) {
            Ok((v, j)) => wf(v),
            Err(_) => true,
        }),
    decreases b, toks.len() - i, 0int,
{
    if i < toks.len() {
        match toks[i].kind {
            Tok::LBrace => {
                if b > 0 {
                    lemma_parse_object_body_wf(toks, i + 1, (b - 1) as nat);
                }
            },
            Tok::LBrack => {
                if b > 0 {
                    lemma_parse_array_body_wf(toks, i + 1, (b - 1) as nat);
                }
            },
            _ => {},
        }
    }
}

proof fn lemma_parse_object_body_wf(toks: Seq<STok>, i: int, b: nat)
    requires
        0 <= i <= toks.len(),
        nums_valid(toks),
    ensures
        (match parse_object_body(toks, i, b) {
            Ok((v, j)) => wf(v),
            Err(_) => true,
        }),
    decreases b, toks.len() - i, 2int,
{
    if i < toks.len() && !(toks[i].kind is RBrace) {
        lemma_parse_members_wf(toks, i, b, Seq::empty());
    }
}

proof fn lemma_parse_members_wf(toks: Seq<STok>, i: int, b: nat, acc: Seq<(Seq<char>, JsonVal)>)
    requires
        0 <= i <= toks.len(),
        nums_valid(toks),
        wf_pairs(acc),
        distinct_keys(acc),
    ensures
        (match parse_members(toks, i, b, acc) {
            Ok((v, j)) => wf(v),
            Err(_) => true,
        }),
    decreases b, toks.len() - i, 1int,
{
    if i < toks.len() {
        match toks[i].kind {
            Tok::StrTok(k) => {
                if i + 1 < toks.len() && toks[i + 1].kind is Colon {
                    lemma_parse_value_wf(toks, i + 2, b);
                    match parse_value(toks, i + 2, b) {
                        Ok((v0, j0)) => {
                            let j = clamp(i + 3, j0, toks.len() as int);
                            lemma_obj_insert_wf(acc, k, v0);
                            lemma_obj_insert_distinct(acc, k, v0);
                            if j < toks.len() && toks[j].kind is Comma {
                                lemma_parse_members_wf(toks, j + 1, b, obj_insert(acc, k, v0));
                            }
                        },
                        Err(_) => {},
                    }
                }
            },
            _ => {},
        }
    }
}

proof fn lemma_parse_array_body_wf(toks: Seq<STok>, i: int, b: nat)
    requires
        0 <= i <= toks.len(),
        nums_valid(toks),
    ensures
        (match parse_array_body(toks, i, b) {
            Ok((v, j)) => wf(v),
            Err(_) => true,
        }),
    decreases b, toks.len() - i, 2int,
{
    if i < toks.len() && !(toks[i].kind is RBrack) {
        lemma_parse_elems_wf(toks, i, b, Seq::empty());
    }
}

proof fn lemma_parse_elems_wf(toks: Seq<STok>, i: int, b: nat, acc: Seq<JsonVal>)
    requires
        0 <= i <= toks.len(),
        nums_valid(toks),
        wf_elems(acc),
    ensures
        (match parse_elems(toks, i, b, acc) {
            Ok((v, j)) => wf(v),
            Err(_) => true,
        }),
    decreases b, toks.len() - i, 1int,
{
    lemma_parse_value_wf(toks, i, b);
    match parse_value(toks, i, b) {
        Ok((v0, j0)) => {
            let j = clamp(i + 1, j0, toks.len() as int);
            lemma_wf_elems_push(acc, v0);
            if j < toks.len() && toks[j].kind is Comma {
                lemma_parse_elems_wf(toks, j + 1, b, acc.push(v0));
            }
        },
        Err(_) => {},
    }
}

/// The decoder only produces well-formed trees: every number lexeme in a
/// decoded value is exactly one JSON numeric literal, and every object's
/// keys are distinct (a duplicate in the input was resolved last-write-wins
/// while parsing).
pub proof fn lemma_decode_wf(s: Seq<char>, limit: nat)
    ensures
        (match spec_decode(s, limit) {
            Ok(v) => wf(v),
            Err(_) => true,
        }),
{
    lemma_tokenize_nums_valid(s, 0);
    lemma_parse_value_wf(tokenize_from(s, 0), 0, limit);
}

// ---------------------------------------------------------------------------
// whitespace insensitivity
// ---------------------------------------------------------------------------

/// Two token streams that agree token for token — same kinds, same
/// payloads, offsets free to differ.
pub open spec fn same_kinds(t1: Seq<STok>, t2: Seq<STok>) -> bool {
    t1.len() == t2.len() && forall|i: int|
        0 <= i < t1.len() ==> (#[trigger] t1[i]).kind == (#[trigger] t2[i]).kind
}

proof fn lemma_parse_value_same(t1: Seq<STok>, t2: Seq<STok>, i: int, b: nat)
    requires
        0 <= i <= t1.len(),
        same_kinds(t1, t2),
    ensures
        (match parse_value(t1, i, b) {
            Ok(r) => parse_value(t2, i, b) == Result::<(JsonVal, int), (ErrorKind, int)>::Ok(r),
            Err(_) => true,
        }),
    decreases b, t1.len() - i, 0int,
{
    if i < t1.len() {
        assert(t1[i].kind == t2[i].kind);
        match t1[i].kind {
            Tok::LBrace => {
                if b > 0 {
                    lemma_parse_object_body_same(t1, t2, i + 1, (b - 1) as nat);
                }
            },
            Tok::LBrack => {
                if b > 0 {
                    lemma_parse_array_body_same(t1, t2, i + 1, (b - 1) as nat);
                }
            },
            _ => {},
        }
    }
}

proof fn lemma_parse_object_body_same(t1: Seq<STok>, t2: Seq<STok>, i: int, b: nat)
    requires
        0 <= i <= t1.len(),
        same_kinds(t1, t2),
    ensures
        (match parse_object_body(t1, i, b) {
            Ok(r) => parse_object_body(t2, i, b) == Result::<
                (JsonVal, int),
                (ErrorKind, int),
            >::Ok(r),
            Err(_) => true,
        }),
    decreases b, t1.len() - i, 2int,
{
    if i < t1.len() {
        assert(t1[i].kind == t2[i].kind);
        if !(t1[i].kind is RBrace) {
            lemma_parse_members_same(t1, t2, i, b, Seq::empty());
        }
    }
}

proof fn lemma_parse_members_same(
    t1: Seq<STok>,
    t2: Seq<STok>,
    i: int,
    b: nat,
    acc: Seq<(Seq<char>, JsonVal)>,
)
    requires
        0 <= i <= t1.len(),
        same_kinds(t1, t2),
    ensures
        (match parse_members(t1, i, b, acc) {
            Ok(r) => parse_members(t2, i, b, acc) == Result::<
                (JsonVal, int),
                (ErrorKind, int),
            >::Ok(r),
            Err(_) => true,
        }),
    decreases b, t1.len() - i, 1int,
{
    if i < t1.len() {
        assert(t1[i].kind == t2[i].kind);
        match t1[i].kind {
            Tok::StrTok(k) => {
                if i + 1 < t1.len() {
                    assert(t1[i + 1].kind == t2[i + 1].kind);
                    if t1[i + 1].kind is Colon {
                        lemma_parse_value_same(t1, t2, i + 2, b);
                        match parse_value(t1, i + 2, b) {
                            Ok((v0, j0)) => {
                                let j = clamp(i + 3, j0, t1.len() as int);
                                if j < t1.len() {
                                    assert(t1[j].kind == t2[j].kind);
                                    if t1[j].kind is Comma {
                                        lemma_parse_members_same(
                                            t1,
                                            t2,
                                            j + 1,
                                            b,
                                            obj_insert(acc, k, v0),
                                        );
                                    }
                                }
                            },
                            Err(_) => {},
                        }
                    }
                }
            },
            _ => {},
        }
    }
}

proof fn lemma_parse_array_body_same(t1: Seq<STok>, t2: Seq<STok>, i: int, b: nat)
    requires
        0 <= i <= t1.len(),
        same_kinds(t1, t2),
    ensures
        (match parse_array_body(t1, i, b) {
            Ok(r) => parse_array_body(t2, i, b) == Result::<
                (JsonVal, int),
                (ErrorKind, int),
            >::Ok(r),
            Err(_) => true,
        }),
    decreases b, t1.len() - i, 2int,
{
    if i < t1.len() {
        assert(t1[i].kind == t2[i].kind);
        if !(t1[i].kind is RBrack) {
            lemma_parse_elems_same(t1, t2, i, b, Seq::empty());
        }
    }
}

proof fn lemma_parse_elems_same(t1: Seq<STok>, t2: Seq<STok>, i: int, b: nat, acc: Seq<JsonVal>)
    requires
        0 <= i <= t1.len(),
        same_kinds(t1, t2),
    ensures
        (match parse_elems(t1, i, b, acc) {
            Ok(r) => parse_elems(t2, i, b, acc) == Result::<(JsonVal, int), (ErrorKind, int)>::Ok(
                r,
            ),
            Err(_) => true,
        }),
    decreases b, t1.len() - i, 1int,
{
    lemma_parse_value_same(t1, t2, i, b);
    match parse_value(t1, i, b) {
        Ok((v0, j0)) => {
            let j = clamp(i + 1, j0, t1.len() as int);
            if j < t1.len() {
                assert(t1[j].kind == t2[j].kind);
                if t1[j].kind is Comma {
                    lemma_parse_elems_same(t1, t2, j + 1, b, acc.push(v0));
                }
            }
        },
        Err(_) => {},
    }
}

/// Whitespace insensitivity: the scanner is the only part of the decoder
/// that sees whitespace, so two inputs that scan to the same tokens — as
/// inputs differing only in whitespace between tokens do — decode to the
/// identical tree whenever the first decodes at all.
pub proof fn lemma_whitespace_insensitive(s1: Seq<char>, s2: Seq<char>, limit: nat)
    requires
        same_kinds(tokenize_from(s1, 0), tokenize_from(s2, 0)),
    ensures
        (match spec_decode(s1, limit) {
            Ok(v) => spec_decode(s2, limit) == Result::<JsonVal, (ErrorKind, int)>::Ok(v),
            Err(_) => true,
        }),
{
    let t1 = tokenize_from(s1, 0);
    let t2 = tokenize_from(s2, 0);
    lemma_parse_value_same(t1, t2, 0, limit);
    match parse_value(t1, 0, limit) {
        Ok((v, j)) => {
            if 0 <= j < t1.len() {
                assert(t1[j].kind == t2[j].kind);
            }
        },
        Err(_) => {},
    }
}

// ---------------------------------------------------------------------------
// the round trip, for leaf values
// ---------------------------------------------------------------------------

/// A digit run is bounded by the positions it scans.
broadcast proof fn lemma_scan_digits_bounds(s: Seq<char>, pos: int)
    ensures
        0 <= pos <= s.len() ==> pos <= #[trigger] scan_digits(s, pos) <= s.len(),
    decreases s.len() - pos,
{
    if 0 <= pos <= s.len() {
        if pos < s.len() && is_digit(s[pos]) {
            lemma_scan_digits_bounds(s, pos + 1);
        }
    }
}

/// Appending text that does not begin with a digit does not change where a
/// digit run ends.
broadcast proof fn lemma_scan_digits_append(s: Seq<char>, rest: Seq<char>, pos: int)
    ensures
        (0 <= pos <= s.len() && rest.len() > 0 && !is_digit(rest[0])) ==> #[trigger] scan_digits(
            s + rest,
            pos,
        ) == scan_digits(s, pos),
    decreases s.len() - pos,
{
    if 0 <= pos <= s.len() && rest.len() > 0 && !is_digit(rest[0]) {
        let t = s + rest;
        if pos < s.len() {
            assert(t[pos] == s[pos]);
            if is_digit(s[pos]) {
                lemma_scan_digits_append(s, rest, pos + 1);
            }
        } else {
            assert(t[pos] == rest[0]);
        }
    }
}

/// A successful number scan moves forward and stays in bounds.
proof fn lemma_scan_number_bounds(s: Seq<char>, pos: int)
    requires
        0 <= pos,
    ensures
        (match scan_number(s, pos) {
            Ok(e) => pos < e <= s.len(),
            Err(_) => true,
        }),
{
    broadcast use lemma_scan_digits_bounds;

}

/// A digit run within a window of the text is the digit run of the window.
proof fn lemma_scan_digits_window(s: Seq<char>, a: int, b: int, pos: int)
    requires
        0 <= a <= pos <= b <= s.len(),
        scan_digits(s, pos) <= b,
    ensures
        scan_digits(s.subrange(a, b), pos - a) == scan_digits(s, pos) - a,
    decreases b - pos,
{
    broadcast use lemma_scan_digits_bounds;

    let w = s.subrange(a, b);
    if pos < b {
        assert(w[pos - a] == s[pos]);
        if is_digit(s[pos]) {
            lemma_scan_digits_window(s, a, b, pos + 1);
        }
    }
}

/// The lexeme a successful number scan cuts out is itself a valid number.
#[verifier::rlimit(100)]
proof fn lemma_scan_number_window(s: Seq<char>, pos: int, e: int)
    requires
        0 <= pos,
        scan_number(s, pos) == Result::<int, (ErrorKind, int)>::Ok(e),
    ensures
        valid_number(s.subrange(pos, e)),
{
    broadcast use lemma_scan_digits_bounds;

    lemma_scan_number_bounds(s, pos);
    let w = s.subrange(pos, e);
    assert(forall|m: int| 0 <= m < w.len() ==> w[m] == s[pos + m]);
    let p1 = if pos < s.len() && s[pos] == '-' {
        pos + 1
    } else {
        pos
    };
    assert(p1 < s.len() && is_digit(s[p1]));
    let ip = if s[p1] == '0' {
        p1 + 1
    } else {
        scan_digits(s, p1)
    };
    assert(!(ip < s.len() && is_digit(s[ip])));
    let f = if ip < s.len() && s[ip] == '.' {
        scan_digits(s, ip + 1)
    } else {
        ip
    };
    assert(scan_frac(s, ip) == Result::<int, (ErrorKind, int)>::Ok(f));
    assert(scan_exp(s, f) == Result::<int, (ErrorKind, int)>::Ok(e));
    assert(pos <= p1 <= ip <= f <= e);
    if p1 > pos {
        assert(w[0] == '-');
    }
    assert(p1 - pos < w.len() && is_digit(w[p1 - pos]));
    if s[p1] != '0' {
        assert(scan_digits(s, p1) == ip);
        lemma_scan_digits_window(s, pos, e, p1);
        assert(scan_digits(w, p1 - pos) == ip - pos);
    }
    assert(!(ip - pos < w.len() && is_digit(w[ip - pos])));
    if ip < s.len() && s[ip] == '.' {
        assert(ip < e);
        assert(w[ip - pos] == '.');
        assert(ip + 1 < s.len() && is_digit(s[ip + 1]));
        assert(scan_digits(s, ip + 1) == scan_digits(s, ip + 2));
        assert(f >= ip + 2);
        assert(ip + 1 < e);
        lemma_scan_digits_window(s, pos, e, ip + 1);
        assert(scan_frac(w, ip - pos) == Result::<int, (ErrorKind, int)>::Ok(f - pos));
    } else {
        assert(!(ip - pos < w.len() && w[ip - pos] == '.'));
        assert(scan_frac(w, ip - pos) == Result::<int, (ErrorKind, int)>::Ok(f - pos));
    }
    if f < s.len() && (s[f] == 'e' || s[f] == 'E') {
        assert(f < e);
        assert(w[f - pos] == s[f]);
        let j = if f + 1 < s.len() && (s[f + 1] == '+' || s[f + 1] == '-') {
            f + 2
        } else {
            f + 1
        };
        assert(j < s.len() && is_digit(s[j]));
        assert(scan_digits(s, j) == e);
        assert(scan_digits(s, j) == scan_digits(s, j + 1));
        assert(e >= j + 1);
        if f + 1 < s.len() && (s[f + 1] == '+' || s[f + 1] == '-') {
            assert(f + 1 < e);
            assert(w[f + 1 - pos] == s[f + 1]);
        }
        assert(j < e);
        assert(w[j - pos] == s[j]);
        lemma_scan_digits_window(s, pos, e, j);
        assert(scan_exp(w, f - pos) == Result::<int, (ErrorKind, int)>::Ok(e - pos));
    } else {
        assert(!(f - pos < w.len() && (w[f - pos] == 'e' || w[f - pos] == 'E')));
        assert(scan_exp(w, f - pos) == Result::<int, (ErrorKind, int)>::Ok(e - pos));
    }
    assert(scan_number(w, 0) == Result::<int, (ErrorKind, int)>::Ok(w.len() as int));
}

/// Re-lexing: a valid numeric lexeme followed by anything that cannot
/// extend a number scans to exactly the lexeme again.
#[verifier::rlimit(60)]
proof fn lemma_scan_number_append(s: Seq<char>, rest: Seq<char>)
    requires
        valid_number(s),
        rest.len() > 0,
        !is_digit(rest[0]),
        rest[0] != '.',
        rest[0] != 'e',
        rest[0] != 'E',
    ensures
        scan_number(s + rest, 0) == Result::<int, (ErrorKind, int)>::Ok(s.len() as int),
{
    broadcast use lemma_scan_digits_bounds, lemma_scan_digits_append;

    let t = s + rest;
    assert(forall|i: int| 0 <= i < s.len() ==> t[i] == s[i]);
    assert(forall|i: int|
        s.len() <= i < t.len() ==> t[i] == rest[i - s.len()]);
    assert(scan_number(s, 0) == Result::<int, (ErrorKind, int)>::Ok(s.len() as int));
}

/// Decoding the rendering of a well-formed number gives the number back.
proof fn lemma_decode_num(lex: Seq<char>, limit: nat)
    requires
        valid_number(lex),
    ensures
        spec_decode(lex + seq!['\n'], limit) == Result::<JsonVal, (ErrorKind, int)>::Ok(
            JsonVal::Num(lex),
        ),
{
    broadcast use lemma_scan_digits_bounds;

    let t = lex + seq!['\n'];
    let nl = seq!['\n'];
    assert(nl[0] == '\n');
    lemma_scan_number_append(lex, nl);
    assert(lex.len() >= 1);
    let c = lex[0];
    assert(c == '-' || is_digit(c));
    assert(t[0] == c);
    assert(!is_ws(c));
    assert(skip_ws(t, 0) == 0);
    let e2 = clamp(1, lex.len() as int, t.len() as int);
    assert(e2 == lex.len() as int);
    assert(t.subrange(0, lex.len() as int) =~= lex);
    assert(t[lex.len() as int] == '\n');
    assert(skip_ws(t, lex.len() as int) == skip_ws(t, lex.len() + 1 as int));
    assert(skip_ws(t, t.len() as int) == t.len() as int);
    let toks = tokenize_from(t, 0);
    assert(tokenize_from(t, lex.len() as int) == seq![
        STok { kind: Tok::EofTok, off: t.len() as int },
    ]);
    assert(toks == seq![STok { kind: Tok::NumTok(lex), off: 0 }] + seq![
        STok { kind: Tok::EofTok, off: t.len() as int },
    ]);
    assert(toks.len() == 2);
    assert(toks[0] == STok { kind: Tok::NumTok(lex), off: 0 });
    assert(toks[1] == STok { kind: Tok::EofTok, off: t.len() as int });
    assert(parse_value(toks, 0, limit) == Result::<(JsonVal, int), (ErrorKind, int)>::Ok(
        (JsonVal::Num(lex), 1),
    ));
}

/// Decoding the rendering of a keyword gives the keyword's value back:
/// shared shape of `null`, `true` and `false`.
proof fn lemma_decode_keyword(t: Seq<char>, kw: Seq<char>, limit: nat, v: JsonVal)
    requires
        t == kw + seq!['\n'],
        kw == kw_null() || kw == kw_true() || kw == kw_false(),
        (kw == kw_null() ==> v == JsonVal::Null),
        (kw == kw_true() ==> v == JsonVal::Bool(true)),
        (kw == kw_false() ==> v == JsonVal::Bool(false)),
    ensures
        spec_decode(t, limit) == Result::<JsonVal, (ErrorKind, int)>::Ok(v),
{
    let n = kw.len() as int;
    assert(t[n] == '\n');
    assert(scan_alpha(t, n) == n);
    assert(scan_alpha(t, n - 1) == n);
    assert(scan_alpha(t, n - 2) == n);
    assert(scan_alpha(t, n - 3) == n);
    assert(scan_alpha(t, n - 4) == n);
    if kw == kw_false() {
        assert(scan_alpha(t, 0) == n);
    }
    assert(scan_alpha(t, 0) == n);
    assert(skip_ws(t, 0) == 0);
    let e2 = clamp(1, n, t.len() as int);
    assert(e2 == n);
    assert(t.subrange(0, n) =~= kw);
    assert(skip_ws(t, n) == skip_ws(t, n + 1));
    let toks = tokenize_from(t, 0);
    assert(tokenize_from(t, n) == seq![STok { kind: Tok::EofTok, off: t.len() as int }]);
    assert(toks.len() == 2);
    assert(toks[1] == STok { kind: Tok::EofTok, off: t.len() as int });
}

/// Reading back a hexadecimal digit gives the value it was written from.
proof fn lemma_hex_digit_val(v: int)
    requires
        0 <= v < 16,
    ensures
        is_hex(hex_digit(v)),
        hex_val(hex_digit(v)) == v,
{
}

/// Unescaping what [`escape_string`] wrote: scanning from `pos`, where the
/// text holds the escaped content followed by the closing quote, decodes to
/// exactly the original content.
#[verifier::rlimit(100)]
proof fn lemma_scan_string_escaped(t: Seq<char>, pos: int, s: Seq<char>, acc: Seq<char>)
    requires
        0 <= pos,
        pos + escape_string(s).len() + 1 <= t.len(),
        t.subrange(pos, pos + escape_string(s).len() + 1) == escape_string(s) + seq!['"'],
    ensures
        scan_string_from(t, pos, acc) == Result::<(Seq<char>, int), (ErrorKind, int)>::Ok(
            (acc + s, pos + escape_string(s).len() + 1),
        ),
    decreases s.len(),
{
    let esc = escape_string(s);
    let window = t.subrange(pos, pos + esc.len() + 1);
    if s.len() == 0 {
        assert(esc == Seq::<char>::empty());
        assert(t[pos] == window[0]);
        assert(t[pos] == '"');
        assert(acc + s =~= acc);
    } else {
        let c = s[0];
        let ec = escape_char(c);
        let esc_rest = escape_string(s.drop_first());
        assert(esc == ec + esc_rest);
        assert(window.len() == esc.len() + 1);
        assert(forall|m: int| 0 <= m < window.len() ==> window[m] == t[pos + m]);
        assert(forall|m: int| 0 <= m < esc.len() ==> window[m] == esc[m]);
        assert(window[esc.len() as int] == '"');
        assert(forall|m: int| 0 <= m < ec.len() ==> esc[m] == ec[m]);
        assert(forall|m: int| 0 <= m < ec.len() ==> t[pos + m] == ec[m]);
        assert(forall|m: int| 0 <= m < esc_rest.len() ==> esc[ec.len() + m] == esc_rest[m]);
        let pos2 = pos + ec.len();
        assert(t.subrange(pos2, pos2 + esc_rest.len() as int + 1) =~= esc_rest + seq!['"']);
        if c == '"' || c == '\\' || c == '\u{0008}' || c == '\u{000c}' || c == '\n' || c == '\r'
            || c == '\t' {
            assert(ec.len() == 2);
            assert(t[pos] == '\\');
            lemma_scan_string_escaped(t, pos2, s.drop_first(), acc.push(c));
            assert(acc.push(c) + s.drop_first() =~= acc + s);
        } else if (c as u32) < 0x20 {
            assert(ec.len() == 6);
            assert(t[pos] == '\\');
            assert(t[pos + 1] == 'u');
            assert(t[pos + 2] == '0');
            assert(t[pos + 3] == '0');
            let hi = (c as u32) as int / 16;
            let lo = (c as u32) as int % 16;
            assert(t[pos + 4] == hex_digit(hi));
            assert(t[pos + 5] == hex_digit(lo));
            lemma_hex_digit_val(hi);
            lemma_hex_digit_val(lo);
            assert(is_hex(t[pos + 2]) && is_hex(t[pos + 3]));
            assert(hex_val('0') == 0);
            let u = hex4(t, pos + 2);
            assert(u == Some(((hi * 16 + lo) as u32)));
            assert(hi * 16 + lo == c as u32);
            vstd::utf8::char_u32_cast(c, c as u32);
            assert(((c as u32) as char) == c);
            lemma_scan_string_escaped(t, pos2, s.drop_first(), acc.push(c));
            assert(acc.push(c) + s.drop_first() =~= acc + s);
        } else {
            assert(ec == seq![c]);
            assert(ec[0] == c);
            assert(t[pos + 0] == ec[0]);
            assert(t[pos] == c);
            lemma_scan_string_escaped(t, pos2, s.drop_first(), acc.push(c));
            assert(acc.push(c) + s.drop_first() =~= acc + s);
        }
    }
}

/// Decoding the rendering of a string value gives the string back.
proof fn lemma_decode_str(s: Seq<char>, limit: nat)
    ensures
        spec_decode(seq!['"'] + escape_string(s) + seq!['"'] + seq!['\n'], limit) == Result::<
            JsonVal,
            (ErrorKind, int),
        >::Ok(JsonVal::Str(s)),
{
    let esc = escape_string(s);
    let t = seq!['"'] + esc + seq!['"'] + seq!['\n'];
    assert(t[0] == '"');
    assert(!is_ws('"'));
    assert(skip_ws(t, 0) == 0);
    assert(t.subrange(1, 1 + esc.len() as int + 1) =~= esc + seq!['"']);
    lemma_scan_string_escaped(t, 1, s, Seq::empty());
    assert(Seq::<char>::empty() + s =~= s);
    let end: int = 1 + esc.len() as int + 1;
    assert(t[end as int] == '\n');
    assert(skip_ws(t, end as int) == skip_ws(t, end + 1 as int));
    assert(end + 1 == t.len());
    let toks = tokenize_from(t, 0);
    assert(tokenize_from(t, end as int) == seq![STok { kind: Tok::EofTok, off: t.len() as int }]);
    assert(clamp(1, end as int, t.len() as int) == end as int);
    assert(toks.len() == 2);
    assert(toks[0] == STok { kind: Tok::StrTok(s), off: 0 });
    assert(toks[1] == STok { kind: Tok::EofTok, off: t.len() as int });
}

/// Round trip for leaf values: rendering `null`, a boolean, a well-formed
/// number or a string and decoding the rendering gives the value back,
/// under any nesting limit. (For arrays and objects the same behaviour is
/// exercised by tests.)
pub proof fn lemma_round_trip_leaf(v: JsonVal, limit: nat)
    requires
        v is Null || v is Bool || v is Str || (v is Num && valid_number(v->Num_0)),
    ensures
        spec_decode(encoded(v, 0) + seq!['\n'], limit) == Result::<JsonVal, (ErrorKind, int)>::Ok(
            v,
        ),
{
    match v {
        JsonVal::Null => {
            lemma_decode_keyword(kw_null() + seq!['\n'], kw_null(), limit, v);
        },
        JsonVal::Bool(b) => {
            if b {
                lemma_decode_keyword(kw_true() + seq!['\n'], kw_true(), limit, v);
            } else {
                lemma_decode_keyword(kw_false() + seq!['\n'], kw_false(), limit, v);
            }
        },
        JsonVal::Num(lex) => {
            lemma_decode_num(lex, limit);
        },
        JsonVal::Str(s) => {
            lemma_decode_str(s, limit);
            assert(encoded(v, 0) + seq!['\n'] =~= seq!['"'] + escape_string(s) + seq!['"']
                + seq!['\n']);
        },
        _ => {},
    }
}

/// Idempotent pretty-printing, for leaf values: decoding a rendering and
/// rendering the result changes nothing, under any nesting limit. (For
/// arrays and objects the same behaviour is exercised by tests.)
pub proof fn lemma_idempotent_leaf(v: JsonVal, limit: nat)
    requires
        v is Null || v is Bool || v is Str || (v is Num && valid_number(v->Num_0)),
    ensures
        (match spec_decode(encoded(v, 0) + seq!['\n'], limit) {
            Ok(v2) => encoded(v2, 0) + seq!['\n'] == encoded(v, 0) + seq!['\n'],
            Err(_) => false,
        }),
{
    lemma_round_trip_leaf(v, limit);
}

/// The depth guard, seen from the decoder's result: a document the decoder
/// accepts under nesting limit `limit` never denotes a tree nested deeper
/// than `limit`. (The failing direction is observable: an input nested
/// deeper fails with `MaxDepthExceeded`, which the tests exercise.)
pub proof fn lemma_decode_depth(s: Seq<char>, limit: nat)
    ensures
        (match spec_decode(s, limit) {
            Ok(v) => depth(v) <= limit,
            Err(_) => true,
        }),
{
    lemma_parse_value_depth(tokenize_from(s, 0), 0, limit);
}

} // verus!
