//! The JSON data model: the executable [`Value`] tree and its mathematical
//! abstraction [`JsonVal`], together with well-formedness, nesting depth and
//! the insertion discipline of object members.

use vstd::prelude::*;
use crate::scan::valid_number;

verus! {

broadcast use vstd::std_specs::vec::group_vec_axioms, vstd::seq::group_seq_axioms;

/// The mathematical abstraction of a JSON document: what contracts and laws
/// speak about. Strings are sequences of Unicode scalar values, fully
/// unescaped; numbers are their raw lexemes; objects are ordered sequences
/// of key–value pairs.
pub enum JsonVal {
    Null,
    Bool(bool),
    Num(Seq<char>),
    Str(Seq<char>),
    Arr(Seq<JsonVal>),
    Obj(Seq<(Seq<char>, JsonVal)>),
}

/// The decoded in-memory representation of a JSON document.
///
/// `Number` keeps the literal's raw lexeme, so no precision is lost on a
/// round trip; `String` holds the unescaped scalar values; `Object` keeps
/// its members in insertion order, keys unique (a duplicate key during
/// decoding overwrites the value in place, last write wins).
///
/// The derived `PartialEq` is for callers and tests; contracts and laws
/// speak of the [`JsonVal`] view instead. No `Clone` is derived: on this
/// recursive type Verus cannot read the derived impl.
#[derive(Debug, PartialEq, Eq)]
pub enum Value {
    Null,
    Bool(bool),
    Number(Vec<char>),
    String(Vec<char>),
    Array(Vec<Value>),
    Object(Vec<(Vec<char>, Value)>),
}

impl View for Value {
    type V = JsonVal;

    open spec fn view(&self) -> JsonVal
        decreases self,
    {
        match self {
            Value::Null => JsonVal::Null,
            Value::Bool(b) => JsonVal::Bool(*b),
            Value::Number(lex) => JsonVal::Num(lex@),
            Value::String(s) => JsonVal::Str(s@),
            Value::Array(elems) => JsonVal::Arr(velems(elems@)),
            Value::Object(pairs) => JsonVal::Obj(vpairs(pairs@)),
        }
    }
}

/// The abstraction of a vector of array elements.
pub open spec fn velems(elems: Seq<Value>) -> Seq<JsonVal>
    decreases elems,
{
    if elems.len() == 0 {
        Seq::empty()
    } else {
        seq![elems[0]@] + velems(elems.drop_first())
    }
}

/// The abstraction of a vector of object members.
pub open spec fn vpairs(pairs: Seq<(Vec<char>, Value)>) -> Seq<(Seq<char>, JsonVal)>
    decreases pairs,
{
    if pairs.len() == 0 {
        Seq::empty()
    } else {
        seq![(pairs[0].0@, pairs[0].1@)] + vpairs(pairs.drop_first())
    }
}

/// [`velems`] keeps the length.
pub broadcast proof fn lemma_velems_len(elems: Seq<Value>)
    ensures
        (#[trigger] velems(elems)).len() == elems.len(),
    decreases elems,
{
    if elems.len() > 0 {
        lemma_velems_len(elems.drop_first());
        assert(velems(elems) == seq![elems[0]@] + velems(elems.drop_first()));
    } else {
        assert(velems(elems) == Seq::<JsonVal>::empty());
    }
}

/// [`velems`] maps element by element.
pub broadcast proof fn lemma_velems_index(elems: Seq<Value>, i: int)
    ensures
        0 <= i < elems.len() ==> #[trigger] velems(elems)[i] == elems[i]@,
    decreases elems,
{
    lemma_velems_len(elems);
    if elems.len() > 0 {
        lemma_velems_index(elems.drop_first(), i - 1);
        lemma_velems_len(elems.drop_first());
        if i == 0 {
            assert(velems(elems)[0] == elems[0]@);
        } else if 0 < i < elems.len() {
            assert(velems(elems)[i] == velems(elems.drop_first())[i - 1]);
            assert(elems.drop_first()[i - 1] == elems[i]);
        }
    }
}

/// [`vpairs`] keeps the length.
pub broadcast proof fn lemma_vpairs_len(pairs: Seq<(Vec<char>, Value)>)
    ensures
        (#[trigger] vpairs(pairs)).len() == pairs.len(),
    decreases pairs,
{
    if pairs.len() > 0 {
        lemma_vpairs_len(pairs.drop_first());
        assert(vpairs(pairs) == seq![(pairs[0].0@, pairs[0].1@)] + vpairs(pairs.drop_first()));
    } else {
        assert(vpairs(pairs) == Seq::<(Seq<char>, JsonVal)>::empty());
    }
}

/// [`vpairs`] maps member by member.
pub broadcast proof fn lemma_vpairs_index(pairs: Seq<(Vec<char>, Value)>, i: int)
    ensures
        0 <= i < pairs.len() ==> #[trigger] vpairs(pairs)[i] == (pairs[i].0@, pairs[i].1@),
    decreases pairs,
{
    lemma_vpairs_len(pairs);
    if pairs.len() > 0 {
        lemma_vpairs_index(pairs.drop_first(), i - 1);
        lemma_vpairs_len(pairs.drop_first());
        if i == 0 {
            assert(vpairs(pairs)[0] == (pairs[0].0@, pairs[0].1@));
        } else if 0 < i < pairs.len() {
            assert(vpairs(pairs)[i] == vpairs(pairs.drop_first())[i - 1]);
            assert(pairs.drop_first()[i - 1] == pairs[i]);
        }
    }
}

/// The nesting depth of a value: scalars sit at depth zero, a container is
/// one deeper than its deepest child.
pub open spec fn depth(v: JsonVal) -> nat
    decreases v,
{
    match v {
        JsonVal::Arr(elems) => 1 + depth_elems(elems),
        JsonVal::Obj(pairs) => 1 + depth_pairs(pairs),
        _ => 0,
    }
}

/// The deepest element of a sequence of values (zero when empty).
pub open spec fn depth_elems(elems: Seq<JsonVal>) -> nat
    decreases elems,
{
    if elems.len() == 0 {
        0
    } else {
        let d0 = depth(elems[0]);
        let dr = depth_elems(elems.drop_first());
        if d0 >= dr {
            d0
        } else {
            dr
        }
    }
}

/// The deepest member value of a sequence of object members.
pub open spec fn depth_pairs(pairs: Seq<(Seq<char>, JsonVal)>) -> nat
    decreases pairs,
{
    if pairs.len() == 0 {
        0
    } else {
        let d0 = depth(pairs[0].1);
        let dr = depth_pairs(pairs.drop_first());
        if d0 >= dr {
            d0
        } else {
            dr
        }
    }
}

/// A sequence of values is at least as deep as each of its elements.
pub proof fn lemma_depth_elems_ge(elems: Seq<JsonVal>, i: int)
    requires
        0 <= i < elems.len(),
    ensures
        depth_elems(elems) >= depth(elems[i]),
    decreases elems,
{
    if i > 0 {
        lemma_depth_elems_ge(elems.drop_first(), i - 1);
    }
}

/// A sequence of values no element of which exceeds `bound` does not
/// exceed it either.
pub proof fn lemma_depth_elems_all_le(elems: Seq<JsonVal>, bound: nat)
    requires
        forall|i: int| 0 <= i < elems.len() ==> depth(#[trigger] elems[i]) <= bound,
    ensures
        depth_elems(elems) <= bound,
    decreases elems,
{
    if elems.len() > 0 {
        assert(forall|i: int|
            0 <= i < elems.drop_first().len() ==> elems.drop_first()[i] == elems[i + 1]);
        lemma_depth_elems_all_le(elems.drop_first(), bound);
    }
}

/// A sequence of members is at least as deep as each member's value.
pub proof fn lemma_depth_pairs_ge(pairs: Seq<(Seq<char>, JsonVal)>, i: int)
    requires
        0 <= i < pairs.len(),
    ensures
        depth_pairs(pairs) >= depth(pairs[i].1),
    decreases pairs,
{
    if i > 0 {
        lemma_depth_pairs_ge(pairs.drop_first(), i - 1);
    }
}

/// A sequence of members no value of which exceeds `bound` does not exceed
/// it either.
pub proof fn lemma_depth_pairs_all_le(pairs: Seq<(Seq<char>, JsonVal)>, bound: nat)
    requires
        forall|i: int| 0 <= i < pairs.len() ==> depth((#[trigger] pairs[i]).1) <= bound,
    ensures
        depth_pairs(pairs) <= bound,
    decreases pairs,
{
    if pairs.len() > 0 {
        assert(forall|i: int|
            0 <= i < pairs.drop_first().len() ==> pairs.drop_first()[i] == pairs[i + 1]);
        lemma_depth_pairs_all_le(pairs.drop_first(), bound);
    }
}

/// Well-formedness of a value tree: every number lexeme is exactly one JSON
/// numeric literal, and every object's keys are distinct. The decoder only
/// produces well-formed trees, and the encoder's output re-decodes to the
/// same tree only for well-formed input.
pub open spec fn wf(v: JsonVal) -> bool
    decreases v,
{
    match v {
        JsonVal::Num(lex) => valid_number(lex),
        JsonVal::Arr(elems) => wf_elems(elems),
        JsonVal::Obj(pairs) => wf_pairs(pairs) && distinct_keys(pairs),
        _ => true,
    }
}

pub open spec fn wf_elems(elems: Seq<JsonVal>) -> bool
    decreases elems,
{
    if elems.len() == 0 {
        true
    } else {
        wf(elems[0]) && wf_elems(elems.drop_first())
    }
}

pub open spec fn wf_pairs(pairs: Seq<(Seq<char>, JsonVal)>) -> bool
    decreases pairs,
{
    if pairs.len() == 0 {
        true
    } else {
        wf(pairs[0].1) && wf_pairs(pairs.drop_first())
    }
}

/// No key occurs twice.
pub open spec fn distinct_keys(pairs: Seq<(Seq<char>, JsonVal)>) -> bool {
    forall|i: int, j: int|
        0 <= i < j < pairs.len() ==> pairs[i].0 != pairs[j].0
}

/// Inserting a member into an object under construction: if the key is
/// already present, its value is overwritten in place (last write wins,
/// original position kept); otherwise the pair is appended.
pub open spec fn obj_insert(
    pairs: Seq<(Seq<char>, JsonVal)>,
    k: Seq<char>,
    v: JsonVal,
) -> Seq<(Seq<char>, JsonVal)>
    decreases pairs,
{
    if pairs.len() == 0 {
        seq![(k, v)]
    } else if pairs[0].0 == k {
        seq![(k, v)] + pairs.drop_first()
    } else {
        seq![pairs[0]] + obj_insert(pairs.drop_first(), k, v)
    }
}

/// The value under the first occurrence of key `k`, if any.
pub open spec fn obj_lookup(pairs: Seq<(Seq<char>, JsonVal)>, k: Seq<char>) -> Option<JsonVal>
    decreases pairs,
{
    if pairs.len() == 0 {
        None
    } else if pairs[0].0 == k {
        Some(pairs[0].1)
    } else {
        obj_lookup(pairs.drop_first(), k)
    }
}

/// When `k` first occurs at position `j`, [`obj_insert`] overwrites exactly
/// that member and moves nothing.
pub proof fn lemma_obj_insert_found(
    pairs: Seq<(Seq<char>, JsonVal)>,
    k: Seq<char>,
    v: JsonVal,
    j: int,
)
    requires
        0 <= j < pairs.len(),
        pairs[j].0 == k,
        forall|m: int| 0 <= m < j ==> pairs[m].0 != k,
    ensures
        obj_insert(pairs, k, v) == pairs.update(j, (k, v)),
    decreases j,
{
    if j == 0 {
        assert(seq![(k, v)] + pairs.drop_first() =~= pairs.update(0, (k, v)));
    } else {
        lemma_obj_insert_found(pairs.drop_first(), k, v, j - 1);
        assert(seq![pairs[0]] + pairs.drop_first().update(j - 1, (k, v)) =~= pairs.update(
            j,
            (k, v),
        ));
    }
}

/// When `k` occurs nowhere, [`obj_insert`] appends the new member.
pub proof fn lemma_obj_insert_absent(pairs: Seq<(Seq<char>, JsonVal)>, k: Seq<char>, v: JsonVal)
    requires
        forall|m: int| 0 <= m < pairs.len() ==> pairs[m].0 != k,
    ensures
        obj_insert(pairs, k, v) == pairs.push((k, v)),
    decreases pairs.len(),
{
    if pairs.len() == 0 {
        assert(seq![(k, v)] =~= pairs.push((k, v)));
    } else {
        lemma_obj_insert_absent(pairs.drop_first(), k, v);
        assert(seq![pairs[0]] + pairs.drop_first().push((k, v)) =~= pairs.push((k, v)));
    }
}

} // verus!
