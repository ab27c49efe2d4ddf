//! The recursive-descent parser: one grammar rule per JSON production,
//! LL(1) over the token stream, with an explicit nesting budget.
//!
//! The grammar is stated by the spec functions [`parse_value`],
//! [`parse_object_body`], [`parse_members`], [`parse_array_body`],
//! [`parse_elems`] and [`spec_decode`]; the executable decoder is proved to
//! return exactly what they describe.

use vstd::prelude::*;
use crate::errors::ErrorKind;
use crate::errors::JsonError;
use crate::model::JsonVal;
use crate::model::Value;
use crate::model::lemma_obj_insert_absent;
use crate::model::lemma_obj_insert_found;
use crate::model::lemma_velems_index;
use crate::model::lemma_vpairs_index;
use crate::model::obj_insert;
use crate::model::velems;
use crate::model::vpairs;
use crate::scan::clamp;
use crate::scan::copy_range;
use crate::scan::is_sentinel;
use crate::scan::tokenize;
use crate::scan::tokenize_from;
use crate::scan::vtoks;
use crate::scan::wf_toks;
use crate::scan::STok;
use crate::scan::STokE;
use crate::scan::Tok;
use crate::scan::TokE;

verus! {

broadcast use lemma_velems_index, lemma_vpairs_index, crate::model::lemma_velems_len, crate::model::lemma_vpairs_len;

/// The nesting limit used by [`decode`] and [`encode`](crate::encode::encode):
/// documents with containers nested more than this many levels deep are
/// rejected with [`ErrorKind::MaxDepthExceeded`] instead of exhausting the
/// call stack.
pub const DEFAULT_MAX_DEPTH: usize = 512;

/// One JSON value starting at token `i`, with `b` levels of container
/// nesting still allowed. On success, returns the value and the index of the
/// first token after it.
///
/// The guards on `i` are defensive only: the token stream always ends with a
/// sentinel ([`Tok::EofTok`] or [`Tok::BadTok`]), which the parser never
/// steps past, so every reachable index is in bounds.
pub open spec fn parse_value(toks: Seq<STok>, i: int, b: nat) -> Result<
    (JsonVal, int),
    (ErrorKind, int),
>
    decreases b, toks.len() - i, 0int,
        when 0 <= i <= toks.len()
{
    if i >= toks.len() {
        Err((ErrorKind::UnexpectedEndOfInput, 0))
    } else {
        let t = toks[i];
        match t.kind {
            Tok::NullTok => Ok((JsonVal::Null, i + 1)),
            Tok::TrueTok => Ok((JsonVal::Bool(true), i + 1)),
            Tok::FalseTok => Ok((JsonVal::Bool(false), i + 1)),
            Tok::NumTok(lex) => Ok((JsonVal::Num(lex), i + 1)),
            Tok::StrTok(content) => Ok((JsonVal::Str(content), i + 1)),
            Tok::LBrace => {
                if b == 0 {
                    Err((ErrorKind::MaxDepthExceeded, t.off))
                } else {
                    parse_object_body(toks, i + 1, (b - 1) as nat)
                }
            },
            Tok::LBrack => {
                if b == 0 {
                    Err((ErrorKind::MaxDepthExceeded, t.off))
                } else {
                    parse_array_body(toks, i + 1, (b - 1) as nat)
                }
            },
            Tok::EofTok => Err((ErrorKind::UnexpectedEndOfInput, t.off)),
            Tok::BadTok(k, o) => Err((k, o)),
            _ => Err((ErrorKind::ExpectedValue, t.off)),
        }
    }
}

/// An object body, entered just after `{`: either an immediate `}` (the
/// empty object), or a non-empty member list.
pub open spec fn parse_object_body(toks: Seq<STok>, i: int, b: nat) -> Result<
    (JsonVal, int),
    (ErrorKind, int),
>
    decreases b, toks.len() - i, 2int,
        when 0 <= i <= toks.len()
{
    if i >= toks.len() {
        Err((ErrorKind::UnexpectedEndOfInput, 0))
    } else if toks[i].kind is RBrace {
        Ok((JsonVal::Obj(Seq::empty()), i + 1))
    } else {
        parse_members(toks, i, b, Seq::empty())
    }
}

/// A non-empty member list: `"key" : value`, then `,` and more members or
/// `}`. A duplicate key overwrites the earlier value in place (last write
/// wins). `acc` is the sequence of members parsed so far.
pub open spec fn parse_members(
    toks: Seq<STok>,
    i: int,
    b: nat,
    acc: Seq<(Seq<char>, JsonVal)>,
) -> Result<(JsonVal, int), (ErrorKind, int)>
    decreases b, toks.len() - i, 1int,
        when 0 <= i <= toks.len()
{
    if i >= toks.len() {
        Err((ErrorKind::UnexpectedEndOfInput, 0))
    } else {
        let t = toks[i];
        match t.kind {
            Tok::StrTok(k) => {
                if i + 1 >= toks.len() {
                    Err((ErrorKind::UnexpectedEndOfInput, 0))
                } else {
                    let ct = toks[i + 1];
                    match ct.kind {
                        Tok::Colon => {
                            match parse_value(toks, i + 2, b) {
                                Err(e) => Err(e),
                                Ok((v, j0)) => {
                                    let j = clamp(i + 3, j0, toks.len() as int);
                                    let acc2 = obj_insert(acc, k, v);
                                    if j >= toks.len() {
                                        Err((ErrorKind::UnexpectedEndOfInput, 0))
                                    } else {
                                        let st = toks[j];
                                        match st.kind {
                                            Tok::RBrace => Ok((JsonVal::Obj(acc2), j + 1)),
                                            Tok::Comma => parse_members(toks, j + 1, b, acc2),
                                            Tok::EofTok => Err(
                                                (ErrorKind::UnexpectedEndOfInput, st.off),
                                            ),
                                            Tok::BadTok(bk, bo) => Err((bk, bo)),
                                            _ => Err((ErrorKind::ExpectedCommaOrClose, st.off)),
                                        }
                                    }
                                },
                            }
                        },
                        Tok::EofTok => Err((ErrorKind::UnexpectedEndOfInput, ct.off)),
                        Tok::BadTok(bk, bo) => Err((bk, bo)),
                        _ => Err((ErrorKind::ExpectedColon, ct.off)),
                    }
                }
            },
            Tok::EofTok => Err((ErrorKind::UnexpectedEndOfInput, t.off)),
            Tok::BadTok(k, o) => Err((k, o)),
            _ => Err((ErrorKind::ExpectedValue, t.off)),
        }
    }
}

/// An array body, entered just after `[`: either an immediate `]` (the
/// empty array), or a non-empty element list.
pub open spec fn parse_array_body(toks: Seq<STok>, i: int, b: nat) -> Result<
    (JsonVal, int),
    (ErrorKind, int),
>
    decreases b, toks.len() - i, 2int,
        when 0 <= i <= toks.len()
{
    if i >= toks.len() {
        Err((ErrorKind::UnexpectedEndOfInput, 0))
    } else if toks[i].kind is RBrack {
        Ok((JsonVal::Arr(Seq::empty()), i + 1))
    } else {
        parse_elems(toks, i, b, Seq::empty())
    }
}

/// A non-empty element list: a value, then `,` and more elements or `]`.
/// `acc` is the sequence of elements parsed so far.
pub open spec fn parse_elems(toks: Seq<STok>, i: int, b: nat, acc: Seq<JsonVal>) -> Result<
    (JsonVal, int),
    (ErrorKind, int),
>
    decreases b, toks.len() - i, 1int,
        when 0 <= i <= toks.len()
{
    match parse_value(toks, i, b) {
        Err(e) => Err(e),
        Ok((v, j0)) => {
            let j = clamp(i + 1, j0, toks.len() as int);
            let acc2 = acc.push(v);
            if j >= toks.len() {
                Err((ErrorKind::UnexpectedEndOfInput, 0))
            } else {
                let st = toks[j];
                match st.kind {
                    Tok::RBrack => Ok((JsonVal::Arr(acc2), j + 1)),
                    Tok::Comma => parse_elems(toks, j + 1, b, acc2),
                    Tok::EofTok => Err((ErrorKind::UnexpectedEndOfInput, st.off)),
                    Tok::BadTok(bk, bo) => Err((bk, bo)),
                    _ => Err((ErrorKind::ExpectedCommaOrClose, st.off)),
                }
            }
        },
    }
}

/// What decoding a whole document yields: the single top-level value, with
/// nothing but whitespace after it. `limit` is the container nesting budget.
pub open spec fn spec_decode(s: Seq<char>, limit: nat) -> Result<JsonVal, (ErrorKind, int)> {
    let toks = tokenize_from(s, 0);
    match parse_value(toks, 0, limit) {
        Err(e) => Err(e),
        Ok((v, j)) => {
            if 0 <= j < toks.len() && toks[j].kind is EofTok {
                Ok(v)
            } else if 0 <= j < toks.len() {
                Err((ErrorKind::TrailingContent, toks[j].off))
            } else {
                Err((ErrorKind::TrailingContent, 0))
            }
        },
    }
}

// ---------------------------------------------------------------------------
// the executable parser
// ---------------------------------------------------------------------------

/// Character-sequence equality.
#[verifier::loop_isolation(false)]
fn chars_eq(a: &Vec<char>, b: &Vec<char>) -> (r: bool)
    ensures
        r == (a@ == b@),
{
    if a.len() != b.len() {
        return false;
    }
    let n = a.len();
    let mut i: usize = 0;
    while i < n
        invariant
            i <= n,
            n == a@.len() == b@.len(),
            forall|m: int| 0 <= m < i ==> a@[m] == b@[m],
        decreases n - i,
    {
        if a[i] != b[i] {
            return false;
        }
        i = i + 1;
    }
    proof {
        assert(a@ =~= b@);
    }
    true
}

/// Adds a member to an object under construction, exactly as [`obj_insert`]
/// describes: overwrite in place if the key is present, append otherwise.
#[verifier::loop_isolation(false)]
fn obj_insert_e(acc: &mut Vec<(Vec<char>, Value)>, k: Vec<char>, v: Value)
    ensures
        vpairs(final(acc)@) == obj_insert(vpairs(old(acc)@), k@, v@),
{
    let n = acc.len();
    let mut idx: usize = 0;
    while idx < n
        invariant
            idx <= n,
            n == acc@.len(),
            acc@ == old(acc)@,
            forall|m: int| 0 <= m < idx ==> vpairs(acc@)[m].0 != k@,
        decreases n - idx,
    {
        if chars_eq(&acc[idx].0, &k) {
            proof {
                lemma_obj_insert_found(vpairs(acc@), k@, v@, idx as int);
            }
            let ghost before = vpairs(acc@);
            acc.set(idx, (k, v));
            proof {
                assert(vpairs(acc@) =~= before.update(idx as int, (k@, v@)));
            }
            return;
        }
        idx = idx + 1;
    }
    proof {
        lemma_obj_insert_absent(vpairs(acc@), k@, v@);
    }
    let ghost before = vpairs(acc@);
    acc.push((k, v));
    proof {
        assert(vpairs(acc@) =~= before.push((k@, v@)));
    }
}

/// A copy of a whole character vector.
fn clone_chars(v: &Vec<char>) -> (r: Vec<char>)
    ensures
        r@ == v@,
{
    let r = copy_range(v, 0, v.len());
    proof {
        assert(v@.subrange(0, v@.len() as int) =~= v@);
    }
    r
}

/// One JSON value starting at token `i`; the executable form of
/// [`parse_value`], proved to return exactly what it describes.
fn parse_value_e(toks: &Vec<STokE>, i: usize, b: usize) -> (r: Result<(Value, usize), JsonError>)
    requires
        wf_toks(vtoks(toks@)),
        i < toks@.len(),
    ensures
        (match r {
            Ok((v, j)) => parse_value(vtoks(toks@), i as int, b as nat) == Result::<
                (JsonVal, int),
                (ErrorKind, int),
            >::Ok((v@, j as int)) && i < j < toks@.len(),
            Err(e) => parse_value(vtoks(toks@), i as int, b as nat) == Result::<
                (JsonVal, int),
                (ErrorKind, int),
            >::Err((e.kind, e.offset as int)),
        }),
    decreases b, toks@.len() - i, 0int,
{
    let ghost tv = vtoks(toks@);
    let n = toks.len();
    proof {
        assert(tv[i as int] == toks@[i as int]@);
        assert(is_sentinel(tv.last().kind));
    }
    let t = &toks[i];
    match &t.kind {
        TokE::NullTok => {
            assert(!is_sentinel(tv[i as int].kind));
            Ok((Value::Null, i + 1))
        },
        TokE::TrueTok => {
            assert(!is_sentinel(tv[i as int].kind));
            Ok((Value::Bool(true), i + 1))
        },
        TokE::FalseTok => {
            assert(!is_sentinel(tv[i as int].kind));
            Ok((Value::Bool(false), i + 1))
        },
        TokE::NumTok(lex) => {
            assert(!is_sentinel(tv[i as int].kind));
            Ok((Value::Number(clone_chars(lex)), i + 1))
        },
        TokE::StrTok(content) => {
            assert(!is_sentinel(tv[i as int].kind));
            Ok((Value::String(clone_chars(content)), i + 1))
        },
        TokE::LBrace => {
            if b == 0 {
                Err(JsonError { kind: ErrorKind::MaxDepthExceeded, offset: t.off })
            } else {
                assert(!is_sentinel(tv[i as int].kind));
                parse_object_body_e(toks, i + 1, b - 1)
            }
        },
        TokE::LBrack => {
            if b == 0 {
                Err(JsonError { kind: ErrorKind::MaxDepthExceeded, offset: t.off })
            } else {
                assert(!is_sentinel(tv[i as int].kind));
                parse_array_body_e(toks, i + 1, b - 1)
            }
        },
        TokE::EofTok => Err(JsonError { kind: ErrorKind::UnexpectedEndOfInput, offset: t.off }),
        TokE::BadTok(k, o) => Err(JsonError { kind: *k, offset: *o }),
        _ => Err(JsonError { kind: ErrorKind::ExpectedValue, offset: t.off }),
    }
}

/// An object body, entered just after `{`; the executable form of
/// [`parse_object_body`] and [`parse_members`].
#[verifier::loop_isolation(false)]
fn parse_object_body_e(toks: &Vec<STokE>, i: usize, b: usize) -> (r: Result<
    (Value, usize),
    JsonError,
>)
    requires
        wf_toks(vtoks(toks@)),
        i < toks@.len(),
    ensures
        (match r {
            Ok((v, j)) => parse_object_body(vtoks(toks@), i as int, b as nat) == Result::<
                (JsonVal, int),
                (ErrorKind, int),
            >::Ok((v@, j as int)) && i < j < toks@.len(),
            Err(e) => parse_object_body(vtoks(toks@), i as int, b as nat) == Result::<
                (JsonVal, int),
                (ErrorKind, int),
            >::Err((e.kind, e.offset as int)),
        }),
    decreases b, toks@.len() - i, 1int,
{
    let ghost tv = vtoks(toks@);
    let n = toks.len();
    {
        let t = &toks[i];
        if let TokE::RBrace = &t.kind {
            assert(!is_sentinel(tv[i as int].kind));
            assert(vpairs(Seq::<(Vec<char>, Value)>::empty()) =~= Seq::<
                (Seq<char>, JsonVal),
            >::empty());
            return Ok((Value::Object(Vec::new()), i + 1));
        }
    }
    let mut cur = i;
    let mut acc: Vec<(Vec<char>, Value)> = Vec::new();
    proof {
        assert(vpairs(acc@) =~= Seq::<(Seq<char>, JsonVal)>::empty());
    }
    loop
        invariant
            n == toks@.len(),
            i <= cur < n,
            parse_members(tv, i as int, b as nat, Seq::empty()) == parse_members(
                tv,
                cur as int,
                b as nat,
                vpairs(acc@),
            ),
        decreases toks@.len() - cur,
    {
        let key: Vec<char>;
        {
            let t = &toks[cur];
            match &t.kind {
                TokE::StrTok(content) => {
                    key = clone_chars(content);
                },
                TokE::EofTok => {
                    return Err(
                        JsonError { kind: ErrorKind::UnexpectedEndOfInput, offset: t.off },
                    );
                },
                TokE::BadTok(k, o) => {
                    return Err(JsonError { kind: *k, offset: *o });
                },
                _ => {
                    return Err(JsonError { kind: ErrorKind::ExpectedValue, offset: t.off });
                },
            }
        }
        assert(!is_sentinel(tv[cur as int].kind));
        {
            let t2 = &toks[cur + 1];
            match &t2.kind {
                TokE::Colon => {},
                TokE::EofTok => {
                    return Err(
                        JsonError { kind: ErrorKind::UnexpectedEndOfInput, offset: t2.off },
                    );
                },
                TokE::BadTok(k, o) => {
                    return Err(JsonError { kind: *k, offset: *o });
                },
                _ => {
                    return Err(JsonError { kind: ErrorKind::ExpectedColon, offset: t2.off });
                },
            }
        }
        assert(!is_sentinel(tv[cur + 1 as int].kind));
        let parsed = parse_value_e(toks, cur + 2, b);
        let (v, j) = match parsed {
            Ok(vj) => vj,
            Err(e) => {
                return Err(e);
            },
        };
        obj_insert_e(&mut acc, key, v);
        let t3 = &toks[j];
        match &t3.kind {
            TokE::RBrace => {
                assert(!is_sentinel(tv[j as int].kind));
                return Ok((Value::Object(acc), j + 1));
            },
            TokE::Comma => {
                assert(!is_sentinel(tv[j as int].kind));
                cur = j + 1;
            },
            TokE::EofTok => {
                return Err(JsonError { kind: ErrorKind::UnexpectedEndOfInput, offset: t3.off });
            },
            TokE::BadTok(k, o) => {
                return Err(JsonError { kind: *k, offset: *o });
            },
            _ => {
                return Err(JsonError { kind: ErrorKind::ExpectedCommaOrClose, offset: t3.off });
            },
        }
    }
}

/// An array body, entered just after `[`; the executable form of
/// [`parse_array_body`] and [`parse_elems`].
#[verifier::loop_isolation(false)]
fn parse_array_body_e(toks: &Vec<STokE>, i: usize, b: usize) -> (r: Result<
    (Value, usize),
    JsonError,
>)
    requires
        wf_toks(vtoks(toks@)),
        i < toks@.len(),
    ensures
        (match r {
            Ok((v, j)) => parse_array_body(vtoks(toks@), i as int, b as nat) == Result::<
                (JsonVal, int),
                (ErrorKind, int),
            >::Ok((v@, j as int)) && i < j < toks@.len(),
            Err(e) => parse_array_body(vtoks(toks@), i as int, b as nat) == Result::<
                (JsonVal, int),
                (ErrorKind, int),
            >::Err((e.kind, e.offset as int)),
        }),
    decreases b, toks@.len() - i, 1int,
{
    let ghost tv = vtoks(toks@);
    let n = toks.len();
    {
        let t = &toks[i];
        if let TokE::RBrack = &t.kind {
            assert(!is_sentinel(tv[i as int].kind));
            assert(velems(Seq::<Value>::empty()) =~= Seq::<JsonVal>::empty());
            return Ok((Value::Array(Vec::new()), i + 1));
        }
    }
    let mut cur = i;
    let mut acc: Vec<Value> = Vec::new();
    proof {
        assert(velems(acc@) =~= Seq::<JsonVal>::empty());
    }
    loop
        invariant
            n == toks@.len(),
            i <= cur < n,
            parse_elems(tv, i as int, b as nat, Seq::empty()) == parse_elems(
                tv,
                cur as int,
                b as nat,
                velems(acc@),
            ),
        decreases toks@.len() - cur,
    {
        let parsed = parse_value_e(toks, cur, b);
        let (v, j) = match parsed {
            Ok(vj) => vj,
            Err(e) => {
                return Err(e);
            },
        };
        let ghost acc_before = velems(acc@);
        acc.push(v);
        proof {
            assert(velems(acc@) =~= acc_before.push(v@));
        }
        let t3 = &toks[j];
        match &t3.kind {
            TokE::RBrack => {
                assert(!is_sentinel(tv[j as int].kind));
                return Ok((Value::Array(acc), j + 1));
            },
            TokE::Comma => {
                assert(!is_sentinel(tv[j as int].kind));
                cur = j + 1;
            },
            TokE::EofTok => {
                return Err(JsonError { kind: ErrorKind::UnexpectedEndOfInput, offset: t3.off });
            },
            TokE::BadTok(k, o) => {
                return Err(JsonError { kind: *k, offset: *o });
            },
            _ => {
                return Err(JsonError { kind: ErrorKind::ExpectedCommaOrClose, offset: t3.off });
            },
        }
    }
}

/// Decodes a whole document with an explicit container-nesting limit: the
/// single top-level value, with nothing but whitespace after it, exactly as
/// [`spec_decode`] describes. A decoded tree is well formed and nested no
/// deeper than the limit, so re-encoding it under the same limit succeeds.
pub fn decode_with_limit(text: &Vec<char>, limit: usize) -> (r: Result<Value, JsonError>)
    ensures
        (match r {
            Ok(v) => spec_decode(text@, limit as nat) == Result::<JsonVal, (ErrorKind, int)>::Ok(
                v@,
            ) && crate::model::wf(v@) && crate::model::depth(v@) <= limit,
            Err(e) => spec_decode(text@, limit as nat) == Result::<JsonVal, (ErrorKind, int)>::Err(
                (e.kind, e.offset as int),
            ),
        }),
{
    proof {
        crate::laws::lemma_decode_wf(text@, limit as nat);
        crate::laws::lemma_decode_depth(text@, limit as nat);
    }
    let toks = tokenize(text);
    match parse_value_e(&toks, 0, limit) {
        Err(e) => Err(e),
        Ok((v, j)) => {
            let t = &toks[j];
            match &t.kind {
                TokE::EofTok => Ok(v),
                _ => Err(JsonError { kind: ErrorKind::TrailingContent, offset: t.off }),
            }
        },
    }
}

/// Decodes a whole document with the default nesting limit
/// [`DEFAULT_MAX_DEPTH`].
pub fn decode(text: &Vec<char>) -> (r: Result<Value, JsonError>)
    ensures
        (match r {
            Ok(v) => spec_decode(text@, DEFAULT_MAX_DEPTH as nat) == Result::<
                JsonVal,
                (ErrorKind, int),
            >::Ok(v@) && crate::model::wf(v@) && crate::model::depth(v@) <= DEFAULT_MAX_DEPTH,
            Err(e) => spec_decode(text@, DEFAULT_MAX_DEPTH as nat) == Result::<
                JsonVal,
                (ErrorKind, int),
            >::Err((e.kind, e.offset as int)),
        }),
{
    decode_with_limit(text, DEFAULT_MAX_DEPTH)
}

} // verus!
