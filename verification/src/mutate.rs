//! The write path: navigate a value by a token sequence, creating missing
//! object keys on the way, and write the new value at the addressed
//! location.

use vstd::prelude::*;
use crate::pointer::{digits_val, is_index_spelling, parse_index, parse_pointer, tokens_of, Pointer};
use crate::resolve::obj_find;
use crate::value::{arr_view, entries_view, find_idx, lemma_arr_view, lemma_entries_view, lemma_find_idx, wf, Jv, Value};

verus! {

broadcast use lemma_arr_view, lemma_entries_view;

/// Mutation of a value along a token sequence, with auto-vivification.
/// Zero tokens replace the value itself. An object step descends into the
/// key, inserting it bound to null first when absent; an array step
/// requires a valid in-bounds index and never extends the array; a scalar
/// met on the way is replaced by a one-entry object. The second component
/// tells whether the write happened; a failed write hands the value back
/// unchanged (see [`lemma_set_fail_unchanged`]).
pub open spec fn set_spec(j: Jv, toks: Seq<Seq<char>>, new: Jv) -> (Jv, bool)
    decreases toks.len(),
{
    if toks.len() == 0 {
        (new, true)
    } else {
        let t = toks[0];
        match j {
            Jv::Obj(es) => match find_idx(es, t) {
                Some(fi) => {
                    let r = set_spec(es[fi].1, toks.drop_first(), new);
                    (Jv::Obj(es.update(fi, (es[fi].0, r.0))), r.1)
                },
                None => {
                    let r = set_spec(Jv::Null, toks.drop_first(), new);
                    (Jv::Obj(es.push((t, r.0))), r.1)
                },
            },
            Jv::Arr(a) => if is_index_spelling(t) && digits_val(t) < a.len() {
                let r = set_spec(a[digits_val(t)], toks.drop_first(), new);
                (Jv::Arr(a.update(digits_val(t), r.0)), r.1)
            } else {
                (Jv::Arr(a), false)
            },
            _ => {
                let r = set_spec(Jv::Null, toks.drop_first(), new);
                (Jv::Obj(seq![(t, r.0)]), r.1)
            },
        }
    }
}

/// Mutate `v` along the tokens from position `i` on, writing `new` at the
/// end of the path.
pub fn set_at(v: Value, toks: &Vec<String>, i: usize, new: Value) -> (res: (Value, bool))
    requires
        i <= toks@.len(),
    ensures
        (res.0@, res.1) == set_spec(v@, toks.deep_view().skip(i as int), new@),
    decreases toks@.len() - i,
{
    if i == toks.len() {
        proof {
            assert(toks.deep_view().skip(i as int) =~= Seq::<Seq<char>>::empty());
        }
        return (new, true);
    }
    let ghost rem = toks.deep_view().skip(i as int);
    proof {
        assert(rem[0] == toks@[i as int]@);
        assert(rem.drop_first() =~= toks.deep_view().skip(i + 1));
    }
    let t = &toks[i];
    match v {
        Value::Object(mut es) => {
            let ghost ev = entries_view(es@);
            match obj_find(&es, t) {
                Some(fi) => {
                    proof {
                        lemma_find_idx(ev, t@);
                    }
                    let ghost es0 = es@;
                    let (k, child) = es.remove(fi);
                    let r = set_at(child, toks, i + 1, new);
                    let (c, ok) = r;
                    es.insert(fi, (k, c));
                    proof {
                        assert(es@ =~= es0.update(fi as int, (k, c)));
                        assert(entries_view(es@) =~= ev.update(fi as int, (ev[fi as int].0, c@)));
                    }
                    (Value::Object(es), ok)
                },
                None => {
                    let r = set_at(Value::Null, toks, i + 1, new);
                    let (c, ok) = r;
                    let ghost es0 = es@;
                    es.push((t.clone(), c));
                    proof {
                        assert(es@ =~= es0.push((es@.last().0, c)));
                        assert(es@.last().0@ == t@);
                        assert(entries_view(es@) =~= ev.push((t@, c@)));
                    }
                    (Value::Object(es), ok)
                },
            }
        },
        Value::Array(mut items) => {
            let l = items.len();
            match parse_index(t.as_str()) {
                Some(idx) => {
                    if idx < l {
                        let ghost items0 = items@;
                        let child = items.remove(idx);
                        let r = set_at(child, toks, i + 1, new);
                        let (c, ok) = r;
                        items.insert(idx, c);
                        proof {
                            assert(items@ =~= items0.update(idx as int, c));
                            assert(arr_view(items@) =~= arr_view(items0).update(idx as int, c@));
                        }
                        (Value::Array(items), ok)
                    } else {
                        proof {
                            assert(digits_val(rem[0]) >= arr_view(items@).len());
                        }
                        (Value::Array(items), false)
                    }
                },
                None => {
                    proof {
                        if is_index_spelling(rem[0]) {
                            assert(digits_val(rem[0]) > usize::MAX as int);
                        }
                    }
                    (Value::Array(items), false)
                },
            }
        },
        other => {
            let r = set_at(Value::Null, toks, i + 1, new);
            let (c, ok) = r;
            let mut es: Vec<(String, Value)> = Vec::new();
            es.push((t.clone(), c));
            proof {
                assert(es@.last().0@ == t@);
                assert(entries_view(es@) =~= seq![(t@, c@)]);
            }
            (Value::Object(es), ok)
        },
    }
}

/// Mutation addressed by a pointer text: a malformed pointer changes
/// nothing; otherwise the value and outcome of [`set_spec`].
pub open spec fn set_at_ptr(j: Jv, p: Seq<char>, new: Jv) -> (Jv, bool) {
    match tokens_of(p) {
        None => (j, false),
        Some(ts) => set_spec(j, ts, new),
    }
}

/// Resolve the pointer text against `value` with auto-vivification and
/// write `new` at the addressed location. Returns whether the write
/// happened; a failed or malformed write leaves the document unchanged.
pub fn pointer_mut(value: &mut Value, pointer: &str, new: Value) -> (ok: bool)
    ensures
        (final(value)@, ok) == set_at_ptr(old(value)@, pointer@, new@),
{
    match parse_pointer(pointer) {
        Some(toks) => {
            let mut doc = Value::Null;
            core::mem::swap(value, &mut doc);
            proof {
                assert(toks.deep_view().skip(0) =~= toks.deep_view());
            }
            let r = set_at(doc, &toks, 0, new);
            let (res, ok) = r;
            let mut out = res;
            core::mem::swap(value, &mut out);
            ok
        },
        None => false,
    }
}

/// The empty pointer addresses the whole document: writing through it
/// replaces the root, for every document and every value.
pub proof fn lemma_set_root(j: Jv, new: Jv)
    ensures
        set_at_ptr(j, Seq::<char>::empty(), new) == (new, true),
{
    assert(tokens_of(Seq::<char>::empty()) == Some(Seq::<Seq<char>>::empty()));
}

/// The nested one-entry objects that vivification builds along a path.
pub open spec fn nest_obj(toks: Seq<Seq<char>>, new: Jv) -> Jv
    decreases toks.len(),
{
    if toks.len() == 0 {
        new
    } else {
        Jv::Obj(seq![(toks[0], nest_obj(toks.drop_first(), new))])
    }
}

/// Writing below a null — as below any scalar met on the way — always
/// succeeds, building nested one-entry objects down to the written value.
pub proof fn lemma_set_vivifies(toks: Seq<Seq<char>>, new: Jv)
    ensures
        set_spec(Jv::Null, toks, new) == (nest_obj(toks, new), true),
    decreases toks.len(),
{
    if toks.len() > 0 {
        lemma_set_vivifies(toks.drop_first(), new);
    }
}

/// Setting at a path whose first key is absent from an object appends
/// that key bound to the nested objects for the rest of the path: missing
/// intermediate segments are auto-created.
pub proof fn lemma_set_fresh_key(a: Jv, toks: Seq<Seq<char>>, new: Jv)
    requires
        toks.len() > 0,
        a matches Jv::Obj(es) && find_idx(es, toks[0]) is None,
    ensures
        a matches Jv::Obj(es) && set_spec(a, toks, new) == (Jv::Obj(
            es.push((toks[0], nest_obj(toks.drop_first(), new))),
        ), true),
{
    lemma_set_vivifies(toks.drop_first(), new);
}

/// A write through an array step with an invalid or out-of-range index
/// fails and leaves the array — its length and all its elements —
/// unchanged.
pub proof fn lemma_set_array_fail(a: Jv, toks: Seq<Seq<char>>, new: Jv)
    requires
        toks.len() > 0,
        a matches Jv::Arr(items) && !(is_index_spelling(toks[0]) && digits_val(toks[0])
            < items.len()),
    ensures
        set_spec(a, toks, new) == (a, false),
{
}

/// A failed write changes nothing: mutation is all-or-nothing. A key is
/// only ever inserted below the failing point's path when the rest of the
/// path runs through freshly created objects, where no array step — the
/// only failing step — can occur.
pub proof fn lemma_set_fail_unchanged(j: Jv, toks: Seq<Seq<char>>, new: Jv)
    ensures
        !set_spec(j, toks, new).1 ==> set_spec(j, toks, new).0 == j,
    decreases toks.len(),
{
    if toks.len() > 0 {
        let t = toks[0];
        match j {
            Jv::Obj(es) => {
                match find_idx(es, t) {
                    Some(fi) => {
                        lemma_find_idx(es, t);
                        lemma_set_fail_unchanged(es[fi].1, toks.drop_first(), new);
                        if !set_spec(j, toks, new).1 {
                            assert(es.update(fi, (es[fi].0, es[fi].1)) =~= es);
                        }
                    },
                    None => {
                        lemma_set_vivifies(toks.drop_first(), new);
                    },
                }
            },
            Jv::Arr(a) => {
                if is_index_spelling(t) && digits_val(t) < a.len() {
                    crate::pointer::lemma_digits_val_grows(t, t.len() as int);
                    assert(t.take(t.len() as int) =~= t);
                    let idx = digits_val(t);
                    lemma_set_fail_unchanged(a[idx], toks.drop_first(), new);
                    if !set_spec(j, toks, new).1 {
                        assert(a.update(idx, a[idx]) =~= a);
                    }
                }
            },
            _ => {
                lemma_set_vivifies(toks.drop_first(), new);
            },
        }
    }
}

/// A write preserves well-formedness: object keys stay pairwise distinct,
/// since only absent keys are inserted.
pub proof fn lemma_set_preserves_wf(j: Jv, toks: Seq<Seq<char>>, new: Jv)
    requires
        wf(j),
        wf(new),
    ensures
        wf(set_spec(j, toks, new).0),
    decreases toks.len(),
{
    if toks.len() == 0 {
    } else {
        let t = toks[0];
        match j {
            Jv::Obj(es) => {
                lemma_find_idx(es, t);
                match find_idx(es, t) {
                    Some(fi) => {
                        lemma_set_preserves_wf(es[fi].1, toks.drop_first(), new);
                        let c = set_spec(es[fi].1, toks.drop_first(), new).0;
                        let es2 = es.update(fi, (es[fi].0, c));
                        assert(forall|p: int|
                            0 <= p < es2.len() ==> (#[trigger] es2[p].0) == es[p].0);
                        assert(forall|p: int|
                            0 <= p < es2.len() ==> wf(#[trigger] es2[p].1));
                    },
                    None => {
                        lemma_set_preserves_wf(Jv::Null, toks.drop_first(), new);
                        let c = set_spec(Jv::Null, toks.drop_first(), new).0;
                        let es2 = es.push((t, c));
                        assert(forall|p: int|
                            0 <= p < es.len() ==> (#[trigger] es2[p].0) == es[p].0);
                        assert(forall|p: int, q: int|
                            0 <= p < q < es2.len() ==> (#[trigger] es2[p].0) != (
                            #[trigger] es2[q].0));
                        assert(forall|p: int|
                            0 <= p < es2.len() ==> wf(#[trigger] es2[p].1));
                    },
                }
            },
            Jv::Arr(items) => {
                if is_index_spelling(t) && digits_val(t) < items.len() {
                    crate::pointer::lemma_digits_val_grows(t, t.len() as int);
                    assert(t.take(t.len() as int) =~= t);
                    lemma_set_preserves_wf(items[digits_val(t)], toks.drop_first(), new);
                    let c = set_spec(items[digits_val(t)], toks.drop_first(), new).0;
                    let a2 = items.update(digits_val(t), c);
                    assert(forall|p: int| 0 <= p < a2.len() ==> wf(#[trigger] a2[p]));
                }
            },
            _ => {
                lemma_set_preserves_wf(Jv::Null, toks.drop_first(), new);
            },
        }
    }
}

/// Write `new` into `doc` at the pointer, and hand the document back as
/// it stands afterwards — unchanged when the pointer is malformed or the
/// write failed.
pub fn do_set(doc: Value, pointer: &Pointer, new: Value) -> (out: Value)
    ensures
        out@ == set_at_ptr(doc@, pointer@, new@).0,
{
    let mut value = doc;
    pointer_mut(&mut value, pointer.as_str(), new);
    value
}

} // verus!
