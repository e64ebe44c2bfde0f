//! The structural comparator: deep equality, order-sensitive for arrays,
//! key-order-insensitive for objects, value equality for numbers.

use vstd::prelude::*;
use crate::num::{num_eq, num_val};
use crate::resolve::obj_find;
use crate::value::{arr_view, entries_view, find_idx, lemma_arr_view, lemma_entries_view, lemma_find_idx, lookup, wf, Jv, Value};

verus! {

broadcast use lemma_arr_view, lemma_entries_view;

/// Whether one object entry is matched inside another object's entries:
/// the key is present there and binds an equal value.
pub open spec fn obj_entry_eq(other: Seq<(Seq<char>, Jv)>, e: (Seq<char>, Jv)) -> bool
    decreases e,
{
    match lookup(other, e.0) {
        Some(w) => eq_spec(e.1, w),
        None => false,
    }
}

/// Structural equality. Scalars compare by value (numbers numerically, so
/// an integer equals a double of the same value); arrays elementwise in
/// order; objects by key set, order left aside; distinct variants are
/// unequal.
pub open spec fn eq_spec(a: Jv, b: Jv) -> bool
    decreases a,
{
    match (a, b) {
        (Jv::Null, Jv::Null) => true,
        (Jv::Bool(x), Jv::Bool(y)) => x == y,
        (Jv::Num(x), Jv::Num(y)) => num_val(x) == num_val(y),
        (Jv::Text(x), Jv::Text(y)) => x == y,
        (Jv::Arr(x), Jv::Arr(y)) => x.len() == y.len() && (forall|i: int|
            0 <= i < x.len() ==> eq_spec(#[trigger] x[i], y[i])),
        (Jv::Obj(x), Jv::Obj(y)) => x.len() == y.len() && (forall|i: int|
            0 <= i < x.len() ==> obj_entry_eq(y, #[trigger] x[i])),
        _ => false,
    }
}

fn eq_arr(x: &Vec<Value>, y: &Vec<Value>) -> (r: bool)
    ensures
        r == eq_spec(Jv::Arr(arr_view(x@)), Jv::Arr(arr_view(y@))),
    decreases *x,
{
    if x.len() != y.len() {
        return false;
    }
    let mut i: usize = 0;
    while i < x.len()
        invariant
            i <= x.len(),
            x.len() == y.len(),
            forall|j: int| 0 <= j < i ==> eq_spec(#[trigger] arr_view(x@)[j], arr_view(y@)[j]),
        decreases x.len() - i,
    {
        let xe = &x[i];
        let ye = &y[i];
        proof {
            assert(decreases_to!(*x => x@[i as int]));
        }
        if !equal(xe, ye) {
            proof {
                assert(!eq_spec(arr_view(x@)[i as int], arr_view(y@)[i as int]));
            }
            return false;
        }
        i = i + 1;
    }
    true
}

fn eq_obj(x: &Vec<(String, Value)>, y: &Vec<(String, Value)>) -> (r: bool)
    ensures
        r == eq_spec(Jv::Obj(entries_view(x@)), Jv::Obj(entries_view(y@))),
    decreases *x,
{
    if x.len() != y.len() {
        return false;
    }
    let mut i: usize = 0;
    while i < x.len()
        invariant
            i <= x.len(),
            x.len() == y.len(),
            forall|j: int|
                0 <= j < i ==> obj_entry_eq(entries_view(y@), #[trigger] entries_view(x@)[j]),
        decreases x.len() - i,
    {
        let xe = &x[i];
        match obj_find(y, &xe.0) {
            Some(jy) => {
                proof {
                    lemma_find_idx(entries_view(y@), xe.0@);
                    assert(lookup(entries_view(y@), entries_view(x@)[i as int].0) == Some(
                        entries_view(y@)[jy as int].1,
                    ));
                    assert(decreases_to!(*x => x@[i as int]));
                    assert(decreases_to!(x@[i as int] => x@[i as int].1));
                }
                let ye = &y[jy];
                if !equal(&xe.1, &ye.1) {
                    proof {
                        assert(!obj_entry_eq(entries_view(y@), entries_view(x@)[i as int]));
                    }
                    return false;
                }
            },
            None => {
                proof {
                    assert(!obj_entry_eq(entries_view(y@), entries_view(x@)[i as int]));
                }
                return false;
            },
        }
        i = i + 1;
    }
    true
}

/// Deep equality of two documents.
pub fn equal(a: &Value, b: &Value) -> (r: bool)
    ensures
        r == eq_spec(a@, b@),
    decreases *a,
{
    match (a, b) {
        (Value::Null, Value::Null) => true,
        (Value::Bool(x), Value::Bool(y)) => *x == *y,
        (Value::Number(x), Value::Number(y)) => num_eq(*x, *y),
        (Value::Text(x), Value::Text(y)) => *x == *y,
        (Value::Array(x), Value::Array(y)) => eq_arr(x, y),
        (Value::Object(x), Value::Object(y)) => eq_obj(x, y),
        _ => false,
    }
}

/// The keys of an object's entries, in order.
pub open spec fn keys_of(s: Seq<(Seq<char>, Jv)>) -> Seq<Seq<char>> {
    s.map_values(|e: (Seq<char>, Jv)| e.0)
}

/// Equality is reflexive on well-formed values.
pub proof fn lemma_eq_reflexive(a: Jv)
    requires
        wf(a),
    ensures
        eq_spec(a, a),
    decreases a,
{
    match a {
        Jv::Arr(x) => {
            assert forall|i: int| 0 <= i < x.len() implies eq_spec(#[trigger] x[i], x[i]) by {
                lemma_eq_reflexive(x[i]);
            }
        },
        Jv::Obj(x) => {
            assert forall|i: int| 0 <= i < x.len() implies obj_entry_eq(x, #[trigger] x[i]) by {
                lemma_find_idx(x, x[i].0);
                match find_idx(x, x[i].0) {
                    Some(fi) => {
                        assert(x[fi].0 == x[i].0);
                        assert(fi == i);
                        lemma_eq_reflexive(x[i].1);
                    },
                    None => {
                        assert(x[i].0 != x[i].0);
                    },
                }
            }
        },
        _ => {},
    }
}

/// Equality is symmetric on well-formed values.
pub proof fn lemma_eq_symmetric(a: Jv, b: Jv)
    requires
        wf(a),
        wf(b),
        eq_spec(a, b),
    ensures
        eq_spec(b, a),
    decreases a,
{
    match (a, b) {
        (Jv::Arr(x), Jv::Arr(y)) => {
            assert forall|i: int| 0 <= i < y.len() implies eq_spec(#[trigger] y[i], x[i]) by {
                assert(eq_spec(x[i], y[i]));
                lemma_eq_symmetric(x[i], y[i]);
            }
        },
        (Jv::Obj(x), Jv::Obj(y)) => {
            let kx = keys_of(x);
            let ky = keys_of(y);
            assert(kx.no_duplicates());
            assert(ky.no_duplicates());
            assert forall|k: Seq<char>| kx.to_set().contains(k) implies ky.to_set().contains(
                k,
            ) by {
                let i = choose|i: int| 0 <= i < kx.len() && kx[i] == k;
                assert(obj_entry_eq(y, x[i]));
                lemma_find_idx(y, x[i].0);
                match find_idx(y, x[i].0) {
                    Some(f) => {
                        assert(ky[f] == k);
                        assert(ky.contains(k));
                    },
                    None => {},
                }
            }
            kx.unique_seq_to_set();
            ky.unique_seq_to_set();
            vstd::set_lib::lemma_subset_equality(kx.to_set(), ky.to_set());
            assert forall|j: int| 0 <= j < y.len() implies obj_entry_eq(x, #[trigger] y[j]) by {
                assert(ky[j] == y[j].0);
                assert(ky.contains(y[j].0));
                assert(kx.to_set().contains(y[j].0));
                let i = choose|i: int| 0 <= i < kx.len() && kx[i] == y[j].0;
                assert(x[i].0 == y[j].0);
                assert(obj_entry_eq(y, x[i]));
                lemma_find_idx(y, x[i].0);
                match find_idx(y, x[i].0) {
                    Some(fy) => {
                        assert(y[fy].0 == y[j].0);
                        assert(fy == j);
                        assert(eq_spec(x[i].1, y[j].1));
                        lemma_find_idx(x, y[j].0);
                        match find_idx(x, y[j].0) {
                            Some(fx) => {
                                assert(x[fx].0 == x[i].0);
                                assert(fx == i);
                                lemma_eq_symmetric(x[i].1, y[j].1);
                            },
                            None => {
                                assert(x[i].0 != y[j].0);
                            },
                        }
                    },
                    None => {},
                }
            }
        },
        _ => {},
    }
}

/// Key order does not matter: two well-formed objects holding the same
/// entries, in whatever orders, are equal.
pub proof fn lemma_eq_obj_key_order(a: Jv, b: Jv)
    requires
        wf(a),
        wf(b),
        a matches Jv::Obj(x) && b matches Jv::Obj(y) && x.to_multiset() == y.to_multiset(),
    ensures
        eq_spec(a, b),
{
    match (a, b) {
        (Jv::Obj(x), Jv::Obj(y)) => {
            vstd::seq_lib::to_multiset_len(x);
            vstd::seq_lib::to_multiset_len(y);
            assert(x.len() == y.len());
            assert forall|i: int| 0 <= i < x.len() implies obj_entry_eq(y, #[trigger] x[i]) by {
                assert(x.contains(x[i]));
                vstd::seq_lib::to_multiset_contains(x, x[i]);
                vstd::seq_lib::to_multiset_contains(y, x[i]);
                assert(y.contains(x[i]));
                let j = choose|j: int| 0 <= j < y.len() && y[j] == x[i];
                lemma_find_idx(y, x[i].0);
                match find_idx(y, x[i].0) {
                    Some(f) => {
                        assert(y[f].0 == y[j].0);
                        if f != j {
                            if f < j {
                                assert(y[f].0 != y[j].0);
                            } else {
                                assert(y[j].0 != y[f].0);
                            }
                            assert(false);
                        }
                        lemma_eq_reflexive(x[i].1);
                    },
                    None => {
                        assert(y[j].0 != x[i].0);
                    },
                }
            }
        },
        _ => {},
    }
}

/// Compare two documents: success exactly when they are structurally
/// equal.
pub fn do_compare(first: &Value, second: &Value) -> (r: Result<(), ()>)
    ensures
        r is Ok <==> eq_spec(first@, second@),
{
    if equal(first, second) {
        Ok(())
    } else {
        Err(())
    }
}

} // verus!
