//! The read path: navigate a value by a token sequence, with no side
//! effects, failing on the first missing key, bad index, or scalar.

use vstd::prelude::*;
use crate::pointer::{decode_token, digits_val, is_index_spelling, parse_index, parse_pointer, split_slash, tokens_of, Pointer};
use crate::value::{arr_view, entries_view, find_idx, lemma_arr_view, lemma_entries_view, lemma_find_idx, lookup, vview, Jv, Value};

verus! {

broadcast use lemma_arr_view, lemma_entries_view;

/// Read-only resolution of a token sequence against a value: zero tokens
/// give the value itself; an object step follows the key, an array step a
/// valid in-bounds index, and any other step fails.
pub open spec fn resolve_spec(j: Jv, toks: Seq<Seq<char>>) -> Option<Jv>
    decreases toks.len(),
{
    if toks.len() == 0 {
        Some(j)
    } else {
        match j {
            Jv::Obj(es) => match lookup(es, toks[0]) {
                Some(c) => resolve_spec(c, toks.drop_first()),
                None => None,
            },
            Jv::Arr(a) => if is_index_spelling(toks[0]) && digits_val(toks[0]) < a.len() {
                resolve_spec(a[digits_val(toks[0])], toks.drop_first())
            } else {
                None
            },
            _ => None,
        }
    }
}

/// Find the first entry of an object bound to a key.
pub fn obj_find(es: &Vec<(String, Value)>, key: &String) -> (r: Option<usize>)
    ensures
        match r {
            Some(i) => find_idx(entries_view(es@), key@) == Some(i as int),
            None => find_idx(entries_view(es@), key@) is None,
        },
{
    let mut i: usize = 0;
    while i < es.len()
        invariant
            i <= es.len(),
            forall|j: int| 0 <= j < i ==> (#[trigger] entries_view(es@)[j].0) != key@,
        decreases es.len() - i,
    {
        if es[i].0 == *key {
            proof {
                let ev = entries_view(es@);
                lemma_find_idx(ev, key@);
                assert(ev[i as int].0 == key@);
                match find_idx(ev, key@) {
                    Some(fi) => {
                        if fi < i as int {
                            assert(ev[fi].0 == key@);
                            assert(false);
                        }
                        if fi > i as int {
                            assert(ev[i as int].0 != key@);
                            assert(false);
                        }
                    },
                    None => {
                        assert(ev[i as int].0 != key@);
                        assert(false);
                    },
                }
            }
            return Some(i);
        }
        i = i + 1;
    }
    proof {
        lemma_find_idx(entries_view(es@), key@);
    }
    None
}

/// Resolve a token sequence, returning a view into the value or nothing.
pub fn resolve<'a>(v: &'a Value, toks: &Vec<String>) -> (r: Option<&'a Value>)
    ensures
        match r {
            Some(rv) => resolve_spec(v@, toks.deep_view()) == Some(rv@),
            None => resolve_spec(v@, toks.deep_view()) is None,
        },
{
    let mut cur: &Value = v;
    let mut i: usize = 0;
    proof {
        assert(toks.deep_view().skip(0) =~= toks.deep_view());
    }
    while i < toks.len()
        invariant
            i <= toks.len(),
            toks.deep_view().len() == toks.len(),
            resolve_spec(v@, toks.deep_view()) == resolve_spec(
                cur@,
                toks.deep_view().skip(i as int),
            ),
        decreases toks.len() - i,
    {
        let ghost rem = toks.deep_view().skip(i as int);
        proof {
            assert(rem[0] == toks.deep_view()[i as int]);
            assert(rem.drop_first() =~= toks.deep_view().skip(i + 1));
        }
        let t = &toks[i];
        match cur {
            Value::Object(es) => {
                match obj_find(es, t) {
                    Some(j) => {
                        proof {
                            lemma_find_idx(entries_view(es@), t@);
                        }
                        cur = &es[j].1;
                    },
                    None => {
                        return None;
                    },
                }
            },
            Value::Array(items) => {
                let l = items.len();
                proof {
                    assert(rem[0] == toks@[i as int]@);
                    assert(arr_view(items@).len() == items@.len());
                }
                match parse_index(t.as_str()) {
                    Some(idx) => {
                        if idx < l {
                            proof {
                                assert(arr_view(items@)[idx as int] == vview(items@[idx as int]));
                            }
                            cur = &items[idx];
                        } else {
                            proof {
                                assert(digits_val(rem[0]) >= arr_view(items@).len());
                                assert(resolve_spec(cur@, rem) is None);
                            }
                            return None;
                        }
                    },
                    None => {
                        proof {
                            if is_index_spelling(rem[0]) {
                                assert(digits_val(rem[0]) > usize::MAX as int);
                            }
                            assert(resolve_spec(cur@, rem) is None);
                        }
                        return None;
                    },
                }
            },
            _ => {
                return None;
            },
        }
        i = i + 1;
    }
    proof {
        assert(toks.deep_view().skip(toks.len() as int) =~= Seq::<Seq<char>>::empty());
    }
    Some(cur)
}

/// What a pointer text addresses in a value: nothing for a malformed
/// pointer, else the resolved sub-value.
pub open spec fn get_spec(j: Jv, p: Seq<char>) -> Option<Jv> {
    match tokens_of(p) {
        None => None,
        Some(ts) => resolve_spec(j, ts),
    }
}

/// Escaped addressing agrees with direct lookup: for any key, however
/// many `/` or `~` it holds, the pointer built from `/` and the encoded
/// key resolves in an object to exactly what looking the key up gives.
pub proof fn lemma_get_encoded_key(a: Jv, k: Seq<char>)
    requires
        a matches Jv::Obj(es),
    ensures
        a matches Jv::Obj(es) && get_spec(a, seq!['/'] + crate::pointer::encode_token(k))
            == lookup(es, k),
{
    match a {
        Jv::Obj(es) => {
            let e = crate::pointer::encode_token(k);
            let p = seq!['/'] + e;
            assert(p[0] == '/');
            assert(p.skip(1) =~= e);
            crate::pointer::lemma_encode_no_slash(k);
            crate::pointer::lemma_split_no_slash(e);
            crate::pointer::lemma_decode_encode(k);
            assert(split_slash(p.skip(1)) == seq![e]);
            let toks = split_slash(p.skip(1)).map_values(|t: Seq<char>| decode_token(t));
            assert(tokens_of(p) == Some(toks));
            assert(toks =~= seq![k]);
            assert(get_spec(a, p) == resolve_spec(a, seq![k]));
            assert(seq![k].drop_first() =~= Seq::<Seq<char>>::empty());
            match lookup(es, k) {
                Some(c) => {
                    assert(resolve_spec(a, seq![k]) == resolve_spec(c, seq![k].drop_first()));
                    assert(resolve_spec(c, Seq::<Seq<char>>::empty()) == Some(c));
                },
                None => {
                    assert(resolve_spec(a, seq![k]) is None);
                },
            }
        },
        _ => {},
    }
}

/// Get the sub-value a pointer addresses, or nothing when the pointer is
/// malformed or does not resolve.
pub fn do_get<'a>(v: &'a Value, pointer: &Pointer) -> (r: Option<&'a Value>)
    ensures
        match r {
            Some(rv) => get_spec(v@, pointer@) == Some(rv@),
            None => get_spec(v@, pointer@) is None,
        },
{
    match parse_pointer(pointer.as_str()) {
        Some(toks) => resolve(v, &toks),
        None => None,
    }
}

} // verus!
