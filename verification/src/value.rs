//! The document model: an owned JSON value, its mathematical view, and the
//! type classifier.

use vstd::prelude::*;
use vstd::string::StringExecFns;

verus! {

/// A JSON number, as standard JSON semantics allow: a non-negative integer,
/// a negative integer, or an IEEE-754 double (held as its bit pattern, so
/// the verified code can reason about it as plain data).
#[derive(Clone, Copy, PartialEq, Debug)]
pub enum Number {
    PosInt(u64),
    NegInt(i64),
    Float(u64),
}

/// An owned JSON value. An `Object` keeps its entries in insertion order;
/// well-formed objects have pairwise distinct keys (see [`wf`]).
#[derive(PartialEq, Debug)]
pub enum Value {
    Null,
    Bool(bool),
    Number(Number),
    Text(String),
    Array(Vec<Value>),
    Object(Vec<(String, Value)>),
}

/// The mathematical model of a document: text becomes a sequence of
/// characters, containers become sequences. Contracts throughout the crate
/// speak of this type.
pub enum Jv {
    Null,
    Bool(bool),
    Num(Number),
    Text(Seq<char>),
    Arr(Seq<Jv>),
    Obj(Seq<(Seq<char>, Jv)>),
}

/// The model of an array's element list.
pub open spec fn arr_view(a: Seq<Value>) -> Seq<Jv>
    decreases a,
{
    if a.len() == 0 {
        Seq::empty()
    } else {
        arr_view(a.drop_last()).push(vview(a.last()))
    }
}

/// The model of one object's entry list.
pub open spec fn entries_view(es: Seq<(String, Value)>) -> Seq<(Seq<char>, Jv)>
    decreases es,
{
    if es.len() == 0 {
        Seq::empty()
    } else {
        entries_view(es.drop_last()).push((es.last().0@, vview(es.last().1)))
    }
}

/// The model of a value.
pub open spec fn vview(v: Value) -> Jv
    decreases v,
{
    match v {
        Value::Null => Jv::Null,
        Value::Bool(b) => Jv::Bool(b),
        Value::Number(n) => Jv::Num(n),
        Value::Text(s) => Jv::Text(s@),
        Value::Array(a) => Jv::Arr(arr_view(a@)),
        Value::Object(es) => Jv::Obj(entries_view(es@)),
    }
}

/// `arr_view` maps the elements one for one.
pub broadcast proof fn lemma_arr_view(a: Seq<Value>)
    ensures
        #![trigger arr_view(a)]
        arr_view(a).len() == a.len(),
        forall|i: int| 0 <= i < a.len() ==> arr_view(a)[i] == vview(a[i]),
    decreases a,
{
    if a.len() > 0 {
        lemma_arr_view(a.drop_last());
    }
}

/// `entries_view` maps the entries one for one.
pub broadcast proof fn lemma_entries_view(es: Seq<(String, Value)>)
    ensures
        #![trigger entries_view(es)]
        entries_view(es).len() == es.len(),
        forall|i: int| 0 <= i < es.len() ==> entries_view(es)[i] == (es[i].0@, vview(es[i].1)),
    decreases es,
{
    if es.len() > 0 {
        lemma_entries_view(es.drop_last());
    }
}

impl View for Value {
    type V = Jv;

    open spec fn view(&self) -> Jv {
        vview(*self)
    }
}

/// Well-formedness: every object in the document has pairwise distinct keys.
pub open spec fn wf(j: Jv) -> bool
    decreases j,
{
    match j {
        Jv::Arr(a) => forall|i: int| 0 <= i < a.len() ==> wf(#[trigger] a[i]),
        Jv::Obj(es) => {
            &&& forall|i: int, k: int| 0 <= i < k < es.len() ==> (#[trigger] es[i].0) != (#[trigger] es[k].0)
            &&& forall|i: int| 0 <= i < es.len() ==> wf(#[trigger] (es[i].1))
        },
        _ => true,
    }
}

/// The position of the first entry bound to a key, if any.
pub open spec fn find_idx(es: Seq<(Seq<char>, Jv)>, k: Seq<char>) -> Option<int>
    decreases es.len(),
{
    if es.len() == 0 {
        None
    } else if es[0].0 == k {
        Some(0)
    } else {
        match find_idx(es.drop_first(), k) {
            Some(i) => Some(i + 1),
            None => None,
        }
    }
}

/// The value the first entry with a key binds, if any.
pub open spec fn lookup(es: Seq<(Seq<char>, Jv)>, k: Seq<char>) -> Option<Jv> {
    match find_idx(es, k) {
        Some(i) => Some(es[i].1),
        None => None,
    }
}

/// What `find_idx` finds: the first entry carrying the key, and nothing
/// exactly when no entry carries it.
pub proof fn lemma_find_idx(es: Seq<(Seq<char>, Jv)>, k: Seq<char>)
    ensures
        match find_idx(es, k) {
            Some(i) => 0 <= i < es.len() && es[i].0 == k && (forall|j: int|
                0 <= j < i ==> (#[trigger] es[j].0) != k),
            None => forall|j: int| 0 <= j < es.len() ==> (#[trigger] es[j].0) != k,
        },
    decreases es.len(),
{
    if es.len() > 0 && es[0].0 != k {
        lemma_find_idx(es.drop_first(), k);
        assert(forall|j: int|
            1 <= j < es.len() ==> (#[trigger] es[j].0) == es.drop_first()[j - 1].0);
    }
}

/// The six type tags a value can classify as.
#[derive(Clone, Copy, PartialEq, Eq, Structural, Debug)]
pub enum Tag {
    Null,
    Boolean,
    Number,
    Text,
    Array,
    Object,
}

/// The tag of a value: total, and each variant maps to exactly one tag.
pub open spec fn tag_of(j: Jv) -> Tag {
    match j {
        Jv::Null => Tag::Null,
        Jv::Bool(_) => Tag::Boolean,
        Jv::Num(_) => Tag::Number,
        Jv::Text(_) => Tag::Text,
        Jv::Arr(_) => Tag::Array,
        Jv::Obj(_) => Tag::Object,
    }
}

/// Classify a value by its variant. Total: no input fails.
pub fn classify(v: &Value) -> (t: Tag)
    ensures
        t == tag_of(v@),
{
    match v {
        Value::Null => Tag::Null,
        Value::Bool(_) => Tag::Boolean,
        Value::Number(_) => Tag::Number,
        Value::Text(_) => Tag::Text,
        Value::Array(_) => Tag::Array,
        Value::Object(_) => Tag::Object,
    }
}

/// The printable name of a type tag.
pub open spec fn tag_name(t: Tag) -> Seq<char> {
    match t {
        Tag::Null => "null"@,
        Tag::Boolean => "boolean"@,
        Tag::Number => "number"@,
        Tag::Text => "string"@,
        Tag::Array => "array"@,
        Tag::Object => "object"@,
    }
}

/// The type of a value, as the name the type command prints.
pub fn do_type(v: &Value) -> (s: String)
    ensures
        s@ == tag_name(tag_of(v@)),
{
    match classify(v) {
        Tag::Null => String::from_str("null"),
        Tag::Boolean => String::from_str("boolean"),
        Tag::Number => String::from_str("number"),
        Tag::Text => String::from_str("string"),
        Tag::Array => String::from_str("array"),
        Tag::Object => String::from_str("object"),
    }
}

} // verus!
