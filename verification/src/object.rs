//! The objects of a PDF file and their mathematical values.
use vstd::prelude::*;
use crate::bytes::bytes_eq;

verus! {

/// An indirect reference: object number and generation number. It names an
/// object in the object table and owns nothing.
#[derive(Clone, Copy, Debug, PartialEq, Eq, Structural)]
pub struct ObjRef {
    pub number: u32,
    pub generation: u16,
}

/// A PDF object. A number is either an `Integer` or a `Real`, the latter kept
/// as it is written. A dictionary is the list of its entries in file order.
#[derive(Debug, PartialEq, Eq)]
pub enum PdfObject {
    Null,
    Boolean(bool),
    Integer(i64),
    Real(Vec<u8>),
    String(Vec<u8>),
    Name(Vec<u8>),
    Array(Vec<PdfObject>),
    Dictionary(Vec<(Vec<u8>, PdfObject)>),
    /// A stream: its dictionary and its data as stored, not yet decoded.
    Stream(Vec<(Vec<u8>, PdfObject)>, Vec<u8>),
    Reference(ObjRef),
}

/// The mathematical value of a PDF object.
pub enum Value {
    Null,
    Boolean(bool),
    Integer(int),
    Real(Seq<u8>),
    String(Seq<u8>),
    Name(Seq<u8>),
    Array(Seq<Value>),
    Dictionary(Seq<(Seq<u8>, Value)>),
    Stream(Seq<(Seq<u8>, Value)>, Seq<u8>),
    Reference(ObjRef),
}

/// The values of a list of objects.
pub open spec fn items_view(items: Vec<PdfObject>) -> Seq<Value>
    decreases items, 0int,
{
    Seq::new(
        items@.len(),
        |i: int|
            if 0 <= i < items@.len() {
                items[i].view()
            } else {
                Value::Null
            },
    )
}

/// The keys and values of a list of dictionary entries.
pub open spec fn dict_view(entries: Vec<(Vec<u8>, PdfObject)>) -> Seq<(Seq<u8>, Value)>
    decreases entries, 0int,
{
    Seq::new(
        entries@.len(),
        |i: int|
            if 0 <= i < entries@.len() {
                (entries[i].0@, entries[i].1.view())
            } else {
                (Seq::empty(), Value::Null)
            },
    )
}

impl View for PdfObject {
    type V = Value;

    open spec fn view(&self) -> Value
        decreases self, 1int,
    {
        match self {
            PdfObject::Null => Value::Null,
            PdfObject::Boolean(b) => Value::Boolean(*b),
            PdfObject::Integer(n) => Value::Integer(*n as int),
            PdfObject::Real(b) => Value::Real(b@),
            PdfObject::String(b) => Value::String(b@),
            PdfObject::Name(b) => Value::Name(b@),
            PdfObject::Array(items) => Value::Array(items_view(*items)),
            PdfObject::Dictionary(entries) => Value::Dictionary(dict_view(*entries)),
            PdfObject::Stream(entries, data) => Value::Stream(dict_view(*entries), data@),
            PdfObject::Reference(r) => Value::Reference(*r),
        }
    }
}

/// The value of a list of objects holds the value of each object, in order.
pub proof fn lemma_items_view(items: Vec<PdfObject>)
    ensures
        items_view(items).len() == items.len(),
        forall|i: int| 0 <= i < items.len() ==> #[trigger] items_view(items)[i] == items[i]@,
{
}

/// The least index at or after `from` of an entry with the given key.
pub open spec fn dict_find(d: Seq<(Seq<u8>, Value)>, key: Seq<u8>, from: int) -> Option<int>
    decreases d.len() - from,
{
    if from < 0 || from >= d.len() {
        None
    } else if d[from].0 == key {
        Some(from)
    } else {
        dict_find(d, key, from + 1)
    }
}

/// The value of the first entry with the given key.
pub open spec fn dict_get(d: Seq<(Seq<u8>, Value)>, key: Seq<u8>) -> Option<Value> {
    match dict_find(d, key, 0) {
        Some(i) => Some(d[i].1),
        None => None,
    }
}

/// The dictionary with one more entry at its end, unless it has the key
/// already: the first entry of a key stands.
pub open spec fn dict_insert(d: Seq<(Seq<u8>, Value)>, key: Seq<u8>, value: Value) -> Seq<
    (Seq<u8>, Value),
> {
    if dict_find(d, key, 0) is Some {
        d
    } else {
        d.push((key, value))
    }
}

/// No key occurs twice.
pub open spec fn keys_unique(d: Seq<(Seq<u8>, Value)>) -> bool {
    forall|i: int, j: int| 0 <= i < j < d.len() ==> d[i].0 != d[j].0
}

/// In the object and in every object inside it, no dictionary has a key
/// twice.
pub open spec fn well_formed(v: Value) -> bool
    decreases v,
{
    match v {
        Value::Array(items) => forall|i: int|
            0 <= i < items.len() ==> well_formed(#[trigger] items[i]),
        Value::Dictionary(d) => keys_unique(d) && forall|i: int|
            0 <= i < d.len() ==> well_formed((#[trigger] d[i]).1),
        Value::Stream(d, data) => keys_unique(d) && forall|i: int|
            0 <= i < d.len() ==> well_formed((#[trigger] d[i]).1),
        _ => true,
    }
}

/// `dict_find` gives the first entry with the key, and `None` only where no
/// entry has it.
pub proof fn lemma_dict_find(d: Seq<(Seq<u8>, Value)>, key: Seq<u8>, from: int)
    requires
        0 <= from,
    ensures
        match dict_find(d, key, from) {
            Some(i) => from <= i < d.len() && d[i].0 == key && forall|j: int|
                from <= j < i ==> d[j].0 != key,
            None => forall|j: int| from <= j < d.len() ==> d[j].0 != key,
        },
    decreases d.len() - from,
{
    if from < d.len() && d[from].0 != key {
        lemma_dict_find(d, key, from + 1);
    }
}

/// Inserting keeps the keys unique, and keeps what every key had.
pub proof fn lemma_dict_insert(d: Seq<(Seq<u8>, Value)>, key: Seq<u8>, value: Value)
    requires
        keys_unique(d),
    ensures
        keys_unique(dict_insert(d, key, value)),
        forall|k: Seq<u8>|
            dict_get(d, k) is Some ==> dict_get(dict_insert(d, key, value), k) == dict_get(d, k),
        dict_get(d, key) is None ==> dict_get(dict_insert(d, key, value), key) == Some(value),
{
    lemma_dict_find(d, key, 0);
    let e = dict_insert(d, key, value);
    assert forall|k: Seq<u8>| dict_get(d, k) is Some implies dict_get(e, k) == dict_get(d, k) by {
        lemma_dict_find(d, k, 0);
        lemma_dict_find(e, k, 0);
        let i = dict_find(d, k, 0)->0;
        assert(e[i] == d[i]);
        let i2 = dict_find(e, k, 0)->0;
        assert(e[i2] == d[i2]);
    }
    if dict_get(d, key) is None {
        lemma_dict_find(e, key, 0);
        assert(e[d.len() as int].0 == key);
        let i2 = dict_find(e, key, 0)->0;
        if i2 < d.len() {
            assert(e[i2] == d[i2]);
        }
    }
}

/// The entry of a dictionary with the given key, if there is one.
pub fn dict_lookup<'a>(entries: &'a Vec<(Vec<u8>, PdfObject)>, key: &[u8]) -> (r: Option<
    &'a PdfObject,
>)
    ensures
        match r {
            Some(o) => dict_get(dict_view(*entries), key@) == Some(o@),
            None => dict_get(dict_view(*entries), key@) is None,
        },
{
    let ghost d = dict_view(*entries);
    let mut i: usize = 0;
    while i < entries.len()
        invariant
            i <= entries.len(),
            d == dict_view(*entries),
            dict_find(d, key@, 0) == dict_find(d, key@, i as int),
        decreases entries.len() - i,
    {
        if bytes_eq(entries[i].0.as_slice(), key) {
            return Some(&entries[i].1);
        }
        i += 1;
    }
    None
}

fn clone_items(items: &Vec<PdfObject>) -> (r: Vec<PdfObject>)
    ensures
        items_view(r) == items_view(*items),
    decreases items,
{
    let mut out: Vec<PdfObject> = Vec::new();
    let mut i: usize = 0;
    while i < items.len()
        invariant
            i <= items.len(),
            out.len() == i,
            forall|k: int| 0 <= k < i ==> out[k]@ == items[k]@,
        decreases items.len() - i,
    {
        out.push(clone_object(&items[i]));
        i += 1;
    }
    assert(items_view(out) =~= items_view(*items));
    out
}

fn clone_entries(entries: &Vec<(Vec<u8>, PdfObject)>) -> (r: Vec<(Vec<u8>, PdfObject)>)
    ensures
        dict_view(r) == dict_view(*entries),
    decreases entries,
{
    let mut out: Vec<(Vec<u8>, PdfObject)> = Vec::new();
    let mut i: usize = 0;
    while i < entries.len()
        invariant
            i <= entries.len(),
            out.len() == i,
            forall|k: int| 0 <= k < i ==> out[k].0@ == entries[k].0@ && out[k].1@ == entries[k].1@,
        decreases entries.len() - i,
    {
        let key = vstd::slice::slice_to_vec(entries[i].0.as_slice());
        let value = clone_object(&entries[i].1);
        out.push((key, value));
        i += 1;
    }
    assert(dict_view(out) =~= dict_view(*entries));
    out
}

/// A copy of an object, with the same value.
pub fn clone_object(o: &PdfObject) -> (r: PdfObject)
    ensures
        r@ == o@,
    decreases o,
{
    match o {
        PdfObject::Null => PdfObject::Null,
        PdfObject::Boolean(b) => PdfObject::Boolean(*b),
        PdfObject::Integer(n) => PdfObject::Integer(*n),
        PdfObject::Real(b) => PdfObject::Real(vstd::slice::slice_to_vec(b.as_slice())),
        PdfObject::String(b) => PdfObject::String(vstd::slice::slice_to_vec(b.as_slice())),
        PdfObject::Name(b) => PdfObject::Name(vstd::slice::slice_to_vec(b.as_slice())),
        PdfObject::Array(items) => PdfObject::Array(clone_items(items)),
        PdfObject::Dictionary(entries) => PdfObject::Dictionary(clone_entries(entries)),
        PdfObject::Stream(entries, data) => PdfObject::Stream(
            clone_entries(entries),
            vstd::slice::slice_to_vec(data.as_slice()),
        ),
        PdfObject::Reference(r) => PdfObject::Reference(*r),
    }
}

} // verus!
