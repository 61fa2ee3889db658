//! The structured, self-describing value that parameters and results carry,
//! together with its ghost model.

use vstd::prelude::*;

verus! {

/// A structured value carried in message parameters and results.
///
/// Strings are byte strings; the wire form restricts them to bytes that
/// need no escaping (see `wf_val`).
#[derive(Debug, PartialEq, Eq)]
pub enum Value {
    Null,
    Bool(bool),
    Int(i64),
    Str(Vec<u8>),
    Arr(Vec<Value>),
    Obj(Vec<(Vec<u8>, Value)>),
}

/// The mathematical model of a `Value`.
pub enum Val {
    Null,
    Bool(bool),
    Int(int),
    Str(Seq<u8>),
    Arr(Seq<Val>),
    Obj(Seq<(Seq<u8>, Val)>),
}

/// Model of the values of `items[i..]`.
pub open spec fn vals_view(items: Vec<Value>, i: int) -> Seq<Val>
    decreases items, items@.len() - i, 0int,
{
    if i < 0 || i >= items@.len() {
        Seq::empty()
    } else {
        seq![val_view(items@[i])] + vals_view(items, i + 1)
    }
}

/// Model of the fields of `fields[i..]`.
pub open spec fn fields_view(fields: Vec<(Vec<u8>, Value)>, i: int) -> Seq<(Seq<u8>, Val)>
    decreases fields, fields@.len() - i, 0int,
{
    if i < 0 || i >= fields@.len() {
        Seq::empty()
    } else {
        seq![(fields@[i].0@, val_view(fields@[i].1))] + fields_view(fields, i + 1)
    }
}

/// The model of a value: its shape with every container abstracted to a `Seq`.
pub open spec fn val_view(v: Value) -> Val
    decreases v, 0int, 1int,
{
    match v {
        Value::Null => Val::Null,
        Value::Bool(b) => Val::Bool(b),
        Value::Int(n) => Val::Int(n as int),
        Value::Str(s) => Val::Str(s@),
        Value::Arr(items) => Val::Arr(vals_view(items, 0)),
        Value::Obj(fields) => Val::Obj(fields_view(fields, 0)),
    }
}

impl View for Value {
    type V = Val;

    open spec fn view(&self) -> Val {
        val_view(*self)
    }
}

/// `vals_view(items, i)` is the pointwise model of `items[i..]`.
pub proof fn lemma_vals_view(items: Vec<Value>, i: int)
    requires
        0 <= i <= items@.len(),
    ensures
        vals_view(items, i).len() == items@.len() - i,
        forall|k: int|
            0 <= k < items@.len() - i ==> #[trigger] vals_view(items, i)[k] == val_view(
                items@[i + k],
            ),
    decreases items@.len() - i,
{
    if i < items@.len() {
        lemma_vals_view(items, i + 1);
    }
}

/// `fields_view(fields, i)` is the pointwise model of `fields[i..]`.
pub proof fn lemma_fields_view(fields: Vec<(Vec<u8>, Value)>, i: int)
    requires
        0 <= i <= fields@.len(),
    ensures
        fields_view(fields, i).len() == fields@.len() - i,
        forall|k: int|
            0 <= k < fields@.len() - i ==> #[trigger] fields_view(fields, i)[k] == (
            fields@[i + k].0@,
            val_view(fields@[i + k].1),
            ),
    decreases fields@.len() - i,
{
    if i < fields@.len() {
        lemma_fields_view(fields, i + 1);
    }
}


/// Byte-for-byte copy of a byte string.
pub fn copy_bytes(src: &Vec<u8>) -> (r: Vec<u8>)
    ensures
        r@ == src@,
{
    let mut r: Vec<u8> = Vec::new();
    let mut k: usize = 0;
    while k < src.len()
        invariant
            k <= src@.len(),
            r@ == src@.subrange(0, k as int),
        decreases src@.len() - k,
    {
        r.push(src[k]);
        proof {
            assert(r@ =~= src@.subrange(0, k + 1));
        }
        k = k + 1;
    }
    proof {
        assert(src@.subrange(0, src@.len() as int) =~= src@);
    }
    r
}

/// A deep copy with the same model.
pub fn clone_value(v: &Value) -> (r: Value)
    ensures
        val_view(r) == val_view(*v),
    decreases v, 0int, 1int,
{
    match v {
        Value::Null => Value::Null,
        Value::Bool(b) => Value::Bool(*b),
        Value::Int(n) => Value::Int(*n),
        Value::Str(s) => Value::Str(copy_bytes(s)),
        Value::Arr(items) => {
            let r = Value::Arr(clone_values(items));
            proof {
                assert(val_view(r) == val_view(*v));
            }
            r
        },
        Value::Obj(fields) => {
            let r = Value::Obj(clone_fields(fields));
            proof {
                assert(val_view(r) == val_view(*v));
            }
            r
        },
    }
}

fn clone_values(items: &Vec<Value>) -> (r: Vec<Value>)
    ensures
        vals_view(r, 0) == vals_view(*items, 0),
    decreases items, items@.len(), 0int,
{
    let mut r: Vec<Value> = Vec::new();
    let mut k: usize = 0;
    while k < items.len()
        invariant
            k <= items@.len(),
            r@.len() == k,
            forall|m: int| 0 <= m < k ==> val_view(#[trigger] r@[m]) == val_view(items@[m]),
        decreases items@.len() - k,
    {
        let c = clone_value(&items[k]);
        r.push(c);
        k = k + 1;
    }
    proof {
        lemma_vals_view(r, 0);
        lemma_vals_view(*items, 0);
        assert(vals_view(r, 0) =~= vals_view(*items, 0));
    }
    r
}

fn clone_fields(fields: &Vec<(Vec<u8>, Value)>) -> (r: Vec<(Vec<u8>, Value)>)
    ensures
        fields_view(r, 0) == fields_view(*fields, 0),
    decreases fields, fields@.len(), 0int,
{
    let mut r: Vec<(Vec<u8>, Value)> = Vec::new();
    let mut k: usize = 0;
    while k < fields.len()
        invariant
            k <= fields@.len(),
            r@.len() == k,
            forall|m: int|
                0 <= m < k ==> (#[trigger] r@[m]).0@ == fields@[m].0@ && val_view(r@[m].1)
                    == val_view(fields@[m].1),
        decreases fields@.len() - k,
    {
        let name = copy_bytes(&fields[k].0);
        let c = clone_value(&fields[k].1);
        r.push((name, c));
        k = k + 1;
    }
    proof {
        lemma_fields_view(r, 0);
        lemma_fields_view(*fields, 0);
        assert(fields_view(r, 0) =~= fields_view(*fields, 0));
    }
    r
}

} // verus!
