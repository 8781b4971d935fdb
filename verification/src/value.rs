use vstd::prelude::*;

verus! {

/// A generic structured value: the payload a component carries and the shape
/// snapshots expose to diffing collaborators. Numbers with a fractional part
/// are held as IEEE-754 bit patterns; the core never computes with them.
#[derive(Debug, PartialEq)]
pub enum Value {
    Null,
    Bool(bool),
    Int(i64),
    Float(u64),
    Text(String),
    List(Vec<Value>),
    Object(Vec<(String, Value)>),
}

/// Structural equality of two values: same shape, same scalars, text compared
/// character by character.
pub open spec fn value_eq(a: Value, b: Value) -> bool
    decreases a,
{
    match (a, b) {
        (Value::Null, Value::Null) => true,
        (Value::Bool(x), Value::Bool(y)) => x == y,
        (Value::Int(x), Value::Int(y)) => x == y,
        (Value::Float(x), Value::Float(y)) => x == y,
        (Value::Text(x), Value::Text(y)) => x@ == y@,
        (Value::List(x), Value::List(y)) => {
            &&& x@.len() == y@.len()
            &&& forall|i: int| 0 <= i < x@.len() ==> value_eq(#[trigger] x@[i], y@[i])
        },
        (Value::Object(x), Value::Object(y)) => {
            &&& x@.len() == y@.len()
            &&& forall|i: int|
                0 <= i < x@.len() ==> (#[trigger] x@[i]).0@ == y@[i].0@ && value_eq(
                    x@[i].1,
                    y@[i].1,
                )
        },
        _ => false,
    }
}

impl Value {
    /// A structurally identical copy.
    pub fn duplicate(&self) -> (r: Value)
        ensures
            value_eq(r, *self),
        decreases *self,
    {
        match self {
            Value::Null => Value::Null,
            Value::Bool(b) => Value::Bool(*b),
            Value::Int(n) => Value::Int(*n),
            Value::Float(bits) => Value::Float(*bits),
            Value::Text(s) => Value::Text(s.clone()),
            Value::List(items) => {
                let n = items.len();
                let mut out: Vec<Value> = Vec::new();
                let mut i: usize = 0;
                while i < n
                    invariant
                        *self == Value::List(*items),
                        n == items@.len(),
                        i <= n,
                        out@.len() == i,
                        forall|k: int| 0 <= k < i ==> value_eq(#[trigger] out@[k], items@[k]),
                    decreases n - i,
                {
                    proof {
                        assert(decreases_to!(*self => (*self)->List_0));
                        assert(decreases_to!(*items => items@));
                        assert(decreases_to!(items@ => items@[i as int]));
                        assert(decreases_to!(*self => items@[i as int]));
                    }
                    out.push(items[i].duplicate());
                    i = i + 1;
                }
                Value::List(out)
            },
            Value::Object(fields) => {
                let n = fields.len();
                let mut out: Vec<(String, Value)> = Vec::new();
                let mut i: usize = 0;
                while i < n
                    invariant
                        *self == Value::Object(*fields),
                        n == fields@.len(),
                        i <= n,
                        out@.len() == i,
                        forall|k: int|
                            0 <= k < i ==> (#[trigger] out@[k]).0@ == fields@[k].0@ && value_eq(
                                out@[k].1,
                                fields@[k].1,
                            ),
                    decreases n - i,
                {
                    proof {
                        assert(decreases_to!(*self => (*self)->Object_0));
                        assert(decreases_to!(*fields => fields@));
                        assert(decreases_to!(fields@ => fields@[i as int]));
                        assert(decreases_to!(fields@[i as int] => fields@[i as int].1));
                        assert(decreases_to!(*self => fields@[i as int].1));
                    }
                    let key = fields[i].0.clone();
                    let val = fields[i].1.duplicate();
                    out.push((key, val));
                    i = i + 1;
                }
                Value::Object(out)
            },
        }
    }
}

} // verus!
