//! Scalar values and tuples, with their mathematical model.
//!
//! A [`Value`] is a tagged scalar: boolean, text, 64-bit number (also used to
//! encode entity identifiers), an ordered tuple of values, or an embedded
//! relation held as an ordered run of tuples.  Contracts speak about values
//! through [`SpecValue`], a ghost mirror in which text is a sequence of
//! characters and the collections are mathematical sequences.

use vstd::prelude::*;

verus! {

/// Ghost mirror of [`Value`]: the mathematical form that contracts range over.
#[verifier::ext_equal]
pub enum SpecValue {
    Bool(bool),
    Text(Seq<char>),
    Num(int),
    Tup(Seq<SpecValue>),
    Rel(Seq<Seq<SpecValue>>),
}

/// A scalar value of the engine.
///
/// `Num` carries the engine's numeric scalar (counts and entity identifiers).
/// `Rel` is the rarely used embedded-relation scalar, held as an ordered run
/// of tuples.
#[derive(Debug, PartialEq, Eq)]
pub enum Value {
    Bool(bool),
    Text(String),
    Num(i64),
    Tup(Vec<Value>),
    Rel(Vec<Vec<Value>>),
}

/// The model of a value: its ghost mirror.
pub open spec fn val_model(v: Value) -> SpecValue
    decreases v,
{
    match v {
        Value::Bool(b) => SpecValue::Bool(b),
        Value::Text(s) => SpecValue::Text(s@),
        Value::Num(n) => SpecValue::Num(n as int),
        Value::Tup(xs) => SpecValue::Tup(tuple_model(xs)),
        Value::Rel(ts) => SpecValue::Rel(tuples_model(ts)),
    }
}

/// The model of a tuple: the sequence of its values' models.
pub open spec fn tuple_model(t: Vec<Value>) -> Seq<SpecValue>
    decreases t,
{
    Seq::new(t@.len(), |i: int| if 0 <= i < t@.len() {
        val_model(t@[i])
    } else {
        SpecValue::Bool(false)
    })
}

/// The model of a run of tuples: the sequence of their models.
pub open spec fn tuples_model(ts: Vec<Vec<Value>>) -> Seq<Seq<SpecValue>>
    decreases ts,
{
    Seq::new(ts@.len(), |i: int| if 0 <= i < ts@.len() {
        tuple_model(ts@[i])
    } else {
        Seq::empty()
    })
}

/// Structural equality of two values, decided against the ghost mirror.
pub fn value_eq(a: &Value, b: &Value) -> (r: bool)
    ensures
        r == (val_model(*a) == val_model(*b)),
    decreases *a,
{
    match (a, b) {
        (Value::Bool(x), Value::Bool(y)) => *x == *y,
        (Value::Text(x), Value::Text(y)) => *x == *y,
        (Value::Num(x), Value::Num(y)) => *x == *y,
        (Value::Tup(xs), Value::Tup(ys)) => tuple_eq(xs, ys),
        (Value::Rel(xs), Value::Rel(ys)) => tuples_eq(xs, ys),
        _ => {
            proof {
                assert(val_model(*a) != val_model(*b));
            }
            false
        }
    }
}

/// Structural equality of two tuples, decided against the ghost mirror.
pub fn tuple_eq(x: &Vec<Value>, y: &Vec<Value>) -> (r: bool)
    ensures
        r == (tuple_model(*x) == tuple_model(*y)),
    decreases *x,
{
    if x.len() != y.len() {
        proof {
            assert(tuple_model(*x).len() != tuple_model(*y).len());
        }
        false
    } else {
        let n: usize = x.len();
        let mut i: usize = 0;
        let mut same = true;
        while i < n
            invariant
                n == x@.len() == y@.len(),
                0 <= i <= n,
                same == (forall|j: int| 0 <= j < i ==> val_model(x@[j]) == val_model(y@[j])),
            decreases n - i,
        {
            if same {
                let e = value_eq(&x[i], &y[i]);
                same = e && same;
            } else {
                same = false;
            }
            i = i + 1;
        }
        proof {
            if same {
                assert(tuple_model(*x) =~= tuple_model(*y));
            } else {
                let j = choose|j: int| 0 <= j < n && val_model(x@[j]) != val_model(y@[j]);
                assert(tuple_model(*x)[j] != tuple_model(*y)[j]);
            }
        }
        same
    }
}

/// Structural equality of two runs of tuples, decided against the ghost mirror.
pub fn tuples_eq(x: &Vec<Vec<Value>>, y: &Vec<Vec<Value>>) -> (r: bool)
    ensures
        r == (tuples_model(*x) == tuples_model(*y)),
    decreases *x,
{
    if x.len() != y.len() {
        proof {
            assert(tuples_model(*x).len() != tuples_model(*y).len());
        }
        false
    } else {
        let n: usize = x.len();
        let mut i: usize = 0;
        let mut same = true;
        while i < n
            invariant
                n == x@.len() == y@.len(),
                0 <= i <= n,
                same == (forall|j: int| 0 <= j < i ==> tuple_model(x@[j]) == tuple_model(y@[j])),
            decreases n - i,
        {
            if same {
                let e = tuple_eq(&x[i], &y[i]);
                same = e && same;
            } else {
                same = false;
            }
            i = i + 1;
        }
        proof {
            if same {
                assert(tuples_model(*x) =~= tuples_model(*y));
            } else {
                let j = choose|j: int| 0 <= j < n && tuple_model(x@[j]) != tuple_model(y@[j]);
                assert(tuples_model(*x)[j] != tuples_model(*y)[j]);
            }
        }
        same
    }
}

/// A deep copy of a value, equal to the original under the model.
pub fn clone_value(v: &Value) -> (r: Value)
    ensures
        val_model(r) == val_model(*v),
    decreases *v,
{
    match v {
        Value::Bool(b) => Value::Bool(*b),
        Value::Text(s) => Value::Text(s.clone()),
        Value::Num(n) => Value::Num(*n),
        Value::Tup(xs) => Value::Tup(clone_tuple(xs)),
        Value::Rel(ts) => Value::Rel(clone_tuples(ts)),
    }
}

/// A deep copy of a tuple, equal to the original under the model.
pub fn clone_tuple(t: &Vec<Value>) -> (r: Vec<Value>)
    ensures
        tuple_model(r) == tuple_model(*t),
        r@.len() == t@.len(),
    decreases *t,
{
    let n: usize = t.len();
    let mut out: Vec<Value> = Vec::new();
    let mut i: usize = 0;
    while i < n
        invariant
            n == t@.len(),
            0 <= i <= n,
            out@.len() == i,
            forall|j: int| 0 <= j < i ==> val_model(out@[j]) == val_model(t@[j]),
        decreases n - i,
    {
        let v = clone_value(&t[i]);
        out.push(v);
        i = i + 1;
    }
    proof {
        assert(tuple_model(out) =~= tuple_model(*t));
    }
    out
}

/// A deep copy of a run of tuples, equal to the original under the model.
pub fn clone_tuples(ts: &Vec<Vec<Value>>) -> (r: Vec<Vec<Value>>)
    ensures
        tuples_model(r) == tuples_model(*ts),
        r@.len() == ts@.len(),
    decreases *ts,
{
    let n: usize = ts.len();
    let mut out: Vec<Vec<Value>> = Vec::new();
    let mut i: usize = 0;
    while i < n
        invariant
            n == ts@.len(),
            0 <= i <= n,
            out@.len() == i,
            forall|j: int| 0 <= j < i ==> tuple_model(out@[j]) == tuple_model(ts@[j]),
        decreases n - i,
    {
        let t = clone_tuple(&ts[i]);
        out.push(t);
        i = i + 1;
    }
    proof {
        assert(tuples_model(out) =~= tuples_model(*ts));
    }
    out
}

} // verus!
