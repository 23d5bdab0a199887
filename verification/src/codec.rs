//! Wire encoding of values, changes and events.
//!
//! The engine speaks a JSON-shaped wire format, modelled here as the tree
//! [`JsonValue`]: booleans and text map to themselves, the numeric scalar to
//! a number, a tuple to an ordered array, and an embedded relation to an
//! object tagged with the reserved key `relation`.  A reserved single-key
//! object `{"eid": "auto"}` is a directive consumed by the decoder to
//! allocate a fresh monotonically increasing identifier.  The transport and
//! the concrete JSON text live outside the library; they hand trees in and
//! out.

use vstd::prelude::*;

use crate::value::Value;
use crate::value::SpecValue;
use crate::value::val_model;
use crate::value::tuple_model;
use crate::value::tuples_model;
use crate::relation::Change;
use crate::flow::Changes;

verus! {

/// A JSON document tree, as the library sees the wire.
#[derive(Debug, PartialEq, Eq)]
pub enum JsonValue {
    Bool(bool),
    Str(String),
    Num(i64),
    Arr(Vec<JsonValue>),
    Obj(Vec<(String, JsonValue)>),
}

/// Ghost mirror of [`JsonValue`].
#[verifier::ext_equal]
pub enum SpecJson {
    Bool(bool),
    Str(Seq<char>),
    Num(int),
    Arr(Seq<SpecJson>),
    Obj(Seq<(Seq<char>, SpecJson)>),
}

/// A wire payload that does not match the expected shape.
#[derive(Debug, PartialEq, Eq)]
pub enum WireError {
    MalformedMessage,
}

/// The model of a JSON tree: its ghost mirror.
pub open spec fn json_model(j: JsonValue) -> SpecJson
    decreases j,
{
    match j {
        JsonValue::Bool(b) => SpecJson::Bool(b),
        JsonValue::Str(s) => SpecJson::Str(s@),
        JsonValue::Num(n) => SpecJson::Num(n as int),
        JsonValue::Arr(items) => SpecJson::Arr(jsons_model(items)),
        JsonValue::Obj(fields) => SpecJson::Obj(
            Seq::new(fields@.len(), |i: int| if 0 <= i < fields@.len() {
                (fields@[i].0@, json_model(fields@[i].1))
            } else {
                (Seq::empty(), SpecJson::Bool(false))
            }),
        ),
    }
}

/// The models of a run of JSON trees.
pub open spec fn jsons_model(items: Vec<JsonValue>) -> Seq<SpecJson>
    decreases items,
{
    Seq::new(items@.len(), |i: int| if 0 <= i < items@.len() {
        json_model(items@[i])
    } else {
        SpecJson::Bool(false)
    })
}

/// What a value encodes to: tuples become arrays, an embedded relation an
/// object tagged with the reserved key.
pub open spec fn spec_encode(v: SpecValue) -> SpecJson
    decreases v,
{
    match v {
        SpecValue::Bool(b) => SpecJson::Bool(b),
        SpecValue::Text(s) => SpecJson::Str(s),
        SpecValue::Num(n) => SpecJson::Num(n),
        SpecValue::Tup(xs) => SpecJson::Arr(spec_encode_tuple(xs)),
        SpecValue::Rel(ts) => SpecJson::Obj(
            seq![("relation"@, SpecJson::Arr(spec_encode_rows(ts)))],
        ),
    }
}

/// The encodings of a tuple's values, in order.
pub open spec fn spec_encode_tuple(t: Seq<SpecValue>) -> Seq<SpecJson>
    decreases t,
{
    Seq::new(t.len(), |i: int| if 0 <= i < t.len() {
        spec_encode(t[i])
    } else {
        SpecJson::Bool(false)
    })
}

/// The encodings of a run of tuples: one array per tuple.
pub open spec fn spec_encode_rows(ts: Seq<Seq<SpecValue>>) -> Seq<SpecJson>
    decreases ts,
{
    Seq::new(ts.len(), |i: int| if 0 <= i < ts.len() {
        SpecJson::Arr(spec_encode_tuple(ts[i]))
    } else {
        SpecJson::Bool(false)
    })
}

/// The next identifier counter: one past the current one, saturating at the
/// machine limit (unreachable in practice).
pub open spec fn spec_next_eid(c: int) -> int {
    if c < i64::MAX {
        c + 1
    } else {
        c
    }
}

/// What a JSON tree decodes to, with the identifier counter threaded
/// through: `None` when the payload does not match the expected shape.
pub open spec fn spec_decode(j: SpecJson, c: int) -> Option<(SpecValue, int)>
    decreases j, 2int, 0int,
{
    match j {
        SpecJson::Bool(b) => Some((SpecValue::Bool(b), c)),
        SpecJson::Str(s) => Some((SpecValue::Text(s), c)),
        SpecJson::Num(n) => Some((SpecValue::Num(n), c)),
        SpecJson::Arr(items) => match spec_decode_list(items, c, items.len() as int) {
            Option::Some(p) => Some((SpecValue::Tup(p.0), p.1)),
            Option::None => None,
        },
        SpecJson::Obj(fields) => if fields.len() != 1 {
            None
        } else if fields[0].0 == "eid"@ {
            if fields[0].1 == SpecJson::Str("auto"@) {
                Some((SpecValue::Num(c), spec_next_eid(c)))
            } else {
                None
            }
        } else if fields[0].0 == "relation"@ {
            match fields[0].1 {
                SpecJson::Arr(rows) => match spec_decode_rows(rows, c, rows.len() as int) {
                    Option::Some(p) => Some((SpecValue::Rel(p.0), p.1)),
                    Option::None => None,
                },
                _ => None,
            }
        } else {
            None
        },
    }
}

/// Decodes the first `n` trees of a run in order, threading the counter.
pub open spec fn spec_decode_list(items: Seq<SpecJson>, c: int, n: int) -> Option<(Seq<SpecValue>, int)>
    decreases items, 1int, n,
{
    if n <= 0 {
        Some((Seq::empty(), c))
    } else if n > items.len() {
        None
    } else {
        match spec_decode_list(items, c, n - 1) {
            Option::Some(p) => match spec_decode(items[n - 1], p.1) {
                Option::Some(q) => Some((p.0.push(q.0), q.1)),
                Option::None => None,
            },
            Option::None => None,
        }
    }
}

/// Decodes the first `n` rows of an embedded relation: each must be an array
/// of values.
pub open spec fn spec_decode_rows(rows: Seq<SpecJson>, c: int, n: int) -> Option<(Seq<Seq<SpecValue>>, int)>
    decreases rows, 1int, n,
{
    if n <= 0 {
        Some((Seq::empty(), c))
    } else if n > rows.len() {
        None
    } else {
        match spec_decode_rows(rows, c, n - 1) {
            Option::Some(p) => match rows[n - 1] {
                SpecJson::Arr(cells) => match spec_decode_list(cells, p.1, cells.len() as int) {
                    Option::Some(q) => Some((p.0.push(q.0), q.1)),
                    Option::None => None,
                },
                _ => None,
            },
            Option::None => None,
        }
    }
}

/// Encodes a value for the wire.
pub fn value_to_json(v: &Value) -> (r: JsonValue)
    ensures
        json_model(r) == spec_encode(val_model(*v)),
    decreases *v,
{
    match v {
        Value::Bool(b) => JsonValue::Bool(*b),
        Value::Text(s) => JsonValue::Str(s.clone()),
        Value::Num(n) => JsonValue::Num(*n),
        Value::Tup(xs) => {
            let items = tuple_to_json(xs);
            let r = JsonValue::Arr(items);
            proof {
                assert(json_model(r)->Arr_0 =~= spec_encode(val_model(*v))->Arr_0);
            }
            r
        }
        Value::Rel(ts) => {
            let rows = rows_to_json(ts);
            let ghost rows_m = jsons_model(rows);
            let jarr = JsonValue::Arr(rows);
            proof {
                assert(json_model(jarr) == SpecJson::Arr(rows_m));
            }
            let mut fields: Vec<(String, JsonValue)> = Vec::new();
            let key: String = "relation".to_owned();
            fields.push((key, jarr));
            let r = JsonValue::Obj(fields);
            proof {
                assert(json_model(r)->Obj_0.len() == 1);
                assert(json_model(r)->Obj_0[0].0 == "relation"@);
                assert(json_model(r)->Obj_0[0].1 == SpecJson::Arr(spec_encode_rows(tuples_model(*ts))));
                assert(spec_encode(val_model(*v))->Obj_0[0]
                    == ("relation"@, SpecJson::Arr(spec_encode_rows(tuples_model(*ts)))));
                assert(json_model(r)->Obj_0 =~~= spec_encode(val_model(*v))->Obj_0);
            }
            r
        }
    }
}

/// Encodes each value of a tuple.
pub fn tuple_to_json(t: &Vec<Value>) -> (r: Vec<JsonValue>)
    ensures
        jsons_model(r) == spec_encode_tuple(tuple_model(*t)),
    decreases *t,
{
    let n: usize = t.len();
    let mut out: Vec<JsonValue> = Vec::new();
    let mut i: usize = 0;
    while i < n
        invariant
            n == t@.len(),
            0 <= i <= n,
            out@.len() == i,
            forall|k: int| 0 <= k < i ==> json_model(#[trigger] out@[k])
                == spec_encode(val_model(t@[k])),
        decreases n - i,
    {
        let j = value_to_json(&t[i]);
        out.push(j);
        i = i + 1;
    }
    proof {
        assert(jsons_model(out) =~= spec_encode_tuple(tuple_model(*t)));
    }
    out
}

/// Encodes each tuple of a run as an array.
pub fn rows_to_json(ts: &Vec<Vec<Value>>) -> (r: Vec<JsonValue>)
    ensures
        jsons_model(r) == spec_encode_rows(tuples_model(*ts)),
    decreases *ts,
{
    let n: usize = ts.len();
    let mut out: Vec<JsonValue> = Vec::new();
    let mut i: usize = 0;
    while i < n
        invariant
            n == ts@.len(),
            0 <= i <= n,
            out@.len() == i,
            forall|k: int| 0 <= k < i ==> json_model(#[trigger] out@[k])
                == SpecJson::Arr(spec_encode_tuple(tuple_model(ts@[k]))),
        decreases n - i,
    {
        let row = tuple_to_json(&ts[i]);
        let jrow = JsonValue::Arr(row);
        out.push(jrow);
        i = i + 1;
    }
    proof {
        assert(jsons_model(out) =~= spec_encode_rows(tuples_model(*ts)));
    }
    out
}

/// A failed prefix stays failed however much more of the run is decoded.
proof fn lemma_decode_list_none_mono(items: Seq<SpecJson>, c: int, n: int, m: int)
    requires
        spec_decode_list(items, c, n) is None,
        0 <= n <= m,
    ensures
        spec_decode_list(items, c, m) is None,
    decreases m - n,
{
    if m > n {
        lemma_decode_list_none_mono(items, c, n, m - 1);
    }
}

/// A failed prefix of rows stays failed.
proof fn lemma_decode_rows_none_mono(rows: Seq<SpecJson>, c: int, n: int, m: int)
    requires
        spec_decode_rows(rows, c, n) is None,
        0 <= n <= m,
    ensures
        spec_decode_rows(rows, c, m) is None,
    decreases m - n,
{
    if m > n {
        lemma_decode_rows_none_mono(rows, c, n, m - 1);
    }
}

/// Decodes one JSON tree into a value, allocating fresh identifiers for
/// `{"eid": "auto"}` directives from the given counter.
pub fn json_to_value(j: &JsonValue, next_eid: &mut i64) -> (r: Result<Value, WireError>)
    ensures
        (r is Ok) == (spec_decode(json_model(*j), *old(next_eid) as int) is Some),
        r matches Ok(v) ==> spec_decode(json_model(*j), *old(next_eid) as int)
            == Some((val_model(v), *final(next_eid) as int)),
        *final(next_eid) >= *old(next_eid),
    decreases *j,
{
    match j {
        JsonValue::Bool(b) => Ok(Value::Bool(*b)),
        JsonValue::Str(s) => Ok(Value::Text(s.clone())),
        JsonValue::Num(n) => Ok(Value::Num(*n)),
        JsonValue::Arr(items) => match jsons_to_values(items, next_eid) {
            Result::Ok(vs) => {
                proof {
                    assert(val_model(Value::Tup(vs)) == SpecValue::Tup(tuple_model(vs)));
                }
                Ok(Value::Tup(vs))
            }
            Result::Err(e) => Err(e),
        },
        JsonValue::Obj(fields) => {
            let ghost fm = json_model(*j)->Obj_0;
            if fields.len() != 1 {
                return Err(WireError::MalformedMessage);
            }
            let eid_key: String = "eid".to_owned();
            if fields[0].0.eq(&eid_key) {
                let field_val = &fields[0].1;
                proof {
                    assert(fm[0].1 == json_model(*field_val));
                }
                match field_val {
                    JsonValue::Str(sv) => {
                        let auto: String = "auto".to_owned();
                        if sv.eq(&auto) {
                            let eid: i64 = *next_eid;
                            if *next_eid < i64::MAX {
                                *next_eid = *next_eid + 1;
                            }
                            proof {
                                assert(*field_val == JsonValue::Str(*sv));
                                assert(sv@ == "auto"@);
                                assert(fm[0].1 == SpecJson::Str("auto"@));
                            }
                            Ok(Value::Num(eid))
                        } else {
                            proof {
                                assert(sv@ != "auto"@);
                                assert(fm[0].1 != SpecJson::Str("auto"@));
                            }
                            Err(WireError::MalformedMessage)
                        }
                    }
                    _ => {
                        proof {
                            assert(fm[0].1 != SpecJson::Str("auto"@));
                        }
                        Err(WireError::MalformedMessage)
                    }
                }
            } else {
                let rel_key: String = "relation".to_owned();
                if fields[0].0.eq(&rel_key) {
                    let field_val = &fields[0].1;
                    proof {
                        assert(fm[0].1 == json_model(*field_val));
                    }
                    match field_val {
                        JsonValue::Arr(rows) => match json_rows_to_tuples(rows, next_eid) {
                            Result::Ok(ts) => {
                                proof {
                                    assert(val_model(Value::Rel(ts)) == SpecValue::Rel(tuples_model(ts)));
                                }
                                Ok(Value::Rel(ts))
                            }
                            Result::Err(e) => Err(e),
                        },
                        _ => Err(WireError::MalformedMessage),
                    }
                } else {
                    Err(WireError::MalformedMessage)
                }
            }
        }
    }
}

/// Decodes a run of JSON trees in order, threading the identifier counter.
pub fn jsons_to_values(items: &Vec<JsonValue>, next_eid: &mut i64) -> (r: Result<Vec<Value>, WireError>)
    ensures
        (r is Ok) == (spec_decode_list(jsons_model(*items), *old(next_eid) as int,
            jsons_model(*items).len() as int) is Some),
        r matches Ok(vs) ==> spec_decode_list(jsons_model(*items), *old(next_eid) as int,
            jsons_model(*items).len() as int) == Some((tuple_model(vs), *final(next_eid) as int)),
        *final(next_eid) >= *old(next_eid),
    decreases *items,
{
    let ghost jm = jsons_model(*items);
    let ghost c0 = *next_eid as int;
    let n: usize = items.len();
    let mut out: Vec<Value> = Vec::new();
    let mut i: usize = 0;
    while i < n
        invariant
            jm == jsons_model(*items),
            c0 == *old(next_eid) as int,
            n == items@.len(),
            0 <= i <= n,
            spec_decode_list(jm, c0, i as int) == Some((tuple_model(out), *next_eid as int)),
            *next_eid >= *old(next_eid),
        decreases n - i,
    {
        let ghost mid = *next_eid as int;
        match json_to_value(&items[i], next_eid) {
            Result::Ok(v) => {
                let ghost pre = tuple_model(out);
                out.push(v);
                proof {
                    assert(tuple_model(out) =~= pre.push(val_model(v)));
                }
            }
            Result::Err(e) => {
                proof {
                    assert(spec_decode(jm[i as int], mid) is None);
                    assert(spec_decode_list(jm, c0, i as int + 1) is None);
                    lemma_decode_list_none_mono(jm, c0, i as int + 1, jm.len() as int);
                }
                return Err(e);
            }
        }
        i = i + 1;
    }
    Ok(out)
}

/// Decodes a run of rows, each an array of values, threading the counter.
pub fn json_rows_to_tuples(rows: &Vec<JsonValue>, next_eid: &mut i64) -> (r: Result<Vec<Vec<Value>>, WireError>)
    ensures
        (r is Ok) == (spec_decode_rows(jsons_model(*rows), *old(next_eid) as int,
            jsons_model(*rows).len() as int) is Some),
        r matches Ok(ts) ==> spec_decode_rows(jsons_model(*rows), *old(next_eid) as int,
            jsons_model(*rows).len() as int) == Some((tuples_model(ts), *final(next_eid) as int)),
        *final(next_eid) >= *old(next_eid),
    decreases *rows,
{
    let ghost jm = jsons_model(*rows);
    let ghost c0 = *next_eid as int;
    let n: usize = rows.len();
    let mut out: Vec<Vec<Value>> = Vec::new();
    let mut i: usize = 0;
    while i < n
        invariant
            jm == jsons_model(*rows),
            c0 == *old(next_eid) as int,
            n == rows@.len(),
            0 <= i <= n,
            spec_decode_rows(jm, c0, i as int) == Some((tuples_model(out), *next_eid as int)),
            *next_eid >= *old(next_eid),
        decreases n - i,
    {
        let ghost mid = *next_eid as int;
        match &rows[i] {
            JsonValue::Arr(cells) => {
                match jsons_to_values(cells, next_eid) {
                    Result::Ok(t) => {
                        let ghost pre = tuples_model(out);
                        out.push(t);
                        proof {
                            assert(tuples_model(out) =~= pre.push(tuple_model(t)));
                        }
                    }
                    Result::Err(e) => {
                        proof {
                            assert(spec_decode_rows(jm, c0, i as int + 1) is None);
                            lemma_decode_rows_none_mono(jm, c0, i as int + 1, jm.len() as int);
                        }
                        return Err(e);
                    }
                }
            }
            _ => {
                proof {
                    assert(!(jm[i as int] is Arr));
                    assert(spec_decode_rows(jm, c0, i as int + 1) is None);
                    lemma_decode_rows_none_mono(jm, c0, i as int + 1, jm.len() as int);
                }
                return Err(WireError::MalformedMessage);
            }
        }
        i = i + 1;
    }
    Ok(out)
}

/// An id-keyed bundle of changes, as one wire message.
#[derive(Debug)]
pub struct Event {
    pub changes: Changes,
}

/// What an event encodes to: an object with the single key `changes`, whose
/// value maps each node id to its inserted and removed tuple arrays.
pub open spec fn spec_event_json(cs: Seq<(String, Change)>) -> SpecJson {
    SpecJson::Obj(seq![("changes"@, SpecJson::Obj(
        Seq::new(cs.len(), |i: int| if 0 <= i < cs.len() {
            (cs[i].0@, spec_entry_json(cs[i].1))
        } else {
            (Seq::<char>::empty(), SpecJson::Bool(false))
        }),
    ))])
}

/// What one change encodes to.
pub open spec fn spec_entry_json(c: Change) -> SpecJson {
    SpecJson::Obj(seq![
        ("inserted"@, SpecJson::Arr(spec_encode_rows(tuples_model(c.inserted)))),
        ("removed"@, SpecJson::Arr(spec_encode_rows(tuples_model(c.removed)))),
    ])
}

/// What an event decodes to: per entry, the id and the inserted and removed
/// tuple runs.
pub open spec fn spec_decode_event(j: SpecJson, c: int) -> Option<(Seq<(Seq<char>, Seq<Seq<SpecValue>>, Seq<Seq<SpecValue>>)>, int)> {
    match j {
        SpecJson::Obj(fields) => if fields.len() == 1 && fields[0].0 == "changes"@
            && fields[0].1 is Obj {
            spec_decode_entries(fields[0].1->Obj_0, c, fields[0].1->Obj_0.len() as int)
        } else {
            None
        },
        _ => None,
    }
}

/// Decodes the first `n` id-keyed entries in order, threading the counter.
pub open spec fn spec_decode_entries(es: Seq<(Seq<char>, SpecJson)>, c: int, n: int) -> Option<(Seq<(Seq<char>, Seq<Seq<SpecValue>>, Seq<Seq<SpecValue>>)>, int)>
    decreases n,
{
    if n <= 0 {
        Some((Seq::empty(), c))
    } else if n > es.len() {
        None
    } else {
        match spec_decode_entries(es, c, n - 1) {
            Option::Some(p) => {
                let body = es[n - 1].1;
                if body is Obj && body->Obj_0.len() == 2
                    && body->Obj_0[0].0 == "inserted"@ && body->Obj_0[0].1 is Arr
                    && body->Obj_0[1].0 == "removed"@ && body->Obj_0[1].1 is Arr {
                    let ins = body->Obj_0[0].1->Arr_0;
                    let rem = body->Obj_0[1].1->Arr_0;
                    match spec_decode_rows(ins, p.1, ins.len() as int) {
                        Option::Some(qi) => match spec_decode_rows(rem, qi.1, rem.len() as int) {
                            Option::Some(qr) => Some((p.0.push((es[n - 1].0, qi.0, qr.0)), qr.1)),
                            Option::None => None,
                        },
                        Option::None => None,
                    }
                } else {
                    None
                }
            }
            Option::None => None,
        }
    }
}

/// A failed prefix of entries stays failed.
proof fn lemma_decode_entries_none_mono(es: Seq<(Seq<char>, SpecJson)>, c: int, n: int, m: int)
    requires
        spec_decode_entries(es, c, n) is None,
        0 <= n <= m,
    ensures
        spec_decode_entries(es, c, m) is None,
    decreases m - n,
{
    if m > n {
        lemma_decode_entries_none_mono(es, c, n, m - 1);
    }
}

impl Event {
    /// Encodes the event for the wire.
    pub fn to_json(&self) -> (r: JsonValue)
        ensures
            json_model(r) == spec_event_json(self.changes@),
    {
        let n: usize = self.changes.len();
        let mut entries: Vec<(String, JsonValue)> = Vec::new();
        let mut i: usize = 0;
        while i < n
            invariant
                n == self.changes@.len(),
                0 <= i <= n,
                entries@.len() == i,
                forall|k: int| 0 <= k < i ==> (#[trigger] entries@[k]).0@ == self.changes@[k].0@,
                forall|k: int| 0 <= k < i ==> json_model((#[trigger] entries@[k]).1)
                    == spec_entry_json(self.changes@[k].1),
            decreases n - i,
        {
            let id = self.changes[i].0.clone();
            let ins = rows_to_json(&self.changes[i].1.inserted);
            let rem = rows_to_json(&self.changes[i].1.removed);
            let ghost ins_m = jsons_model(ins);
            let ghost rem_m = jsons_model(rem);
            let jins = JsonValue::Arr(ins);
            let jrem = JsonValue::Arr(rem);
            proof {
                assert(json_model(jins) == SpecJson::Arr(ins_m));
                assert(json_model(jrem) == SpecJson::Arr(rem_m));
            }
            let mut body: Vec<(String, JsonValue)> = Vec::new();
            body.push(("inserted".to_owned(), jins));
            body.push(("removed".to_owned(), jrem));
            let jbody = JsonValue::Obj(body);
            proof {
                assert(json_model(jbody)->Obj_0.len() == 2);
                assert(json_model(jbody)->Obj_0[0].0 == "inserted"@);
                assert(json_model(jbody)->Obj_0[0].1 == SpecJson::Arr(ins_m));
                assert(json_model(jbody)->Obj_0[1].0 == "removed"@);
                assert(json_model(jbody)->Obj_0[1].1 == SpecJson::Arr(rem_m));
                assert(json_model(jbody)->Obj_0 =~~= spec_entry_json(self.changes@[i as int].1)->Obj_0);
            }
            entries.push((id, jbody));
            i = i + 1;
        }
        let jentries = JsonValue::Obj(entries);
        let ghost entries_m = json_model(jentries);
        proof {
            assert(entries_m->Obj_0 =~~= spec_event_json(self.changes@)->Obj_0[0].1->Obj_0);
        }
        let mut outer: Vec<(String, JsonValue)> = Vec::new();
        outer.push(("changes".to_owned(), jentries));
        let r = JsonValue::Obj(outer);
        proof {
            assert(json_model(r)->Obj_0 =~~= spec_event_json(self.changes@)->Obj_0);
        }
        r
    }

    /// Decodes one wire message into an event, allocating fresh identifiers
    /// for `{"eid": "auto"}` directives from the given counter.  Each entry's
    /// body must carry exactly the keys `inserted` and `removed`, in that
    /// order — the order the engine's own encoder and any key-sorted wire
    /// object produce.
    pub fn from_json(j: &JsonValue, next_eid: &mut i64) -> (r: Result<Event, WireError>)
        ensures
            (r is Ok) == (spec_decode_event(json_model(*j), *old(next_eid) as int) is Some),
            r matches Ok(e) ==> {
                let d = spec_decode_event(json_model(*j), *old(next_eid) as int)->Some_0;
                &&& d.1 == *final(next_eid) as int
                &&& e.changes@.len() == d.0.len()
                &&& forall|k: int| 0 <= k < d.0.len()
                    ==> (#[trigger] e.changes@[k]).0@ == d.0[k].0
                        && tuples_model(e.changes@[k].1.inserted) == d.0[k].1
                        && tuples_model(e.changes@[k].1.removed) == d.0[k].2
            },
            *final(next_eid) >= *old(next_eid),
    {
        let ghost c0 = *next_eid as int;
        let outer = match j {
            JsonValue::Obj(fields) => fields,
            _ => {
                return Err(WireError::MalformedMessage);
            }
        };
        if outer.len() != 1 {
            return Err(WireError::MalformedMessage);
        }
        let changes_key: String = "changes".to_owned();
        if !outer[0].0.eq(&changes_key) {
            return Err(WireError::MalformedMessage);
        }
        let entries_val = &outer[0].1;
        proof {
            assert(json_model(*j)->Obj_0[0].1 == json_model(*entries_val));
        }
        let entries = match entries_val {
            JsonValue::Obj(es) => es,
            _ => {
                return Err(WireError::MalformedMessage);
            }
        };
        let ghost em = json_model(*entries_val)->Obj_0;
        proof {
            assert(json_model(*j)->Obj_0.len() == 1);
            assert(json_model(*j)->Obj_0[0].0 == "changes"@);
        }
        let n: usize = entries.len();
        let mut out: Changes = Vec::new();
        let mut i: usize = 0;
        while i < n
            invariant
                em == json_model(*entries_val)->Obj_0,
                *entries_val == JsonValue::Obj(*entries),
                json_model(*j)->Obj_0.len() == 1,
                json_model(*j)->Obj_0[0].0 == "changes"@,
                json_model(*j)->Obj_0[0].1 == json_model(*entries_val),
                json_model(*j)->Obj_0[0].1 is Obj,
                json_model(*j) is Obj,
                n == entries@.len(),
                em.len() == n,
                0 <= i <= n,
                c0 == *old(next_eid) as int,
                c0 <= *next_eid as int,
                spec_decode_entries(em, c0, i as int) matches Some(p)
                    && p.1 == *next_eid as int
                    && p.0.len() == out@.len()
                    && out@.len() == i
                    && (forall|k: int| 0 <= k < i
                        ==> (#[trigger] out@[k]).0@ == p.0[k].0
                            && tuples_model(out@[k].1.inserted) == p.0[k].1
                            && tuples_model(out@[k].1.removed) == p.0[k].2),
            decreases n - i,
        {
            let ghost pre = spec_decode_entries(em, c0, i as int)->Some_0;
            let id = entries[i].0.clone();
            let body_val = &entries[i].1;
            proof {
                assert(em[i as int].1 == json_model(*body_val));
                assert(em[i as int].0 == entries@[i as int].0@);
            }
            let body = match body_val {
                JsonValue::Obj(bs) => bs,
                _ => {
                    proof {
                        assert(spec_decode_entries(em, c0, i as int + 1) is None);
                        lemma_decode_entries_none_mono(em, c0, i as int + 1, em.len() as int);
                    }
                    return Err(WireError::MalformedMessage);
                }
            };
            let ins_key: String = "inserted".to_owned();
            let rem_key: String = "removed".to_owned();
            let shape_ok = body.len() == 2;
            if !shape_ok || !body[0].0.eq(&ins_key) || !body[1].0.eq(&rem_key) {
                proof {
                    assert(spec_decode_entries(em, c0, i as int + 1) is None);
                    lemma_decode_entries_none_mono(em, c0, i as int + 1, em.len() as int);
                }
                return Err(WireError::MalformedMessage);
            }
            let ins_val = &body[0].1;
            let rem_val = &body[1].1;
            proof {
                assert(json_model(*body_val)->Obj_0[0].1 == json_model(*ins_val));
                assert(json_model(*body_val)->Obj_0[1].1 == json_model(*rem_val));
            }
            let ins_rows = match ins_val {
                JsonValue::Arr(rs) => rs,
                _ => {
                    proof {
                        assert(spec_decode_entries(em, c0, i as int + 1) is None);
                        lemma_decode_entries_none_mono(em, c0, i as int + 1, em.len() as int);
                    }
                    return Err(WireError::MalformedMessage);
                }
            };
            let rem_rows = match rem_val {
                JsonValue::Arr(rs) => rs,
                _ => {
                    proof {
                        assert(spec_decode_entries(em, c0, i as int + 1) is None);
                        lemma_decode_entries_none_mono(em, c0, i as int + 1, em.len() as int);
                    }
                    return Err(WireError::MalformedMessage);
                }
            };
            let inserted = match json_rows_to_tuples(ins_rows, next_eid) {
                Result::Ok(ts) => ts,
                Result::Err(e) => {
                    proof {
                        assert(spec_decode_entries(em, c0, i as int + 1) is None);
                        lemma_decode_entries_none_mono(em, c0, i as int + 1, em.len() as int);
                    }
                    return Err(e);
                }
            };
            let removed = match json_rows_to_tuples(rem_rows, next_eid) {
                Result::Ok(ts) => ts,
                Result::Err(e) => {
                    proof {
                        assert(spec_decode_entries(em, c0, i as int + 1) is None);
                        lemma_decode_entries_none_mono(em, c0, i as int + 1, em.len() as int);
                    }
                    return Err(e);
                }
            };
            out.push((id, Change { inserted, removed }));
            i = i + 1;
        }
        proof {
            assert(json_model(*j)->Obj_0.len() == 1);
            assert(json_model(*j)->Obj_0[0].0 == "changes"@);
        }
        Ok(Event { changes: out })
    }
}

} // verus!
