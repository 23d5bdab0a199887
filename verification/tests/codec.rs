use eve::codec::{Event, JsonValue, WireError};
use eve::codec::{json_to_value, value_to_json};
use eve::relation::Change;
use eve::value::Value;

fn text(x: &str) -> Value {
    Value::Text(x.to_string())
}

#[test]
fn scalar_values_round_trip() {
    let mut eid: i64 = 0;
    for v in [Value::Bool(true), text("hello"), Value::Num(-7)] {
        let j = value_to_json(&v);
        let back = json_to_value(&j, &mut eid).unwrap();
        assert_eq!(back, v);
    }
    assert_eq!(eid, 0, "plain values allocate no identifiers");
}

#[test]
fn tuples_and_relations_round_trip() {
    let v = Value::Tup(vec![
        Value::Num(1),
        Value::Tup(vec![text("x"), Value::Bool(false)]),
        Value::Rel(vec![vec![text("a"), text("b")], vec![text("c"), text("d")]]),
    ]);
    let j = value_to_json(&v);
    let mut eid: i64 = 5;
    let back = json_to_value(&j, &mut eid).unwrap();
    assert_eq!(back, v);
    assert_eq!(eid, 5);
}

#[test]
fn relation_encodes_as_tagged_object() {
    let v = Value::Rel(vec![vec![Value::Num(1)]]);
    match value_to_json(&v) {
        JsonValue::Obj(fields) => {
            assert_eq!(fields.len(), 1);
            assert_eq!(fields[0].0, "relation");
            match &fields[0].1 {
                JsonValue::Arr(rows) => assert_eq!(rows.len(), 1),
                other => panic!("expected an array of rows, got {:?}", other),
            }
        }
        other => panic!("expected a tagged object, got {:?}", other),
    }
}

#[test]
fn eid_directive_allocates_fresh_identifiers() {
    let directive = JsonValue::Obj(vec![(
        "eid".to_string(),
        JsonValue::Str("auto".to_string()),
    )]);
    let payload = JsonValue::Arr(vec![
        directive,
        JsonValue::Obj(vec![(
            "eid".to_string(),
            JsonValue::Str("auto".to_string()),
        )]),
        JsonValue::Num(9),
    ]);
    let mut eid: i64 = 41;
    let v = json_to_value(&payload, &mut eid).unwrap();
    assert_eq!(
        v,
        Value::Tup(vec![Value::Num(41), Value::Num(42), Value::Num(9)])
    );
    assert_eq!(eid, 43);
}

#[test]
fn malformed_payloads_are_rejected() {
    let mut eid: i64 = 0;
    let two_keys = JsonValue::Obj(vec![
        ("eid".to_string(), JsonValue::Str("auto".to_string())),
        ("x".to_string(), JsonValue::Num(1)),
    ]);
    assert_eq!(
        json_to_value(&two_keys, &mut eid).unwrap_err(),
        WireError::MalformedMessage
    );
    let bad_eid = JsonValue::Obj(vec![(
        "eid".to_string(),
        JsonValue::Str("manual".to_string()),
    )]);
    assert_eq!(
        json_to_value(&bad_eid, &mut eid).unwrap_err(),
        WireError::MalformedMessage
    );
    let unknown_key = JsonValue::Obj(vec![("other".to_string(), JsonValue::Num(1))]);
    assert_eq!(
        json_to_value(&unknown_key, &mut eid).unwrap_err(),
        WireError::MalformedMessage
    );
    let bad_relation = JsonValue::Obj(vec![(
        "relation".to_string(),
        JsonValue::Arr(vec![JsonValue::Num(3)]),
    )]);
    assert_eq!(
        json_to_value(&bad_relation, &mut eid).unwrap_err(),
        WireError::MalformedMessage
    );
}

#[test]
fn events_round_trip() {
    let event = Event {
        changes: vec![(
            "edge".to_string(),
            Change {
                inserted: vec![vec![text("a"), text("b")]],
                removed: vec![vec![text("c"), text("d")]],
            },
        )],
    };
    let j = event.to_json();
    let mut eid: i64 = 0;
    let back = Event::from_json(&j, &mut eid).unwrap();
    assert_eq!(back.changes.len(), 1);
    assert_eq!(back.changes[0].0, "edge");
    assert_eq!(back.changes[0].1.inserted, vec![vec![text("a"), text("b")]]);
    assert_eq!(back.changes[0].1.removed, vec![vec![text("c"), text("d")]]);
}

#[test]
fn event_decode_rejects_missing_changes_key() {
    let mut eid: i64 = 0;
    let j = JsonValue::Obj(vec![("other".to_string(), JsonValue::Num(1))]);
    assert!(Event::from_json(&j, &mut eid).is_err());
}
