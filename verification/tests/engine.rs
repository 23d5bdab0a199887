use eve::flow::{Changes, Error, Flow, Instance, Node};
use eve::relation::{Change, Relation};
use eve::value::Value;
use eve::view::{Clause, Constraint, Query, Select, Table, Union, ViewKind};

fn text(x: &str) -> Value {
    Value::Text(x.to_string())
}

fn pair(a: &str, b: &str) -> Vec<Value> {
    vec![text(a), text(b)]
}

fn one(a: &str) -> Vec<Value> {
    vec![text(a)]
}

fn relation_of_pairs(pairs: &[(&str, &str)]) -> Relation {
    let mut r = Relation::new(2);
    for (a, b) in pairs {
        r.insert(pair(a, b));
    }
    r
}

fn relation_of_ones(items: &[&str]) -> Relation {
    let mut r = Relation::new(1);
    for a in items {
        r.insert(one(a));
    }
    r
}

/// The recursive path query of the quiescence scenario: edges, a one-hop
/// view, and a union of the one-hop view with its self-extension.
fn path_flow() -> Flow {
    let edges = relation_of_pairs(&[("a", "b"), ("b", "c"), ("c", "d"), ("d", "b")]);
    let path_union = Union {
        mappings: vec![vec![0, 3], vec![0, 1]],
    };
    let first_step_query = Query {
        clauses: vec![Clause {
            relation: 0,
            constraints: vec![],
        }],
    };
    let from_eq_to = Constraint {
        my_column: 0,
        other_clause: 0,
        other_column: 1,
    };
    let next_step_query = Query {
        clauses: vec![
            Clause {
                relation: 0,
                constraints: vec![],
            },
            Clause {
                relation: 1,
                constraints: vec![from_eq_to],
            },
        ],
    };
    Flow {
        nodes: vec![
            Node {
                id: "edge".to_string(),
                view: ViewKind::Input(edges),
                upstream: vec![],
                downstream: vec![2, 3],
            },
            Node {
                id: "path".to_string(),
                view: ViewKind::Union(path_union),
                upstream: vec![2, 3],
                downstream: vec![2],
            },
            Node {
                id: "next_step".to_string(),
                view: ViewKind::Query(next_step_query),
                upstream: vec![0, 1],
                downstream: vec![1],
            },
            Node {
                id: "first_step".to_string(),
                view: ViewKind::Query(first_step_query),
                upstream: vec![0],
                downstream: vec![1],
            },
        ],
        outputs: vec![
            Relation::new(2),
            Relation::new(2),
            Relation::new(4),
            Relation::new(2),
        ],
        dirty: vec![0, 1, 2, 3],
    }
}

#[test]
fn quiescence_on_recursive_path_query() {
    let mut flow = path_flow();
    let reached = flow.quiesce(vec![]).unwrap();
    assert!(reached);
    let path = flow.get_output(&"path".to_string());
    let expected = [
        ("a", "b"),
        ("a", "c"),
        ("a", "d"),
        ("b", "b"),
        ("b", "c"),
        ("b", "d"),
        ("c", "b"),
        ("c", "c"),
        ("c", "d"),
        ("d", "b"),
        ("d", "c"),
        ("d", "d"),
    ];
    assert_eq!(path.tuples.len(), expected.len());
    for (a, b) in expected {
        assert!(path.contains(&pair(a, b)), "missing path ({}, {})", a, b);
    }
}

#[test]
fn recalculate_again_is_a_no_op() {
    let mut flow = path_flow();
    assert!(flow.recalculate(), "the dirty set must drain");
    assert!(flow.dirty.is_empty());
    let before: Vec<usize> = flow.outputs.iter().map(|r| r.tuples.len()).collect();
    assert!(flow.recalculate());
    assert!(flow.dirty.is_empty());
    let after: Vec<usize> = flow.outputs.iter().map(|r| r.tuples.len()).collect();
    assert_eq!(before, after);
    assert!(flow.get_output(&"path".to_string()).contains(&pair("a", "d")));
}

#[test]
fn insert_and_remove_are_idempotent() {
    let mut r = Relation::new(2);
    assert!(r.insert(pair("a", "b")));
    assert!(!r.insert(pair("a", "b")));
    assert_eq!(r.tuples.len(), 1);
    assert!(r.remove(&pair("a", "b")));
    assert!(!r.remove(&pair("a", "b")));
    assert!(!r.remove(&pair("x", "y")));
    assert_eq!(r.tuples.len(), 0);
}

/// A source feeding a table through both selectors: insert selects column 0,
/// remove selects column 1.
fn table_flow(source: Relation, table: Relation) -> Flow {
    Flow {
        nodes: vec![
            Node {
                id: "source".to_string(),
                view: ViewKind::Input(source),
                upstream: vec![],
                downstream: vec![1],
            },
            Node {
                id: "sink".to_string(),
                view: ViewKind::Table(Table {
                    insert: Some((0, Select { columns: vec![0] })),
                    remove: Some((0, Select { columns: vec![1] })),
                }),
                upstream: vec![0],
                downstream: vec![],
            },
        ],
        outputs: vec![relation_of_pairs(&[("a", "a"), ("a", "b")]), table],
        dirty: vec![],
    }
}

#[test]
fn conflicting_selector_tuples_cancel() {
    // insert selector yields {a}; remove selector yields {a, b}: "a" is both
    // asserted and retracted, so only the removal of "b" takes effect.
    let mut flow = table_flow(
        relation_of_pairs(&[("a", "a"), ("a", "b")]),
        relation_of_ones(&["b", "c"]),
    );
    let changed = flow.tick();
    assert!(changed);
    let sink = flow.get_output(&"sink".to_string());
    assert!(!sink.contains(&one("a")), "cancelled tuple must not appear");
    assert!(!sink.contains(&one("b")), "uncontested removal must apply");
    assert!(sink.contains(&one("c")));
    assert_eq!(sink.tuples.len(), 1);
    // The same selections again change nothing: the changed flag reports no
    // effective change.
    let changed_again = flow.tick();
    assert!(!changed_again);
}

#[test]
fn change_rejects_unknown_and_non_table_ids() {
    let mut flow = path_flow();
    let delta = Change {
        inserted: vec![pair("x", "y")],
        removed: vec![],
    };
    let err = flow.change(vec![("nowhere".to_string(), delta)]).unwrap_err();
    assert_eq!(err, Error::UnknownView("nowhere".to_string()));
    let delta = Change {
        inserted: vec![pair("x", "y")],
        removed: vec![],
    };
    let err = flow.change(vec![("path".to_string(), delta)]).unwrap_err();
    assert_eq!(err, Error::NotATable("path".to_string()));
}

fn apply_changes_to(map: &mut Vec<(String, Relation)>, changes: &Changes) {
    for (id, change) in changes {
        let mut found = false;
        for entry in map.iter_mut() {
            if &entry.0 == id {
                entry.1.change(change);
                found = true;
                break;
            }
        }
        if !found {
            let mut r = Relation::new(
                change.inserted.first().map(|t| t.len()).unwrap_or(0),
            );
            r.change(change);
            map.push((id.clone(), r));
        }
    }
}

fn simple_table_node(id: &str, output: Relation) -> (Node, Relation) {
    (
        Node {
            id: id.to_string(),
            view: ViewKind::Table(Table {
                insert: None,
                remove: None,
            }),
            upstream: vec![],
            downstream: vec![],
        },
        output,
    )
}

fn flow_of_tables(entries: Vec<(Node, Relation)>) -> Flow {
    let mut nodes = Vec::new();
    let mut outputs = Vec::new();
    for (n, o) in entries {
        nodes.push(n);
        outputs.push(o);
    }
    Flow {
        nodes,
        outputs,
        dirty: vec![],
    }
}

#[test]
fn diff_then_patch_restores_the_new_snapshot() {
    // Old snapshot: n1 (kept, same arity), n2 (arity change), n3 (removed).
    let old_flow = flow_of_tables(vec![
        simple_table_node("n1", relation_of_pairs(&[("a", "b"), ("c", "d")])),
        simple_table_node("n2", relation_of_pairs(&[("e", "f")])),
        simple_table_node("n3", relation_of_ones(&["g"])),
    ]);
    // New snapshot: n1 changed, n2 re-typed to arity 1, n4 added.
    let new_flow = flow_of_tables(vec![
        simple_table_node("n1", relation_of_pairs(&[("a", "b"), ("x", "y")])),
        simple_table_node("n2", relation_of_ones(&["e"])),
        simple_table_node("n4", relation_of_pairs(&[("p", "q")])),
    ]);
    let changes = new_flow.changes_from(old_flow.snapshot());
    let mut observed: Vec<(String, Relation)> = vec![
        (
            "n1".to_string(),
            relation_of_pairs(&[("a", "b"), ("c", "d")]),
        ),
        ("n2".to_string(), relation_of_pairs(&[("e", "f")])),
        ("n3".to_string(), relation_of_ones(&["g"])),
    ];
    // Arity-changed ids are rebuilt from scratch: drop the stale relation so
    // the patched map can hold the new arity.
    observed[1].1 = Relation::new(1);
    apply_changes_to(&mut observed, &changes);
    let n1 = &observed.iter().find(|e| e.0 == "n1").unwrap().1;
    assert_eq!(n1.tuples.len(), 2);
    assert!(n1.contains(&pair("a", "b")));
    assert!(n1.contains(&pair("x", "y")));
    let n2 = &observed.iter().find(|e| e.0 == "n2").unwrap().1;
    assert_eq!(n2.tuples.len(), 1);
    assert!(n2.contains(&one("e")));
    let n3 = &observed.iter().find(|e| e.0 == "n3").unwrap().1;
    assert_eq!(n3.tuples.len(), 0, "removed id must be fully retracted");
    let n4 = &observed.iter().find(|e| e.0 == "n4").unwrap().1;
    assert_eq!(n4.tuples.len(), 1);
    assert!(n4.contains(&pair("p", "q")));
}

#[test]
fn diff_of_observably_equal_snapshots_is_all_empty() {
    let a = flow_of_tables(vec![
        simple_table_node("n1", relation_of_pairs(&[("a", "b")])),
        simple_table_node("n2", relation_of_ones(&["z"])),
    ]);
    // Same observable state, different node order and tuple order.
    let b = flow_of_tables(vec![
        simple_table_node("n2", relation_of_ones(&["z"])),
        simple_table_node("n1", relation_of_pairs(&[("a", "b")])),
    ]);
    let changes = b.changes_from(a.snapshot());
    for (_, c) in &changes {
        assert!(c.is_empty());
    }
}

fn replay_flow() -> Flow {
    flow_of_tables(vec![simple_table_node("log", Relation::new(2))])
}

fn event(pairs_in: &[(&str, &str)], pairs_out: &[(&str, &str)]) -> Changes {
    let mut inserted = Vec::new();
    for (a, b) in pairs_in {
        inserted.push(pair(a, b));
    }
    let mut removed = Vec::new();
    for (a, b) in pairs_out {
        removed.push(pair(a, b));
    }
    vec![("log".to_string(), Change { inserted, removed })]
}

fn log_events() -> Vec<Changes> {
    vec![
        event(&[("a", "b"), ("c", "d")], &[]),
        event(&[("e", "f")], &[("a", "b")]),
        event(&[("a", "b")], &[("a", "b")]),
    ]
}

#[test]
fn replaying_the_log_reproduces_the_live_state() {
    let mut live = Instance { flow: replay_flow() };
    for e in log_events() {
        live.change(e).unwrap();
    }
    let mut replayed = Instance { flow: replay_flow() };
    for e in log_events() {
        replayed.change(e).unwrap();
    }
    let diff = replayed.flow.changes_from(live.flow.snapshot());
    for (_, c) in &diff {
        assert!(c.is_empty(), "replayed state must diff to nothing");
    }
    let out = replayed.flow.get_output(&"log".to_string());
    assert_eq!(out.tuples.len(), 3);
    assert!(out.contains(&pair("c", "d")));
    assert!(out.contains(&pair("e", "f")));
    assert!(out.contains(&pair("a", "b")));
}

#[test]
fn instance_change_reports_the_diff() {
    let mut live = Instance { flow: replay_flow() };
    let out = live.change(event(&[("a", "b")], &[])).unwrap();
    let mut observed: Vec<(String, Relation)> =
        vec![("log".to_string(), Relation::new(2))];
    apply_changes_to(&mut observed, &out);
    assert!(observed[0].1.contains(&pair("a", "b")));
    assert_eq!(observed[0].1.tuples.len(), 1);
}

#[test]
fn full_dump_lists_every_node() {
    let flow = flow_of_tables(vec![
        simple_table_node("n1", relation_of_pairs(&[("a", "b")])),
        simple_table_node("n2", relation_of_ones(&["z"])),
    ]);
    let dump = flow.as_changes();
    assert_eq!(dump.len(), 2);
    assert_eq!(dump[0].0, "n1");
    assert_eq!(dump[0].1.inserted.len(), 1);
    assert!(dump[0].1.removed.is_empty());
    assert_eq!(dump[1].0, "n2");
    assert_eq!(dump[1].1.inserted.len(), 1);
}

#[test]
fn quiescence_with_table_selector_feedback() {
    // Transitive closure materialized in a table: a query joins edges with
    // the table, and the table's insert selector feeds the joined pairs back
    // in, re-triggering recomputation until nothing changes.
    let edges = relation_of_pairs(&[("a", "b"), ("b", "c")]);
    let step_query = Query {
        clauses: vec![
            Clause {
                relation: 0,
                constraints: vec![],
            },
            Clause {
                relation: 1,
                constraints: vec![Constraint {
                    my_column: 0,
                    other_clause: 0,
                    other_column: 1,
                }],
            },
        ],
    };
    let mut flow = Flow {
        nodes: vec![
            Node {
                id: "edge".to_string(),
                view: ViewKind::Input(edges),
                upstream: vec![],
                downstream: vec![2],
            },
            Node {
                id: "tc".to_string(),
                view: ViewKind::Table(Table {
                    insert: Some((0, Select { columns: vec![0, 3] })),
                    remove: None,
                }),
                upstream: vec![2],
                downstream: vec![2],
            },
            Node {
                id: "step".to_string(),
                view: ViewKind::Query(step_query),
                upstream: vec![0, 1],
                downstream: vec![1],
            },
        ],
        outputs: vec![
            Relation::new(2),
            relation_of_pairs(&[("a", "b"), ("b", "c")]),
            Relation::new(4),
        ],
        dirty: vec![0, 1, 2],
    };
    let reached = flow.quiesce(vec![]).unwrap();
    assert!(reached);
    let tc = flow.get_output(&"tc".to_string());
    assert_eq!(tc.tuples.len(), 3);
    for (a, b) in [("a", "b"), ("b", "c"), ("a", "c")] {
        assert!(tc.contains(&pair(a, b)), "missing closure pair ({}, {})", a, b);
    }
}

#[test]
fn diff_from_an_empty_graph_is_a_full_dump() {
    let flow = flow_of_tables(vec![
        simple_table_node("n1", relation_of_pairs(&[("a", "b"), ("c", "d")])),
    ]);
    let changes = flow.changes_from(Flow::new());
    assert_eq!(changes.len(), 1);
    assert_eq!(changes[0].0, "n1");
    assert_eq!(changes[0].1.inserted.len(), 2);
    assert!(changes[0].1.removed.is_empty());
}

#[test]
fn mutable_output_access_writes_through() {
    let mut flow = flow_of_tables(vec![
        simple_table_node("n1", relation_of_pairs(&[("a", "b")])),
    ]);
    let rel = flow.get_output_mut(&"n1".to_string());
    assert!(rel.insert(pair("x", "y")));
    let seen = flow.get_output(&"n1".to_string());
    assert_eq!(seen.tuples.len(), 2);
    assert!(seen.contains(&pair("x", "y")));
}
