use botanist::node::node_from_row;
use botanist::preload::preload_children;
use botanist::resolve::edge_to_many;
use botanist::resolve::edge_to_one;
use botanist::resolve::resolve_multiple;
use botanist::resolve::resolve_single;
use botanist::BatchKind;
use botanist::BatchRequest;
use botanist::Context;
use botanist::Edge;
use botanist::EdgeSel;
use botanist::EntityDesc;
use botanist::FieldError;
use botanist::Filter;
use botanist::HasMany;
use botanist::HasOne;
use botanist::MemContext;
use botanist::Node;
use botanist::Registry;
use botanist::Row;
use botanist::Selection;
use botanist::Slot;
use botanist::SlotValue;
use botanist::Store;
use botanist::Table;

fn row1(id: u64, fk: Option<u64>) -> Row {
    Row { id, keys: vec![fk], texts: vec![] }
}

fn row0(id: u64) -> Row {
    Row { id, keys: vec![], texts: vec![] }
}

fn sel_edge(edge: usize) -> EdgeSel {
    EdgeSel { edge, limit: None, offset: None, sub: Selection { edges: vec![] } }
}

/// Posts with a to-one "author" edge by primary key into the authors
/// table.
fn author_world() -> (Registry, Store) {
    let reg = Registry {
        entities: vec![
            EntityDesc {
                key_cols: 1,
                text_cols: 0,
                edges: vec![Edge::One(HasOne { target: 1, key_col: 0 })],
            },
            EntityDesc { key_cols: 0, text_cols: 0, edges: vec![] },
        ],
    };
    let store = Store {
        tables: vec![
            Table { rows: vec![], failing: false },
            Table { rows: vec![row0(10), row0(11), row0(12)], failing: false },
        ],
    };
    (reg, store)
}

/// Posts with a to-many "comments" edge: each comment stores its post's
/// primary key in key column zero.
fn comment_world(comments: Vec<Row>) -> (Registry, Store) {
    let reg = Registry {
        entities: vec![
            EntityDesc {
                key_cols: 0,
                text_cols: 0,
                edges: vec![Edge::Many(HasMany { target: 1, fk_col: 0 })],
            },
            EntityDesc { key_cols: 1, text_cols: 0, edges: vec![] },
        ],
    };
    let store = Store {
        tables: vec![
            Table { rows: vec![], failing: false },
            Table { rows: comments, failing: false },
        ],
    };
    (reg, store)
}

fn taken_one(node: &mut Node, e: usize) -> Node {
    match node.take_slot(e) {
        Some(SlotValue::One(c)) => c,
        _ => panic!("expected a preloaded to-one value"),
    }
}

fn taken_many(node: &mut Node, e: usize) -> Vec<Node> {
    match node.take_slot(e) {
        Some(SlotValue::Many(cs)) => cs,
        _ => panic!("expected a preloaded to-many value"),
    }
}

#[test]
fn to_one_batch_dedupes_and_fans_out() {
    // parents 1 and 2 share author 10; parent 3 has author 11; one
    // fetch with key set {10, 11}
    let (reg, store) = author_world();
    let mut nodes = vec![
        node_from_row(row1(1, Some(10)), 1),
        node_from_row(row1(2, Some(10)), 1),
        node_from_row(row1(3, Some(11)), 1),
    ];
    let sel = Selection { edges: vec![sel_edge(0)] };
    let mut trace: Vec<BatchRequest> = Vec::new();
    preload_children(&store, &reg, 0, &mut nodes, &sel, &mut trace, 0);
    assert_eq!(trace.len(), 1);
    assert_eq!(trace[0].keys, vec![10, 11]);
    assert_eq!(trace[0].target, 1);
    assert_eq!(trace[0].edges, vec![0]);
    assert_eq!(trace[0].kind, BatchKind::ByIds);
    let a1 = taken_one(&mut nodes[0], 0);
    let a2 = taken_one(&mut nodes[1], 0);
    let a3 = taken_one(&mut nodes[2], 0);
    assert_eq!(a1.row.id, 10);
    assert_eq!(a2.row.id, 10);
    assert_eq!(a3.row.id, 11);
}

#[test]
fn to_one_edges_share_one_fetch_per_target() {
    // two to-one edges into the same target type share one id set and
    // one fetch by primary key
    let reg = Registry {
        entities: vec![
            EntityDesc {
                key_cols: 2,
                text_cols: 0,
                edges: vec![
                    Edge::One(HasOne { target: 1, key_col: 0 }),
                    Edge::One(HasOne { target: 1, key_col: 1 }),
                ],
            },
            EntityDesc { key_cols: 0, text_cols: 0, edges: vec![] },
        ],
    };
    let store = Store {
        tables: vec![
            Table { rows: vec![], failing: false },
            Table { rows: vec![row0(10), row0(11), row0(12)], failing: false },
        ],
    };
    let mut nodes = vec![
        node_from_row(Row { id: 1, keys: vec![Some(10), Some(12)], texts: vec![] }, 2),
        node_from_row(Row { id: 2, keys: vec![Some(11), Some(12)], texts: vec![] }, 2),
    ];
    let sel = Selection { edges: vec![sel_edge(0), sel_edge(1)] };
    let mut trace: Vec<BatchRequest> = Vec::new();
    preload_children(&store, &reg, 0, &mut nodes, &sel, &mut trace, 0);
    assert_eq!(trace.len(), 1);
    assert_eq!(trace[0].keys, vec![10, 11, 12]);
    assert_eq!(trace[0].edges, vec![0, 1]);
    assert_eq!(taken_one(&mut nodes[0], 0).row.id, 10);
    assert_eq!(taken_one(&mut nodes[0], 1).row.id, 12);
    assert_eq!(taken_one(&mut nodes[1], 0).row.id, 11);
    assert_eq!(taken_one(&mut nodes[1], 1).row.id, 12);
}

#[test]
fn to_many_global_limit_truncates_before_partitioning() {
    // twelve comments split seven/five by table order; the default
    // limit of ten cuts the combined fetch first, so the second
    // parent's bucket is starved down to three
    let mut comments = Vec::new();
    for i in 0..7 {
        comments.push(row1(100 + i, Some(1)));
    }
    for i in 0..5 {
        comments.push(row1(200 + i, Some(2)));
    }
    let (reg, store) = comment_world(comments);
    let mut nodes = vec![node_from_row(row0(1), 1), node_from_row(row0(2), 1)];
    let sel = Selection { edges: vec![sel_edge(0)] };
    let mut trace: Vec<BatchRequest> = Vec::new();
    preload_children(&store, &reg, 0, &mut nodes, &sel, &mut trace, 0);
    assert_eq!(trace.len(), 1);
    assert_eq!(trace[0].keys, vec![1, 2]);
    assert_eq!(trace[0].kind, BatchKind::ByForeignKey { col: 0, limit: 10, offset: 0 });
    let b1 = taken_many(&mut nodes[0], 0);
    let b2 = taken_many(&mut nodes[1], 0);
    assert_eq!(b1.len(), 7);
    assert_eq!(b2.len(), 3);
    assert_eq!(b2[0].row.id, 200);
    assert_eq!(b2[2].row.id, 202);
}

#[test]
fn slot_returns_empty_on_every_take_after_the_first() {
    let (reg, store) = author_world();
    let mut nodes = vec![node_from_row(row1(1, Some(10)), 1)];
    let sel = Selection { edges: vec![sel_edge(0)] };
    let mut trace: Vec<BatchRequest> = Vec::new();
    preload_children(&store, &reg, 0, &mut nodes, &sel, &mut trace, 0);
    assert!(nodes[0].take_slot(0).is_some());
    assert!(nodes[0].take_slot(0).is_none());
    assert!(nodes[0].take_slot(0).is_none());
    match &nodes[0].slots[0] {
        Slot::Taken => {}
        _ => panic!("a drained slot stays consumed"),
    }
}

#[test]
fn slot_take_on_empty_slot_is_none_and_stays_empty() {
    let mut s = Slot::Empty;
    assert!(s.take().is_none());
    match s {
        Slot::Empty => {}
        _ => panic!("an empty slot stays empty"),
    }
}

#[test]
fn unselected_edge_causes_no_batch_fetch() {
    let (reg, store) = author_world();
    let mut nodes = vec![node_from_row(row1(1, Some(10)), 1)];
    let sel = Selection { edges: vec![] };
    let mut trace: Vec<BatchRequest> = Vec::new();
    preload_children(&store, &reg, 0, &mut nodes, &sel, &mut trace, 0);
    assert_eq!(trace.len(), 0);
    match &nodes[0].slots[0] {
        Slot::Empty => {}
        _ => panic!("an unselected edge leaves its slot empty"),
    }
}

#[test]
fn resolve_multiple_of_no_ids_is_empty_and_fetches_no_children() {
    let (reg, store) = author_world();
    let sel = Selection { edges: vec![sel_edge(0)] };
    let mut trace: Vec<BatchRequest> = Vec::new();
    let ids: Vec<u64> = Vec::new();
    let r = resolve_multiple(&store, &reg, 0, Some(&ids), None, None, None, &sel, &mut trace);
    let nodes = r.expect("an empty id set resolves to an empty sequence");
    assert_eq!(nodes.len(), 0);
    assert_eq!(trace.len(), 0);
}

#[test]
fn resolver_falls_back_when_slot_is_empty() {
    // the batch returns nothing for a dangling author key; the field
    // resolver's own direct fetch then reports the missing row
    let (reg, store) = author_world();
    let mut nodes = vec![node_from_row(row1(1, Some(99)), 1)];
    let sel = Selection { edges: vec![sel_edge(0)] };
    let mut trace: Vec<BatchRequest> = Vec::new();
    preload_children(&store, &reg, 0, &mut nodes, &sel, &mut trace, 0);
    match &nodes[0].slots[0] {
        Slot::Empty => {}
        _ => panic!("a batch miss leaves the slot empty"),
    }
    let r = edge_to_one(&store, &reg, 0, &mut nodes[0], 0);
    assert_eq!(r.unwrap_err(), FieldError::NotFound);
}

#[test]
fn resolver_fallback_fetches_directly_without_preload() {
    // edge omitted from the shape: the resolver performs its own
    // filtered fetch with the default pagination
    let mut comments = Vec::new();
    for i in 0..12 {
        comments.push(row1(300 + i, Some(1)));
    }
    let (reg, store) = comment_world(comments);
    let mut node = node_from_row(row0(1), 1);
    let sub = Selection { edges: vec![] };
    let mut trace: Vec<BatchRequest> = Vec::new();
    let r = edge_to_many(&store, &reg, 0, &mut node, 0, None, None, &sub, &mut trace);
    let cs = r.expect("a direct filtered fetch succeeds");
    assert_eq!(cs.len(), 10);
    assert_eq!(cs[0].row.id, 300);
    let mut trace2: Vec<BatchRequest> = Vec::new();
    let r2 = edge_to_many(
        &store,
        &reg,
        0,
        &mut node_from_row(row0(1), 1),
        0,
        Some(3),
        Some(10),
        &sub,
        &mut trace2,
    );
    let cs2 = r2.expect("explicit pagination applies to the fallback fetch");
    assert_eq!(cs2.len(), 2);
    assert_eq!(cs2[0].row.id, 310);
}

#[test]
fn preloaded_equals_individually_resolved_to_one() {
    // the preloaded author of each parent matches what resolving that
    // parent alone returns
    let (reg, store) = author_world();
    let mut preloaded = vec![
        node_from_row(row1(1, Some(10)), 1),
        node_from_row(row1(2, Some(11)), 1),
    ];
    let sel = Selection { edges: vec![sel_edge(0)] };
    let mut trace: Vec<BatchRequest> = Vec::new();
    preload_children(&store, &reg, 0, &mut preloaded, &sel, &mut trace, 0);
    for (id, fk) in [(1u64, 10u64), (2, 11)] {
        let mut alone = node_from_row(row1(id, Some(fk)), 1);
        let direct = edge_to_one(&store, &reg, 0, &mut alone, 0).expect("direct fetch");
        let j = (id - 1) as usize;
        let batched = edge_to_one(&store, &reg, 0, &mut preloaded[j], 0).expect("batched");
        assert_eq!(direct.row.id, batched.row.id);
    }
}

#[test]
fn fetch_failure_aborts_only_the_affected_subtree() {
    // authors fail, comments succeed: the comments edge is preloaded,
    // the author edge degrades to fallback, which then surfaces the
    // failure as a field-scoped error
    let reg = Registry {
        entities: vec![
            EntityDesc {
                key_cols: 1,
                text_cols: 0,
                edges: vec![
                    Edge::One(HasOne { target: 1, key_col: 0 }),
                    Edge::Many(HasMany { target: 2, fk_col: 0 }),
                ],
            },
            EntityDesc { key_cols: 0, text_cols: 0, edges: vec![] },
            EntityDesc { key_cols: 1, text_cols: 0, edges: vec![] },
        ],
    };
    let store = Store {
        tables: vec![
            Table { rows: vec![], failing: false },
            Table { rows: vec![row0(10)], failing: true },
            Table { rows: vec![row1(100, Some(1))], failing: false },
        ],
    };
    let mut nodes = vec![node_from_row(row1(1, Some(10)), 2)];
    let sel = Selection { edges: vec![sel_edge(0), sel_edge(1)] };
    let mut trace: Vec<BatchRequest> = Vec::new();
    preload_children(&store, &reg, 0, &mut nodes, &sel, &mut trace, 0);
    assert_eq!(trace.len(), 2);
    let comments = taken_many(&mut nodes[0], 1);
    assert_eq!(comments.len(), 1);
    assert_eq!(comments[0].row.id, 100);
    let r = edge_to_one(&store, &reg, 0, &mut nodes[0], 0);
    assert_eq!(r.unwrap_err(), FieldError::Unavailable);
}

#[test]
fn grandchildren_preload_in_the_same_sweep() {
    // posts -> comments -> comment author: the nested selection fills
    // the comments' own author slots before fan-out
    let reg = Registry {
        entities: vec![
            EntityDesc {
                key_cols: 0,
                text_cols: 0,
                edges: vec![Edge::Many(HasMany { target: 1, fk_col: 0 })],
            },
            EntityDesc {
                key_cols: 2,
                text_cols: 0,
                edges: vec![Edge::One(HasOne { target: 2, key_col: 1 })],
            },
            EntityDesc { key_cols: 0, text_cols: 0, edges: vec![] },
        ],
    };
    let store = Store {
        tables: vec![
            Table { rows: vec![], failing: false },
            Table {
                rows: vec![Row { id: 100, keys: vec![Some(1), Some(20)], texts: vec![] }],
                failing: false,
            },
            Table { rows: vec![row0(20)], failing: false },
        ],
    };
    let mut nodes = vec![node_from_row(row0(1), 1)];
    let sel = Selection {
        edges: vec![EdgeSel {
            edge: 0,
            limit: None,
            offset: None,
            sub: Selection { edges: vec![sel_edge(0)] },
        }],
    };
    let mut trace: Vec<BatchRequest> = Vec::new();
    preload_children(&store, &reg, 0, &mut nodes, &sel, &mut trace, 0);
    assert_eq!(trace.len(), 2);
    let mut comments = taken_many(&mut nodes[0], 0);
    assert_eq!(comments.len(), 1);
    let author = taken_one(&mut comments[0], 0);
    assert_eq!(author.row.id, 20);
}

#[test]
fn resolve_single_preloads_its_own_edges() {
    let reg = Registry {
        entities: vec![
            EntityDesc {
                key_cols: 1,
                text_cols: 0,
                edges: vec![Edge::One(HasOne { target: 1, key_col: 0 })],
            },
            EntityDesc { key_cols: 0, text_cols: 0, edges: vec![] },
        ],
    };
    let store = Store {
        tables: vec![
            Table { rows: vec![row1(5, Some(10))], failing: false },
            Table { rows: vec![row0(10)], failing: false },
        ],
    };
    let sel = Selection { edges: vec![sel_edge(0)] };
    let mut trace: Vec<BatchRequest> = Vec::new();
    let mut node = resolve_single(&store, &reg, 0, 5, &sel, &mut trace).expect("row 5 exists");
    assert_eq!(node.row.id, 5);
    assert_eq!(trace.len(), 1);
    assert_eq!(taken_one(&mut node, 0).row.id, 10);
    let miss = resolve_single(&store, &reg, 0, 6, &sel, &mut trace);
    assert_eq!(miss.unwrap_err(), FieldError::NotFound);
}

#[test]
fn resolve_multiple_pages_and_filters_by_id() {
    let (reg, _) = author_world();
    let store = Store {
        tables: vec![
            Table {
                rows: vec![
                    row1(1, Some(10)),
                    row1(2, Some(11)),
                    row1(3, Some(10)),
                    row1(4, Some(12)),
                ],
                failing: false,
            },
            Table { rows: vec![row0(10), row0(11), row0(12)], failing: false },
        ],
    };
    let sel = Selection { edges: vec![sel_edge(0)] };
    let mut trace: Vec<BatchRequest> = Vec::new();
    let ids = vec![1, 3, 4];
    let r = resolve_multiple(
        &store,
        &reg,
        0,
        Some(&ids),
        Some(2),
        Some(1),
        None,
        &sel,
        &mut trace,
    );
    let nodes = r.expect("the root fetch succeeds");
    assert_eq!(nodes.len(), 2);
    assert_eq!(nodes[0].row.id, 3);
    assert_eq!(nodes[1].row.id, 4);
    assert_eq!(trace.len(), 1);
}

#[test]
fn resolve_multiple_search_filter_matches_case_folded() {
    let reg = Registry {
        entities: vec![EntityDesc { key_cols: 0, text_cols: 1, edges: vec![] }],
    };
    let store = Store {
        tables: vec![Table {
            rows: vec![
                Row { id: 1, keys: vec![], texts: vec![String::from("Frank")] },
                Row { id: 2, keys: vec![], texts: vec![String::from("Bob")] },
                Row { id: 3, keys: vec![], texts: vec![String::from("HANNAH")] },
            ],
            failing: false,
        }],
    };
    let sel = Selection { edges: vec![] };
    let mut trace: Vec<BatchRequest> = Vec::new();
    let f = Filter { col: 0, needle: String::from("an") };
    let r = resolve_multiple(&store, &reg, 0, None, None, None, Some(&f), &sel, &mut trace);
    let nodes = r.expect("the root fetch succeeds");
    assert_eq!(nodes.len(), 2);
    assert_eq!(nodes[0].row.id, 1);
    assert_eq!(nodes[1].row.id, 3);
}

#[test]
fn resolve_multiple_reports_a_failing_store() {
    let (reg, _) = author_world();
    let store = Store {
        tables: vec![
            Table { rows: vec![], failing: true },
            Table { rows: vec![], failing: false },
        ],
    };
    let sel = Selection { edges: vec![] };
    let mut trace: Vec<BatchRequest> = Vec::new();
    let r = resolve_multiple(&store, &reg, 0, None, None, None, None, &sel, &mut trace);
    assert_eq!(r.unwrap_err(), FieldError::Unavailable);
}

#[test]
fn batch_keys_are_sorted_and_duplicate_free() {
    let (reg, store) = author_world();
    let mut nodes = vec![
        node_from_row(row1(1, Some(12)), 1),
        node_from_row(row1(2, Some(10)), 1),
        node_from_row(row1(3, Some(12)), 1),
        node_from_row(row1(4, Some(11)), 1),
    ];
    let sel = Selection { edges: vec![sel_edge(0)] };
    let mut trace: Vec<BatchRequest> = Vec::new();
    preload_children(&store, &reg, 0, &mut nodes, &sel, &mut trace, 0);
    assert_eq!(trace[0].keys, vec![10, 11, 12]);
}

#[test]
fn context_hands_out_its_connection() {
    let (_, store) = author_world();
    let ctx = MemContext { store };
    let conn = ctx.get_connection();
    assert_eq!(conn.tables.len(), 2);
}

#[test]
fn registry_checker_accepts_and_rejects() {
    let (reg, _) = author_world();
    assert!(reg.is_well_formed());
    let bad = Registry {
        entities: vec![EntityDesc {
            key_cols: 1,
            text_cols: 0,
            edges: vec![Edge::One(HasOne { target: 7, key_col: 0 })],
        }],
    };
    assert!(!bad.is_well_formed());
    let bad_col = Registry {
        entities: vec![
            EntityDesc {
                key_cols: 0,
                text_cols: 0,
                edges: vec![Edge::Many(HasMany { target: 1, fk_col: 2 })],
            },
            EntityDesc { key_cols: 1, text_cols: 0, edges: vec![] },
        ],
    };
    assert!(!bad_col.is_well_formed());
}

#[test]
fn preloaded_equals_individually_resolved_to_many_within_the_cap() {
    // four comments across two parents, well within the default limit:
    // preloaded buckets match what each parent resolves on its own
    let comments = vec![
        row1(101, Some(1)),
        row1(102, Some(2)),
        row1(103, Some(1)),
        row1(104, Some(2)),
    ];
    let (reg, store) = comment_world(comments);
    let mut preloaded = vec![node_from_row(row0(1), 1), node_from_row(row0(2), 1)];
    let sel = Selection { edges: vec![sel_edge(0)] };
    let mut trace: Vec<BatchRequest> = Vec::new();
    preload_children(&store, &reg, 0, &mut preloaded, &sel, &mut trace, 0);
    let sub = Selection { edges: vec![] };
    for j in 0..2usize {
        let mut alone = node_from_row(row0((j + 1) as u64), 1);
        let direct = edge_to_many(&store, &reg, 0, &mut alone, 0, None, None, &sub, &mut trace)
            .expect("direct fetch");
        let batched = edge_to_many(
            &store,
            &reg,
            0,
            &mut preloaded[j],
            0,
            None,
            None,
            &sub,
            &mut trace,
        )
        .expect("batched fetch");
        let direct_ids: Vec<u64> = direct.iter().map(|n| n.row.id).collect();
        let batched_ids: Vec<u64> = batched.iter().map(|n| n.row.id).collect();
        assert_eq!(direct_ids, batched_ids);
    }
}

#[test]
fn store_conformance_checker_accepts_and_rejects() {
    let (reg, store) = author_world();
    assert!(store.conforms_to(&reg));
    let wrong_cols = Store {
        tables: vec![
            Table { rows: vec![row0(1)], failing: false },
            Table { rows: vec![], failing: false },
        ],
    };
    assert!(!wrong_cols.conforms_to(&reg));
    let dup_ids = Store {
        tables: vec![
            Table { rows: vec![row1(1, None), row1(1, None)], failing: false },
            Table { rows: vec![], failing: false },
        ],
    };
    assert!(!dup_ids.conforms_to(&reg));
    let missing_table = Store { tables: vec![Table { rows: vec![], failing: false }] };
    assert!(!missing_table.conforms_to(&reg));
}
