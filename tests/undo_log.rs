use falkordb::graph::Graph;
use falkordb::graph_entity::Edge;
use falkordb::undo_log::{ContextAction, SchemaType, UndoLog};

#[test]
fn undo_of_create_edge() {
    let mut g = Graph::new(16, 16);
    let mut n0 = g.reserve_node();
    g.create_node(&mut n0, &[]);
    let r = g.add_relation_type();
    assert_eq!(r, 0);

    let mut log = UndoLog::new();
    let mut n1 = g.reserve_node();
    g.create_node(&mut n1, &[]);
    log.create_node(n1);
    let mut e = Edge { id: 0, src_id: 0, dest_id: 1, relation_id: r, attributes: 0 };
    g.create_edge(0, 1, r, &mut e);
    log.create_edge(e);

    let actions = log.rollback(&mut g);
    assert_eq!(log.len(), 0);
    assert_eq!(actions.len(), 2);
    assert_eq!(g.node_count(), 1);
    assert!(g.get_node(0).is_some());
    assert_eq!(g.edge_count(), 0);
    assert_eq!(g.get_adjacency_matrix(false).nvals(), 0);
    assert_eq!(g.get_relation_matrix(r, false).nvals(), 0);
}

#[test]
fn undo_restores_deleted_node_and_labels() {
    let mut g = Graph::new(8, 8);
    let l = g.add_label();
    let mut n = g.reserve_node();
    g.create_node(&mut n, &[l]);
    g.set_node_attributes(n.id, 42);

    let mut log = UndoLog::new();
    let labels = g.get_node_labels(&n);
    let set = g.get_node(n.id).unwrap().attributes;
    g.delete_nodes(&[n]);
    log.delete_node(n.id, set, labels);
    assert_eq!(g.node_count(), 0);
    assert_eq!(g.labeled_node_count(l), 0);

    let actions = log.rollback(&mut g);
    assert_eq!(actions.len(), 1);
    assert_eq!(g.node_count(), 1);
    assert_eq!(g.get_node(n.id).unwrap().attributes, 42);
    assert!(g.is_node_labeled(n.id, l));
    assert_eq!(g.labeled_node_count(l), 1);
}

#[test]
fn undo_removes_added_schema_and_labels() {
    let mut g = Graph::new(8, 8);
    let mut n = g.reserve_node();
    g.create_node(&mut n, &[]);
    let mut log = UndoLog::new();
    let l = g.add_label();
    log.add_schema(l, SchemaType::Node);
    g.label_node(n.id, &[l]);
    log.add_labels(n, vec![l]);
    log.add_attribute(3);
    assert_eq!(log.len(), 3);

    let actions = log.rollback(&mut g);
    assert_eq!(g.label_type_count(), 0);
    assert_eq!(actions.len(), 3);
    assert!(matches!(actions[0], ContextAction::RemoveAttribute(3)));
    assert!(matches!(actions[2], ContextAction::RemoveSchema(0, SchemaType::Node)));
}

#[test]
fn log_coalesces_same_kind() {
    let mut g = Graph::new(8, 8);
    let mut log = UndoLog::new();
    for _ in 0..3 {
        let mut n = g.reserve_node();
        g.create_node(&mut n, &[]);
        log.create_node(n);
    }
    assert_eq!(log.len(), 1);
    log.add_attribute(1);
    let mut n = g.reserve_node();
    g.create_node(&mut n, &[]);
    log.create_node(n);
    assert_eq!(log.len(), 3);
    log.rollback(&mut g);
    assert_eq!(g.node_count(), 0);
}

#[test]
fn undo_of_attribute_update_restores_set() {
    let mut g = Graph::new(4, 4);
    let mut n = g.reserve_node();
    g.create_node(&mut n, &[]);
    g.set_node_attributes(n.id, 5);
    let mut log = UndoLog::new();
    log.update_node(falkordb::graph_entity::Node { id: n.id, attributes: 9 }, 5);
    g.set_node_attributes(n.id, 9);
    let actions = log.rollback(&mut g);
    assert_eq!(g.get_node(n.id).unwrap().attributes, 5);
    assert!(matches!(actions[0], ContextAction::RestoreNodeInIndices(_, 9)));
}

#[test]
fn undo_of_create_edge_clears_counters() {
    let mut g = Graph::new(16, 16);
    let mut n0 = g.reserve_node();
    g.create_node(&mut n0, &[]);
    let r = g.add_relation_type();
    let mut log = UndoLog::new();
    let mut n1 = g.reserve_node();
    g.create_node(&mut n1, &[]);
    log.create_node(n1);
    let mut e = Edge { id: 0, src_id: 0, dest_id: 1, relation_id: r, attributes: 0 };
    g.create_edge(0, 1, r, &mut e);
    log.create_edge(e);
    assert_eq!(g.relation_edge_count(r), 1);
    log.rollback(&mut g);
    assert_eq!(g.relation_edge_count(r), 0);
    assert!(g.get_node(1).is_none());
    assert_eq!(g.get_adjacency_matrix(true).nvals(), 0);
}
