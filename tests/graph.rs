use falkordb::graph::{Graph, GraphEdgeDir};
use falkordb::graph_entity::Edge;

fn blank_edge(r: i32) -> Edge {
    Edge { id: 0, src_id: 0, dest_id: 0, relation_id: r, attributes: 0 }
}

#[test]
fn test_new_graph() {
    let mut g = Graph::new(16384, 16384);
    let dim = g.required_matrix_dim();
    assert_eq!(g.get_adjacency_matrix(false).ncols(), dim);
    assert_eq!(g.get_adjacency_matrix(false).nrows(), dim);
    assert_eq!(g.get_adjacency_matrix(false).nvals(), 0);
    assert_eq!(g.node_count(), 0);
}

#[test]
fn test_graph_constructions() {
    let node_count = 16384 / 2;
    let mut g = Graph::new(node_count, node_count);
    for _ in 0..node_count {
        let mut n = g.reserve_node();
        g.create_node(&mut n, &[]);
    }
    assert_eq!(g.node_count(), node_count as u64);
    assert!(g.get_adjacency_matrix(false).ncols() >= node_count);
    assert!(g.get_adjacency_matrix(false).nrows() >= node_count);
    assert_eq!(g.get_adjacency_matrix(false).nvals(), 0);
}

#[test]
fn test_remove_nodes() {
    let mut g = Graph::new(32, 32);

    let mut n1 = g.reserve_node();
    g.create_node(&mut n1, &[]);
    let mut n2 = g.reserve_node();
    g.create_node(&mut n2, &[]);
    let mut n3 = g.reserve_node();
    g.create_node(&mut n3, &[]);

    let r = g.add_relation_type();
    let mut edge = Edge { src_id: 0, dest_id: 1, id: 0, attributes: 0, relation_id: r };

    g.create_edge(0, 1, r, &mut edge);
    g.create_edge(1, 0, r, &mut edge);
    g.create_edge(1, 2, r, &mut edge);

    assert_eq!(g.node_count(), 3);
    assert_eq!(g.get_relation_matrix(r, false).nvals(), 3);
    assert_eq!(g.get_adjacency_matrix(false).nvals(), 3);

    let mut edges = Vec::new();
    g.get_node_edges(&n1, GraphEdgeDir::Both, -1, &mut edges);
    g.delete_edges(&mut edges);
    g.delete_nodes(&[n1]);

    assert_eq!(g.node_count(), 2);
    assert_eq!(g.edge_count(), 1);
}

#[test]
fn test_get_node() {
    let mut g = Graph::new(16, 16);
    for _ in 0..16 {
        let mut n = g.reserve_node();
        g.create_node(&mut n, &[]);
    }
    for i in 0..16 {
        let n = g.get_node(i).unwrap();
        assert_eq!(n.id, i);
    }
}

#[test]
fn test_get_edge() {
    let mut g = Graph::new(5, 55);
    for _ in 0..5 {
        let mut n = g.reserve_node();
        g.create_node(&mut n, &[]);
    }
    let mut relations = [0; 4];
    for i in 0..4 {
        relations[i] = g.add_relation_type();
    }

    let mut e = Edge { src_id: 0, dest_id: 1, id: 0, attributes: 0, relation_id: relations[0] };
    g.create_edge(0, 1, relations[0], &mut e);
    g.create_edge(0, 1, relations[1], &mut e);
    g.create_edge(1, 2, relations[1], &mut e);
    g.create_edge(2, 3, relations[2], &mut e);
    g.create_edge(3, 4, relations[3], &mut e);

    for i in 0..5 {
        let mut e = Edge { src_id: 0, dest_id: 0, id: 0, attributes: 0, relation_id: 0 };
        assert!(g.get_edge(i, &mut e));
        assert_eq!(e.id, i);
    }
}

#[test]
fn three_nodes_one_bidirectional_edge() {
    let mut g = Graph::new(16, 16);
    let mut nodes = Vec::new();
    for _ in 0..3 {
        let mut n = g.reserve_node();
        g.create_node(&mut n, &[]);
        nodes.push(n);
    }
    let r = g.add_relation_type();
    assert_eq!(r, 0);
    let mut e = blank_edge(r);
    g.create_edge(0, 1, r, &mut e);
    assert_eq!(e.id, 0);
    g.create_edge(1, 0, r, &mut e);
    assert_eq!(e.id, 1);
    g.create_edge(1, 2, r, &mut e);
    assert_eq!(e.id, 2);

    assert_eq!(g.node_count(), 3);
    assert_eq!(g.edge_count(), 3);
    assert_eq!(g.get_relation_matrix(r, false).nvals(), 3);
    assert_eq!(g.get_adjacency_matrix(false).nvals(), 3);

    let mut incident = Vec::new();
    g.get_node_edges(&nodes[0], GraphEdgeDir::Both, -1, &mut incident);
    g.delete_edges(&mut incident);
    g.delete_nodes(&[nodes[0]]);

    assert_eq!(g.node_count(), 2);
    assert_eq!(g.edge_count(), 1);
    let adj = g.get_adjacency_matrix(false);
    assert_eq!(adj.extract_element_bool(1, 2), Some(true));
    for k in 0..16 {
        assert_eq!(adj.extract_element_bool(0, k), None);
        assert_eq!(adj.extract_element_bool(k, 0), None);
    }
}

#[test]
fn adjacency_follows_relations() {
    let mut g = Graph::new(8, 8);
    for _ in 0..3 {
        let mut n = g.reserve_node();
        g.create_node(&mut n, &[]);
    }
    let r0 = g.add_relation_type();
    let r1 = g.add_relation_type();
    let mut a = blank_edge(r0);
    let mut b = blank_edge(r1);
    g.create_edge(0, 1, r0, &mut a);
    g.create_edge(0, 1, r1, &mut b);
    g.delete_edges(&mut vec![a]);
    assert_eq!(g.get_adjacency_matrix(false).extract_element_bool(0, 1), Some(true));
    g.delete_edges(&mut vec![b]);
    assert_eq!(g.get_adjacency_matrix(false).extract_element_bool(0, 1), None);
    assert_eq!(g.get_adjacency_matrix(true).extract_element_bool(1, 0), None);
}

#[test]
fn multi_edges_between_same_nodes() {
    let mut g = Graph::new(8, 8);
    for _ in 0..2 {
        let mut n = g.reserve_node();
        g.create_node(&mut n, &[]);
    }
    let r = g.add_relation_type();
    let mut e1 = blank_edge(r);
    let mut e2 = blank_edge(r);
    g.create_edge(0, 1, r, &mut e1);
    g.create_edge(0, 1, r, &mut e2);
    let found = g.get_edges_connecting_nodes(0, 1, -1);
    assert_eq!(found.len(), 2);
    assert!(g.relationship_contains_multi_edge(r));
    assert_eq!(g.get_node_degree(&g.get_node(0).unwrap(), GraphEdgeDir::Outgoing, -1), 2);
    assert_eq!(g.get_node_degree(&g.get_node(1).unwrap(), GraphEdgeDir::Incoming, r), 2);
    assert_eq!(g.get_node_degree(&g.get_node(1).unwrap(), GraphEdgeDir::Outgoing, r), 0);
    g.delete_edges(&mut vec![e1]);
    assert_eq!(g.get_edges_connecting_nodes(0, 1, r).len(), 1);
    assert_eq!(g.get_adjacency_matrix(false).extract_element_bool(0, 1), Some(true));
    assert!(g.get_edges_connecting_nodes(0, 1, -2).is_empty());
}

#[test]
fn label_counters_follow_label_matrices() {
    let mut g = Graph::new(8, 8);
    let l0 = g.add_label();
    let l1 = g.add_label();
    let mut n0 = g.reserve_node();
    g.create_node(&mut n0, &[l0, l1]);
    let mut n1 = g.reserve_node();
    g.create_node(&mut n1, &[l0]);
    assert_eq!(g.labeled_node_count(l0), 2);
    assert_eq!(g.labeled_node_count(l1), 1);
    assert_eq!(g.get_label_matrix(l0).nvals(), 2);
    assert!(g.is_node_labeled(n0.id, l1));
    assert_eq!(g.get_node_labels(&n0), vec![l0, l1]);
    g.label_node(n1.id, &[l0]);
    assert_eq!(g.labeled_node_count(l0), 2);
    g.remove_node_labels(n0.id, &[l1]);
    assert_eq!(g.labeled_node_count(l1), 0);
    assert!(!g.is_node_labeled(n0.id, l1));
    g.delete_nodes(&[n1]);
    assert_eq!(g.labeled_node_count(l0), 1);
    assert_eq!(g.get_label_matrix(l0).nvals(), 1);
    assert_eq!(g.get_label_matrix(7).nvals(), 0);
    assert_eq!(g.get_node_label_matrix().nvals(), 1);
    g.remove_label(l1);
    assert_eq!(g.label_type_count(), 1);
}

#[test]
fn create_edges_in_bulk() {
    let mut g = Graph::new(8, 8);
    for _ in 0..3 {
        let mut n = g.reserve_node();
        g.create_node(&mut n, &[]);
    }
    let r = g.add_relation_type();
    let mut edges = vec![
        Edge { id: 0, src_id: 0, dest_id: 1, relation_id: 0, attributes: 0 },
        Edge { id: 0, src_id: 0, dest_id: 1, relation_id: 0, attributes: 0 },
        Edge { id: 0, src_id: 2, dest_id: 0, relation_id: 0, attributes: 0 },
    ];
    g.create_edges(r, &mut edges);
    assert_eq!(g.edge_count(), 3);
    assert_eq!(g.relation_edge_count(r), 3);
    assert_eq!(g.get_relation_matrix(r, false).nvals(), 2);
    assert_eq!(g.get_adjacency_matrix(false).nvals(), 2);
    assert_eq!(g.get_edges_connecting_nodes(0, 1, r).len(), 2);
}

#[test]
fn node_capacity_grows() {
    let mut g = Graph::new(2, 2);
    for _ in 0..5 {
        let mut n = g.reserve_node();
        g.create_node(&mut n, &[]);
    }
    assert_eq!(g.node_count(), 5);
    assert!(g.required_matrix_dim() >= 5);
    assert_eq!(g.get_adjacency_matrix(false).nrows(), g.required_matrix_dim());
    let r = g.add_relation_type();
    let mut e = blank_edge(r);
    g.create_edge(4, 3, r, &mut e);
    assert_eq!(g.get_adjacency_matrix(false).extract_element_bool(4, 3), Some(true));
    g.apply_all_pending(true);
    assert!(!g.pending());
    assert_eq!(g.get_adjacency_matrix(false).dp().nvals(), 0);
    assert_eq!(g.get_adjacency_matrix(false).m().nvals(), 1);
}

#[test]
fn set_node_and_edge_at_ids() {
    let mut g = Graph::new(4, 4);
    let l = g.add_label();
    let r = g.add_relation_type();
    let mut n = falkordb::graph_entity::Node { id: 0, attributes: 0 };
    g.set_node(6, &[l], &mut n);
    assert_eq!(n.id, 6);
    assert!(g.required_matrix_dim() >= 7);
    assert!(g.get_node(6).is_some());
    assert!(g.get_node(5).is_none());
    assert_eq!(g.node_count(), 1);
    assert_eq!(g.uncompacted_node_count(), 7);
    assert!(g.is_node_labeled(6, l));
    g.set_node(2, &[], &mut n);
    let mut e = blank_edge(r);
    g.set_edge(false, 9, 6, 2, r, &mut e);
    assert_eq!(e.id, 9);
    let mut probe = blank_edge(r);
    assert!(g.get_edge(9, &mut probe));
    assert!(!g.get_edge(3, &mut probe));
    assert_eq!(g.get_relation_matrix(r, false).extract_element_u64(6, 2), Some(9));
    assert_eq!(g.get_adjacency_matrix(false).extract_element_bool(6, 2), Some(true));
    assert_eq!(g.get_node_label_matrix().nvals(), 1);
    g.allocate_nodes(20);
    assert!(g.required_matrix_dim() >= 22);
    g.allocate_edges(5);
    assert_eq!(g.edge_count(), 1);
}

#[test]
fn edge_counters_add_up_to_live_edges() {
    let mut g = Graph::new(8, 8);
    for _ in 0..4 {
        let mut n = g.reserve_node();
        g.create_node(&mut n, &[]);
    }
    let r0 = g.add_relation_type();
    let r1 = g.add_relation_type();
    let mut a = blank_edge(r0);
    let mut b = blank_edge(r0);
    let mut c = blank_edge(r1);
    g.create_edge(0, 1, r0, &mut a);
    g.create_edge(0, 1, r0, &mut b);
    g.create_edge(2, 3, r1, &mut c);
    assert_eq!(g.relation_edge_count(r0), 2);
    assert_eq!(g.relation_edge_count(r1), 1);
    assert_eq!(g.relation_edge_count(r0) + g.relation_edge_count(r1), g.edge_count());
    g.delete_edges(&mut vec![b]);
    assert_eq!(g.relation_edge_count(r0), 1);
    assert_eq!(g.relation_edge_count(r0) + g.relation_edge_count(r1), g.edge_count());
    assert!(!g.relationship_contains_multi_edge(r0));
}

#[test]
fn set_node_labels_on_unlabeled_graph() {
    let mut g = Graph::new(4, 4);
    let _l = g.add_label();
    let mut n = g.reserve_node();
    g.create_node(&mut n, &[]);
    g.set_node_labels();
    assert_eq!(g.get_node_label_matrix().nvals(), 0);
}

#[test]
fn bulk_edges_come_back_sorted() {
    let mut g = Graph::new(4, 4);
    for _ in 0..2 {
        let mut n = g.reserve_node();
        g.create_node(&mut n, &[]);
    }
    let r = g.add_relation_type();
    let mut edges = vec![
        Edge { id: 0, src_id: 1, dest_id: 1, relation_id: 0, attributes: 0 },
        Edge { id: 0, src_id: 0, dest_id: 0, relation_id: 0, attributes: 0 },
    ];
    g.create_edges(r, &mut edges);
    assert_eq!((edges[0].src_id, edges[0].dest_id), (0, 0));
    assert_eq!((edges[1].src_id, edges[1].dest_id), (1, 1));
    let r1 = g.add_relation_type();
    let mut e = blank_edge(r1);
    g.create_edge(0, 1, r1, &mut e);
    let mut all = vec![e, edges[1], edges[0]];
    g.delete_edges(&mut all);
    assert_eq!((all[0].relation_id, all[0].src_id), (0, 0));
    assert_eq!((all[1].relation_id, all[1].src_id), (0, 1));
    assert_eq!(all[2].relation_id, 1);
    assert_eq!(g.edge_count(), 0);
    assert_eq!(g.get_adjacency_matrix(false).nvals(), 0);
}
