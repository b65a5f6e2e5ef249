use falkordb::graph_entity::Edge;
use falkordb::tensor::{clear_msb, set_msb, single_edge, Tensor};

fn edge(src: u64, dest: u64, id: u64) -> Edge {
    Edge { id, src_id: src, dest_id: dest, relation_id: 0, attributes: 0 }
}

fn cell_ids(t: &Tensor, s: u64, d: u64) -> Vec<u64> {
    let mut it = t.iter(s, d);
    let mut ids = Vec::new();
    while let Some((a, b, id)) = it.next() {
        assert_eq!((a, b), (s, d));
        ids.push(id);
    }
    ids
}

fn all_triples(t: &Tensor, transposed: bool) -> Vec<(u64, u64, u64)> {
    let mut it = t.iter_range(0, 9, transposed);
    let mut out = Vec::new();
    while let Some(x) = it.next() {
        out.push(x);
    }
    out
}

#[test]
fn msb_helpers() {
    assert!(single_edge(5));
    assert!(!single_edge(set_msb(5)));
    assert_eq!(set_msb(5), 0x8000_0000_0000_0005);
    assert_eq!(clear_msb(set_msb(5)), 5);
    assert_eq!(clear_msb(7), 7);
}

#[test]
fn multi_edge_promotion_and_demotion() {
    let mut t = Tensor::new(10, 10);
    t.set_element(0, 1, 10);
    assert_eq!(t.matrix().extract_element_u64(0, 1), Some(10));

    t.set_element(0, 1, 11);
    let v = t.matrix().extract_element_u64(0, 1).unwrap();
    assert!(!single_edge(v));
    assert_eq!(cell_ids(&t, 0, 1), vec![10, 11]);

    let cleared = t.remove_elements(&[edge(0, 1, 11)]);
    assert!(cleared.is_empty());
    assert_eq!(t.matrix().extract_element_u64(0, 1), Some(10));

    let cleared = t.remove_elements(&[edge(0, 1, 10)]);
    assert_eq!(cleared, vec![0]);
    assert_eq!(t.matrix().extract_element_u64(0, 1), None);
    assert_eq!(t.matrix().nvals(), 0);
}

#[test]
fn range_iteration_orders_and_expands() {
    let mut t = Tensor::new(10, 10);
    t.set_element(2, 1, 5);
    t.set_element(0, 3, 7);
    t.set_element(0, 3, 4);
    t.set_element(1, 0, 9);
    t.set_element(0, 1, 8);
    assert_eq!(
        all_triples(&t, false),
        vec![(0, 1, 8), (0, 3, 4), (0, 3, 7), (1, 0, 9), (2, 1, 5)]
    );
    assert_eq!(
        all_triples(&t, true),
        vec![(1, 0, 9), (0, 1, 8), (2, 1, 5), (0, 3, 4), (0, 3, 7)]
    );
    assert_eq!(t.row_degree(0), 3);
    assert_eq!(t.col_degree(3), 2);
    assert_eq!(t.col_degree(1), 2);
}

#[test]
fn set_elements_batch() {
    let mut t = Tensor::new(10, 10);
    t.set_elements(&[edge(0, 1, 1), edge(0, 1, 2), edge(0, 1, 3), edge(4, 5, 6)]);
    assert_eq!(cell_ids(&t, 0, 1), vec![1, 2, 3]);
    assert_eq!(cell_ids(&t, 4, 5), vec![6]);
    assert_eq!(t.matrix().extract_element_u64(4, 5), Some(6));
    assert_eq!(t.matrix().nvals(), 2);
}

#[test]
fn remove_leaves_no_small_bundle() {
    let mut t = Tensor::new(10, 10);
    t.set_elements(&[edge(0, 1, 1), edge(0, 1, 2), edge(0, 1, 3), edge(2, 2, 4), edge(2, 2, 5)]);
    let cleared = t.remove_elements(&[edge(0, 1, 1), edge(0, 1, 3), edge(2, 2, 4), edge(2, 2, 5)]);
    assert_eq!(cleared, vec![2]);
    assert_eq!(t.matrix().extract_element_u64(0, 1), Some(2));
    assert!(single_edge(t.matrix().extract_element_u64(0, 1).unwrap()));
    assert_eq!(t.matrix().extract_element_u64(2, 2), None);
    assert_eq!(all_triples(&t, false), vec![(0, 1, 2)]);
}

#[test]
fn remove_flat_drops_cells() {
    let mut t = Tensor::new(10, 10);
    t.set_element(0, 1, 1);
    t.set_element(3, 4, 2);
    t.remove_elements_flat(&[edge(0, 1, 1)]);
    assert_eq!(t.matrix().nvals(), 1);
    assert_eq!(all_triples(&t, false), vec![(3, 4, 2)]);
    assert_eq!(t.matrix().transposed().unwrap().extract_element_bool(1, 0), None);
}

#[test]
fn released_bundle_slot_is_reused() {
    let mut t = Tensor::new(10, 10);
    t.set_element(0, 1, 10);
    t.set_element(0, 1, 11);
    assert_eq!(t.matrix().extract_element_u64(0, 1), Some(set_msb(0)));
    t.remove_elements(&[edge(0, 1, 11)]);
    assert_eq!(t.matrix().extract_element_u64(0, 1), Some(10));
    t.set_element(2, 3, 20);
    t.set_element(2, 3, 21);
    assert_eq!(t.matrix().extract_element_u64(2, 3), Some(set_msb(0)));
    assert_eq!(cell_ids(&t, 2, 3), vec![20, 21]);
}
