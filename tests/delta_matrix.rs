use falkordb::delta_matrix::DeltaMatrix;
use std::collections::BTreeMap;
use falkordb::sparse_matrix::{ElementType, Semiring, SparseMatrix};

fn matrix_eq(a: &SparseMatrix, b: &SparseMatrix) {
    assert_eq!(a.nrows(), b.nrows());
    assert_eq!(a.ncols(), b.ncols());
    assert_eq!(a.nvals(), b.nvals());
    for k in 0..a.nentries() {
        let x = a.entry_at(k);
        let y = b.entry_at(k);
        assert_eq!((x.row, x.col), (y.row, y.col));
    }
}

#[test]
fn test_new_matrix() {
    let nrows = 100;
    let ncols = 100;
    let a = DeltaMatrix::new(ElementType::Bool, nrows, ncols, false);
    assert_eq!(a.m().nvals(), 0);
    assert_eq!(a.dp().nvals(), 0);
    assert_eq!(a.dm().nvals(), 0);
    assert_eq!(a.nrows(), nrows);
    assert_eq!(a.ncols(), ncols);
    assert_eq!(a.nvals(), 0);
    assert!(!a.is_dirty());
    assert!(a.transposed().is_none());

    let a = DeltaMatrix::new(ElementType::Bool, nrows, ncols, true);
    assert_eq!(a.m().nvals(), 0);
    assert_eq!(a.dp().nvals(), 0);
    assert_eq!(a.dm().nvals(), 0);
    assert_eq!(a.nrows(), nrows);
    assert_eq!(a.ncols(), ncols);
    assert_eq!(a.nvals(), 0);
    assert!(!a.is_dirty());
    assert!(a.transposed().is_some());
    assert_eq!(a.transposed().unwrap().m().nvals(), 0);
    assert_eq!(a.transposed().unwrap().dp().nvals(), 0);
    assert_eq!(a.transposed().unwrap().dm().nvals(), 0);
    assert_eq!(a.transposed().unwrap().nrows(), ncols);
    assert_eq!(a.transposed().unwrap().ncols(), nrows);
    assert_eq!(a.transposed().unwrap().nvals(), 0);
    assert!(!a.transposed().unwrap().is_dirty());
    assert!(a.transposed().unwrap().transposed().is_none());
}

#[test]
fn test_simple_set() {
    let mut a = DeltaMatrix::new(ElementType::Bool, 100, 100, false);
    let i = 0;
    let j = 1;
    a.set_element_bool(i, j);

    assert_eq!(a.extract_element_bool(i, j), Some(true));
    assert_eq!(a.nvals(), 1);
    assert!(a.is_dirty());
    assert_eq!(a.m().nvals(), 0);
    assert_eq!(a.dm().nvals(), 0);
    assert_eq!(a.dp().nvals(), 1);

    a.wait(false);

    a.set_element_bool(i, j);

    assert_eq!(a.m().nvals(), 0);
    assert_eq!(a.dm().nvals(), 0);
    assert_eq!(a.dp().nvals(), 1);
}

#[test]
fn test_set() {
    let mut a = DeltaMatrix::new(ElementType::Bool, 100, 100, false);
    let i = 0;
    let j = 1;
    a.set_element_bool(i, j);
    a.wait(true);
    a.remove_element(i, j);
    a.set_element_bool(i, j);

    assert_eq!(a.nvals(), 1);
    assert_eq!(a.dm().nvals(), 0);
    assert_eq!(a.dp().nvals(), 0);
}

#[test]
fn test_del() {
    let mut a = DeltaMatrix::new(ElementType::Bool, 100, 100, false);
    let i = 0;
    let j = 1;

    a.remove_element(i, j);

    assert_eq!(a.dm().nvals(), 0);
    assert_eq!(a.dp().nvals(), 0);

    a.set_element_bool(i, j);
    a.remove_element(i, j);

    assert!(a.is_dirty());
    assert_eq!(a.nvals(), 0);
    assert_eq!(a.m().nvals(), 0);
    assert_eq!(a.dm().nvals(), 0);
    assert_eq!(a.dp().nvals(), 0);

    a.set_element_bool(i, j);
    a.wait(true);
    a.remove_element(i, j);

    assert_eq!(a.nvals(), 0);
    assert_eq!(a.m().nvals(), 1);
    assert_eq!(a.dm().nvals(), 1);
    assert_eq!(a.dp().nvals(), 0);

    a.wait(true);

    assert_eq!(a.nvals(), 0);
    assert_eq!(a.m().nvals(), 0);
    assert_eq!(a.dm().nvals(), 0);
    assert_eq!(a.dp().nvals(), 0);

    a.set_element_bool(i, j);
    a.wait(true);
    a.remove_element(i, j);
    a.set_element_bool(i, j);

    assert_eq!(a.nvals(), 1);
    assert_eq!(a.m().nvals(), 1);
    assert_eq!(a.dm().nvals(), 0);
    assert_eq!(a.dp().nvals(), 0);
}

#[test]
fn test_transpose() {
    let mut a = DeltaMatrix::new(ElementType::Bool, 100, 100, true);
    let i = 0;
    let j = 1;

    a.set_element_bool(i, j);

    let t = a.transposed().unwrap();
    assert_eq!(t.extract_element_bool(j, i), Some(true));
    assert_eq!(t.nvals(), 1);
    assert!(t.is_dirty());
    assert_eq!(t.m().nvals(), 0);
    assert_eq!(t.dm().nvals(), 0);
    assert_eq!(t.dp().nvals(), 1);

    a.wait(true);

    let t = a.transposed().unwrap();
    assert_eq!(t.m().nvals(), 1);
    assert_eq!(t.dm().nvals(), 0);
    assert_eq!(t.dp().nvals(), 0);

    a.remove_element(i, j);

    let t = a.transposed().unwrap();
    assert!(t.is_dirty());
    assert_eq!(t.m().nvals(), 1);
    assert_eq!(t.dm().nvals(), 1);
    assert_eq!(t.dp().nvals(), 0);

    a.wait(true);

    let t = a.transposed().unwrap();
    assert_eq!(t.m().nvals(), 0);
    assert_eq!(t.dm().nvals(), 0);
    assert_eq!(t.dp().nvals(), 0);
}

struct Lcg(u64);

impl Lcg {
    fn next(&mut self) -> u64 {
        self.0 = self.0.wrapping_mul(6364136223846793005).wrapping_add(1442695040888963407);
        self.0 >> 33
    }
}

#[test]
fn test_fuzzy() {
    let nrows = 100;
    let ncols = 100;
    let mut a = DeltaMatrix::new(ElementType::Bool, nrows, ncols, true);
    let mut m = SparseMatrix::new(ElementType::Bool, nrows, ncols);
    let mut t = SparseMatrix::new(ElementType::Bool, ncols, nrows);
    let mut rng = Lcg(7);

    let mut additions_i = Vec::with_capacity(10000);
    let mut additions_j = Vec::with_capacity(10000);
    for i in 0..10000 {
        if i < 10 || rng.next() % 100 > 20 {
            let i = rng.next() % nrows;
            let j = rng.next() % ncols;
            a.set_element_bool(i, j);
            m.set_element_bool(true, i, j);
            t.set_element_bool(true, j, i);
            additions_i.push(i);
            additions_j.push(j);
        } else {
            let r = (rng.next() % additions_i.len() as u64) as usize;
            let i = additions_i[r];
            let j = additions_j[r];
            a.remove_element(i, j);
            m.remove_element(i, j);
            t.remove_element(j, i);
        }
    }

    a.wait(true);

    matrix_eq(a.m(), &m);
    matrix_eq(a.transposed().unwrap().m(), &t);
}

#[test]
fn test_export_no_changes() {
    let i = 0;
    let j = 1;
    let mut a = DeltaMatrix::new(ElementType::Bool, 100, 100, false);

    let n = a.export();
    matrix_eq(a.m(), &n);

    a.set_element_bool(i, j);
    a.wait(true);
    let n = a.export();
    matrix_eq(a.m(), &n);
}

#[test]
fn test_export_pending_changes() {
    let mut a = DeltaMatrix::new(ElementType::Bool, 100, 100, false);

    a.set_element_bool(0, 0);
    a.set_element_bool(1, 1);
    a.wait(true);
    a.remove_element(0, 0);
    a.set_element_bool(2, 2);
    let n = a.export();
    a.wait(true);

    matrix_eq(a.m(), &n);
}

#[test]
fn test_copy() {
    let mut a = DeltaMatrix::new(ElementType::Bool, 100, 100, false);
    let mut b = DeltaMatrix::new(ElementType::Bool, 100, 100, false);

    a.set_element_bool(0, 0);
    a.set_element_bool(1, 1);
    a.wait(true);
    a.remove_element(0, 0);
    a.set_element_bool(2, 2);

    b.copy(&a);

    matrix_eq(a.m(), b.m());
    matrix_eq(a.dm(), b.dm());
    matrix_eq(a.dp(), b.dp());
}

#[test]
fn test_mxm() {
    let mut a = DeltaMatrix::new(ElementType::Bool, 100, 100, false);
    let mut b = DeltaMatrix::new(ElementType::Bool, 100, 100, false);
    let mut c = DeltaMatrix::new(ElementType::Bool, 100, 100, false);
    let mut d = DeltaMatrix::new(ElementType::Bool, 100, 100, false);

    a.set_element_bool(0, 1);
    a.set_element_bool(2, 3);
    b.set_element_bool(1, 2);
    b.set_element_bool(3, 4);

    a.wait(true);
    b.wait(true);

    b.remove_element(1, 2);
    b.set_element_bool(1, 3);

    c.mxm(Semiring::AnyPair, &a, &b);

    b.wait(true);

    d.mxm(Semiring::AnyPair, &a, &b);

    matrix_eq(c.m(), d.m());
}

#[test]
fn test_resize() {
    let nrows = 100;
    let ncols = 200;

    let mut a = DeltaMatrix::new(ElementType::Bool, nrows, ncols, true);
    let check = |a: &DeltaMatrix, nrows: u64, ncols: u64| {
        let t = a.transposed().unwrap();
        assert_eq!(a.nrows(), nrows);
        assert_eq!(a.m().nrows(), nrows);
        assert_eq!(a.dp().nrows(), nrows);
        assert_eq!(a.dm().nrows(), nrows);

        assert_eq!(t.nrows(), ncols);
        assert_eq!(t.m().nrows(), ncols);
        assert_eq!(t.dp().nrows(), ncols);
        assert_eq!(t.dm().nrows(), ncols);

        assert_eq!(a.ncols(), ncols);
        assert_eq!(a.m().ncols(), ncols);
        assert_eq!(a.dp().ncols(), ncols);
        assert_eq!(a.dm().ncols(), ncols);

        assert_eq!(t.ncols(), nrows);
        assert_eq!(t.m().ncols(), nrows);
        assert_eq!(t.dp().ncols(), nrows);
        assert_eq!(t.dm().ncols(), nrows);
    };
    check(&a, nrows, ncols);

    let nrows = nrows * 2;
    let ncols = ncols * 2;
    a.resize(nrows, ncols);
    check(&a, nrows, ncols);

    let nrows = nrows / 2;
    let ncols = ncols / 2;
    a.resize(nrows, ncols);
    check(&a, nrows, ncols);
}

#[test]
fn delta_set_remove_set_cycle() {
    let mut a = DeltaMatrix::new(ElementType::Bool, 100, 100, false);
    a.set_element_bool(0, 1);
    a.wait(true);
    a.remove_element(0, 1);
    a.set_element_bool(0, 1);
    assert_eq!(a.nvals(), 1);
    assert_eq!(a.dp().nvals(), 0);
    assert_eq!(a.dm().nvals(), 0);
    assert_eq!(a.m().nvals(), 1);
}

#[test]
fn delta_deletion_materialization() {
    let mut a = DeltaMatrix::new(ElementType::Bool, 100, 100, false);
    a.set_element_bool(0, 1);
    a.wait(true);
    a.remove_element(0, 1);
    a.wait(true);
    assert_eq!(a.m().nvals(), 0);
    assert_eq!(a.dp().nvals(), 0);
    assert_eq!(a.dm().nvals(), 0);
    assert_eq!(a.extract_element_bool(0, 1), None);
}

#[test]
fn transpose_mirror_scenario() {
    let mut a = DeltaMatrix::new(ElementType::Bool, 100, 100, true);
    a.set_element_bool(1, 2);
    assert_eq!(a.extract_element_bool(1, 2), Some(true));
    assert_eq!(a.transposed().unwrap().extract_element_bool(2, 1), Some(true));
    a.remove_element(1, 2);
    assert_eq!(a.extract_element_bool(1, 2), None);
    assert_eq!(a.transposed().unwrap().extract_element_bool(2, 1), None);
}

#[test]
fn logical_view_matches_reference_map() {
    let mut a = DeltaMatrix::new(ElementType::U64, 20, 20, true);
    let mut reference: BTreeMap<(u64, u64), u64> = BTreeMap::new();
    let mut rng = Lcg(11);
    for step in 0..2000u64 {
        let i = rng.next() % 20;
        let j = rng.next() % 20;
        match rng.next() % 4 {
            0 | 1 => {
                a.set_element_u64(step, i, j);
                reference.insert((i, j), step);
            }
            2 => {
                a.remove_element(i, j);
                reference.remove(&(i, j));
            }
            _ => a.wait(rng.next() % 2 == 0),
        }
        for x in 0..20 {
            for y in 0..20 {
                assert_eq!(a.extract_element_u64(x, y), reference.get(&(x, y)).copied());
                assert_eq!(
                    a.extract_element_u64(x, y).is_some(),
                    a.transposed().unwrap().extract_element_bool(y, x).is_some()
                );
            }
        }
        assert_eq!(a.nvals(), reference.len() as u64);
    }
}

#[test]
fn flush_keeps_logical_view() {
    let mut a = DeltaMatrix::new(ElementType::U64, 10, 10, true);
    a.set_element_u64(5, 0, 1);
    a.wait(true);
    a.set_element_u64(6, 2, 3);
    a.remove_element(0, 1);
    a.set_element_u64(7, 4, 4);
    let before = a.export();
    a.wait(true);
    assert_eq!(a.dp().nvals(), 0);
    assert_eq!(a.dm().nvals(), 0);
    assert_eq!(a.transposed().unwrap().dp().nvals(), 0);
    assert_eq!(a.transposed().unwrap().dm().nvals(), 0);
    matrix_eq(a.m(), &before);
    assert_eq!(a.extract_element_u64(2, 3), Some(6));
    assert_eq!(a.extract_element_u64(4, 4), Some(7));
    assert_eq!(a.extract_element_u64(0, 1), None);
}

#[test]
fn set_u64_overwrites_stable_value() {
    let mut a = DeltaMatrix::new(ElementType::U64, 10, 10, false);
    a.set_element_u64(1, 3, 3);
    a.wait(true);
    a.set_element_u64(9, 3, 3);
    assert_eq!(a.extract_element_u64(3, 3), Some(9));
    assert_eq!(a.m().nvals(), 1);
    assert_eq!(a.dp().nvals(), 0);
}

#[test]
fn remove_elements_by_mask() {
    let mut a = DeltaMatrix::new(ElementType::Bool, 10, 10, false);
    a.set_element_bool(0, 0);
    a.set_element_bool(1, 1);
    a.wait(true);
    a.set_element_bool(2, 2);
    let mut mask = SparseMatrix::new(ElementType::Bool, 10, 10);
    mask.set_element_bool(true, 1, 1);
    mask.set_element_bool(true, 2, 2);
    a.remove_elements(&mask);
    assert_eq!(a.nvals(), 1);
    assert_eq!(a.extract_element_bool(0, 0), Some(true));
    assert_eq!(a.extract_element_bool(1, 1), None);
    assert_eq!(a.extract_element_bool(2, 2), None);
}

#[test]
fn element_wise_add_unions() {
    let mut a = DeltaMatrix::new(ElementType::Bool, 10, 10, false);
    let mut b = DeltaMatrix::new(ElementType::Bool, 10, 10, false);
    let mut c = DeltaMatrix::new(ElementType::Bool, 10, 10, false);
    a.set_element_bool(0, 1);
    b.set_element_bool(2, 3);
    b.set_element_bool(0, 1);
    c.element_wise_add(Semiring::AnyPair, &a, &b);
    assert_eq!(c.nvals(), 2);
    assert_eq!(c.extract_element_bool(0, 1), Some(true));
    assert_eq!(c.extract_element_bool(2, 3), Some(true));
}

#[test]
fn mxm_product_values() {
    let mut a = DeltaMatrix::new(ElementType::Bool, 10, 10, false);
    let mut b = DeltaMatrix::new(ElementType::Bool, 10, 10, false);
    let mut c = DeltaMatrix::new(ElementType::Bool, 10, 10, false);
    a.set_element_bool(0, 1);
    b.set_element_bool(1, 5);
    b.set_element_bool(2, 6);
    c.mxm(Semiring::AnyPair, &a, &b);
    assert_eq!(c.nvals(), 1);
    assert_eq!(c.extract_element_bool(0, 5), Some(true));
}

#[test]
fn synchronize_grows_and_flushes() {
    let mut a = DeltaMatrix::new(ElementType::Bool, 10, 10, false);
    a.set_element_bool(1, 1);
    a.synchronize(20, 20);
    assert_eq!(a.nrows(), 20);
    assert_eq!(a.ncols(), 20);
    assert!(!a.is_dirty());
    assert_eq!(a.extract_element_bool(1, 1), Some(true));
}

#[test]
fn synchronize_only_grows() {
    let mut a = DeltaMatrix::new(ElementType::Bool, 10, 10, false);
    a.set_element_bool(0, 7);
    a.synchronize(20, 5);
    assert_eq!(a.nrows(), 20);
    assert_eq!(a.ncols(), 10);
    assert_eq!(a.extract_element_bool(0, 7), Some(true));
    assert!(!a.is_dirty());
}

#[test]
fn non_forced_flush_commits_large_sides_only() {
    let mut a = DeltaMatrix::new(ElementType::Bool, 100, 100, false);
    a.set_element_bool(0, 1);
    a.wait(false);
    assert_eq!(a.dp().nvals(), 1);
    assert_eq!(a.m().nvals(), 0);
    assert!(!a.is_dirty());
}

#[test]
fn u64_set_writes_through_pending_deletion() {
    let mut a = DeltaMatrix::new(ElementType::U64, 10, 10, false);
    a.set_element_u64(3, 1, 1);
    a.wait(true);
    a.remove_element(1, 1);
    assert_eq!(a.dm().nvals(), 1);
    a.set_element_u64(4, 1, 1);
    assert_eq!(a.dm().nvals(), 0);
    assert_eq!(a.dp().nvals(), 0);
    assert_eq!(a.m().extract_element_u64(1, 1), Some(4));
}

#[test]
fn threshold_is_configurable() {
    let mut a = DeltaMatrix::new(ElementType::Bool, 10, 10, true);
    assert_eq!(a.max_pending_changes(), 10000);
    a.set_max_pending_changes(0);
    assert_eq!(a.max_pending_changes(), 0);
    a.set_element_bool(1, 2);
    a.wait(false);
    assert_eq!(a.dp().nvals(), 0);
    assert_eq!(a.m().nvals(), 1);
    assert_eq!(a.transposed().unwrap().m().nvals(), 1);
}
