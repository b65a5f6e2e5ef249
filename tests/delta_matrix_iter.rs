use falkordb::delta_matrix::DeltaMatrix;
use falkordb::delta_matrix_iter::DeltaMatrixIter;
use falkordb::sparse_matrix::ElementType;

#[test]
fn test_attach() {
    let a = DeltaMatrix::new(ElementType::Bool, 100, 100, false);
    let mut it = DeltaMatrixIter::new(&a);
    it.attach(&a);

    assert!(it.is_attached());

    it.detach();

    assert!(!it.is_attached());
}

#[test]
fn test_next() {
    let mut a = DeltaMatrix::new(ElementType::Bool, 100, 100, false);

    a.set_element_bool(1, 2);
    a.wait(true);
    a.remove_element(1, 2);
    a.set_element_bool(2, 3);

    let mut it = DeltaMatrixIter::new(&a);

    assert!(it.is_attached());
    assert_eq!(it.next_bool(), Ok(Some((2u64, 3u64))));
    assert_eq!(it.next_bool(), Ok(None));
    assert_eq!(it.next_bool(), Ok(None));

    it.detach();
    assert_eq!(it.next_bool(), Err(()));
}

#[test]
fn iterates_row_range_in_order() {
    let mut a = DeltaMatrix::new(ElementType::U64, 10, 10, false);
    a.set_element_u64(7, 3, 1);
    a.wait(true);
    a.set_element_u64(8, 2, 5);
    a.set_element_u64(9, 3, 0);
    a.set_element_u64(4, 5, 5);
    let mut it = DeltaMatrixIter::new_range(&a, 2, 3);
    assert_eq!(it.next_u64(), Ok(Some((2, 5, 8))));
    assert_eq!(it.next_u64(), Ok(Some((3, 0, 9))));
    assert_eq!(it.next_u64(), Ok(Some((3, 1, 7))));
    assert_eq!(it.next_u64(), Ok(None));
}

#[test]
fn iterate_row_and_reset() {
    let mut a = DeltaMatrix::new(ElementType::Bool, 10, 10, false);
    a.set_element_bool(1, 1);
    a.set_element_bool(4, 2);
    a.set_element_bool(4, 7);
    let mut it = DeltaMatrixIter::new(&a);
    it.iterate_row(4);
    assert_eq!(it.next_bool(), Ok(Some((4, 2))));
    it.reset();
    assert_eq!(it.next_bool(), Ok(Some((4, 2))));
    assert_eq!(it.next_bool(), Ok(Some((4, 7))));
    assert_eq!(it.next_bool(), Ok(None));
    it.iterate_range(0, 3);
    assert_eq!(it.next_bool(), Ok(Some((1, 1))));
    assert_eq!(it.next_bool(), Ok(None));
}
