//! Dynamic tensors over shared storage.

use matten::dynamic::DynamicTensor;

#[test]
fn from_vec_reads_back_every_element() {
    let t = DynamicTensor::from_vec(vec!["a", "b", "c", "d"], vec![2, 2]);
    assert_eq!(t.len(), 4);
    assert_eq!(t.shape(), &[2, 2]);
    assert_eq!(t.get_flat(0), Some(&"a"));
    assert_eq!(t.get_flat(3), Some(&"d"));
    assert_eq!(t.get_flat(4), None);
    assert_eq!(t.to_vec(), vec!["a", "b", "c", "d"]);
}

#[test]
fn a_fresh_tensor_owns_its_storage_and_a_reshape_shares_it() {
    let t = DynamicTensor::from_vec(vec![1, 2, 3, 4, 5, 6], vec![2, 3]);
    assert!(t.is_unique());
    let r = t.reshape(vec![3, 2]).unwrap();
    assert!(!t.is_unique());
    assert!(!r.is_unique());
    assert_eq!(r.shape(), &[3, 2]);
    assert_eq!(r.to_vec(), t.to_vec());
}

#[test]
fn reshape_refuses_a_different_element_count() {
    let t = DynamicTensor::from_vec(vec![1, 2, 3, 4, 5, 6], vec![2, 3]);
    assert!(t.reshape(vec![4, 2]).is_none());
    assert!(t.reshape(vec![usize::MAX, 2]).is_none());
    assert!(t.reshape(vec![6]).is_some());
}

#[test]
fn reshape_to_a_zero_sized_shape_with_an_overflowing_prefix() {
    let empty: DynamicTensor<i32> = DynamicTensor::from_vec(vec![], vec![0]);
    let r = empty.reshape(vec![usize::MAX, usize::MAX, 0]).unwrap();
    assert_eq!(r.len(), 0);
    assert_eq!(r.shape(), &[usize::MAX, usize::MAX, 0]);
    let full = DynamicTensor::from_vec(vec![1], vec![1]);
    assert!(full.reshape(vec![usize::MAX, usize::MAX, 0]).is_none());
}

#[test]
fn slices_compose_over_the_first_storage() {
    let t = DynamicTensor::from_vec((0..6).collect::<Vec<i32>>(), vec![2, 3]);
    let row1 = t.slice_indices(vec![3, 4, 5], vec![3]);
    assert_eq!(row1.to_vec(), vec![3, 4, 5]);
    let ends = row1.slice_indices(vec![0, 2], vec![2]);
    assert_eq!(ends.to_vec(), vec![3, 5]);
    assert_eq!(ends.get_flat(1), Some(&5));
    assert!(!t.is_unique());
}

#[test]
fn materialize_copies_a_slice_into_its_own_storage() {
    let t = DynamicTensor::from_vec(vec![10, 20, 30, 40], vec![4]);
    let mut s = t.slice_indices(vec![3, 1], vec![2]);
    assert!(!s.is_unique());
    s.materialize();
    assert!(s.is_unique());
    assert_eq!(s.to_vec(), vec![40, 20]);
    assert_eq!(s.shape(), &[2]);
    assert_eq!(t.to_vec(), vec![10, 20, 30, 40]);
}

#[test]
fn materialize_on_an_unshared_contiguous_tensor_keeps_it() {
    let mut t = DynamicTensor::from_vec(vec![1, 2, 3], vec![3]);
    t.materialize();
    assert!(t.is_unique());
    assert_eq!(t.to_vec(), vec![1, 2, 3]);
}
