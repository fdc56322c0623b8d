//! Construction, inspection, element access and fill constructors.

use matten::limits::{MAX_ELEMENTS, MAX_NDIM};
use matten::{MattenError, MattenLimits, Tensor};

#[test]
fn constructs_and_inspects() {
    let t = Tensor::new(vec![1.0, 2.0, 3.0, 4.0], &[2, 2]);
    assert_eq!(t.shape(), &[2, 2]);
    assert_eq!(t.len(), 4);
    assert_eq!(t.ndim(), 2);
    assert_eq!(t.as_slice(), &[1.0, 2.0, 3.0, 4.0]);
}

#[test]
fn scalar_constructor() {
    let s = Tensor::scalar(42.0);
    assert!(s.shape().is_empty());
    assert_eq!(s.len(), 1);
    assert_eq!(s.ndim(), 0);
    assert!(s.is_scalar());
    assert_eq!(s.as_slice(), &[42.0]);
}

#[test]
fn shape_predicates() {
    assert!(Tensor::scalar(1.0).is_scalar());
    assert!(Tensor::new(vec![1.0, 2.0], &[2]).is_vector());
    assert!(Tensor::new(vec![1.0, 2.0, 3.0, 4.0], &[2, 2]).is_matrix());
    let t3 = Tensor::new(vec![0.0; 8], &[2, 2, 2]);
    assert!(!t3.is_scalar());
    assert!(!t3.is_vector());
    assert!(!t3.is_matrix());
}

#[test]
fn is_empty_true_on_sliced_empty_tensor() {
    let t = Tensor::new(vec![1.0, 2.0, 3.0, 4.0, 5.0, 6.0], &[2, 3])
        .slice()
        .range(0..0)
        .all()
        .build()
        .unwrap();
    assert_eq!(t.shape(), &[0, 3]);
    assert_eq!(t.len(), 0);
    assert!(t.is_empty());
}

#[test]
fn is_empty_false_on_scalar() {
    // A rank-0 scalar has len() == 1 and is therefore never empty.
    assert!(!Tensor::scalar(0.0).is_empty());
}

#[test]
fn is_empty_false_on_ordinary_tensor() {
    assert!(!Tensor::new(vec![1.0, 2.0], &[2]).is_empty());
    assert!(!Tensor::new(vec![1.0, 2.0, 3.0, 4.0], &[2, 2]).is_empty());
}

#[test]
fn to_vec_returns_owned_copy() {
    let t = Tensor::new(vec![1.0, 2.0, 3.0], &[3]);
    assert_eq!(t.to_vec(), vec![1.0, 2.0, 3.0]);
    assert_eq!(t.as_slice(), &[1.0, 2.0, 3.0]);
}

#[test]
fn clone_and_partial_eq() {
    let a = Tensor::new(vec![1.0, 2.0, 3.0, 4.0], &[2, 2]);
    let b = a.clone();
    assert_eq!(a, b);
    assert_ne!(a, Tensor::new(vec![1.0, 2.0, 3.0, 5.0], &[2, 2]));
    assert_ne!(a, Tensor::new(vec![1.0, 2.0, 3.0, 4.0], &[4]));
}

#[test]
fn try_new_rejects_length_mismatch() {
    let err = Tensor::try_new(vec![1.0, 2.0, 3.0], &[2, 2]).unwrap_err();
    assert!(matches!(err, MattenError::Shape { .. }));
}

#[test]
fn try_new_rejects_shape_overflow() {
    let err = Tensor::<f64>::try_new(vec![], &[usize::MAX, usize::MAX]).unwrap_err();
    assert!(matches!(err, MattenError::Allocation { .. }));
}

#[test]
fn accepts_zero_dim() {
    // A zero-sized dimension is accepted.
    let a = Tensor::<f64>::try_new(vec![], &[0]).unwrap();
    assert_eq!(a.shape(), &[0]);
    assert_eq!(a.len(), 0);
    assert!(a.is_empty());

    let b = Tensor::<f64>::try_new(vec![], &[2, 0]).unwrap();
    assert_eq!(b.shape(), &[2, 0]);
    assert_eq!(b.len(), 0);
    assert!(b.is_empty());
}

#[test]
fn new_accepts_zero_dim() {
    // The panicking form accepts a zero-sized shape too.
    let t: Tensor<f64> = Tensor::new(vec![], &[0]);
    assert_eq!(t.shape(), &[0]);
    assert!(t.is_empty());
}

#[test]
fn rejects_rank_over_limit() {
    let shape = [1usize; 9]; // rank 9 > MAX_NDIM(8)
    let err = Tensor::try_new(vec![1.0], &shape).unwrap_err();
    assert!(matches!(err, MattenError::Shape { .. }));
}

#[test]
fn accepts_rank_8() {
    let shape = [1usize; 8];
    let t = Tensor::new(vec![1.0], &shape);
    assert_eq!(t.ndim(), 8);
    assert_eq!(t.len(), 1);
}

#[test]
fn full_fills_with_value() {
    let t = Tensor::full(&[3, 2], -5.0);
    assert_eq!(t.shape(), &[3, 2]);
    assert!(t.as_slice().iter().all(|&v| v == -5.0));
}

#[test]
fn from_vec_creates_1d() {
    let t = Tensor::from_vec(vec![10.0, 20.0, 30.0]);
    assert_eq!(t.shape(), &[3]);
    assert!(t.is_vector());
    assert_eq!(t.as_slice(), &[10.0, 20.0, 30.0]);
}

#[test]
fn into_vec_consumes_tensor() {
    let t = Tensor::new(vec![1.0, 2.0, 3.0, 4.0], &[2, 2]);
    let v = t.into_vec();
    assert_eq!(v, vec![1.0, 2.0, 3.0, 4.0]);
}

#[test]
fn get_flat_in_bounds() {
    let t = Tensor::new(vec![1.0, 2.0, 3.0, 4.0], &[2, 2]);
    assert_eq!(t.get_flat(0), Some(1.0));
    assert_eq!(t.get_flat(1), Some(2.0));
    assert_eq!(t.get_flat(3), Some(4.0));
}

#[test]
fn get_flat_out_of_bounds_is_none() {
    let t = Tensor::new(vec![1.0, 2.0, 3.0, 4.0], &[2, 2]);
    assert_eq!(t.get_flat(4), None);
    assert_eq!(t.get_flat(100), None);
}

#[test]
fn get_flat_matches_as_slice_order() {
    let t = Tensor::new(vec![10.0, 20.0, 30.0], &[3]);
    for (i, &v) in t.as_slice().iter().enumerate() {
        assert_eq!(t.get_flat(i), Some(v));
    }
}

#[test]
fn get_mut_writes_land_in_place() {
    let mut t = Tensor::new(vec![1.0, 2.0, 3.0, 4.0], &[2, 2]);
    *t.get_mut(&[0, 1]).unwrap() += 1.0;
    assert_eq!(t.get(&[0, 1]), Some(3.0));
    assert_eq!(t.as_slice(), &[1.0, 3.0, 3.0, 4.0]);
}

#[test]
fn get_flat_mut_writes_land_in_place() {
    let mut t = Tensor::new(vec![1.0, 2.0, 3.0, 4.0], &[2, 2]);
    *t.get_flat_mut(1).unwrap() += 100.0;
    assert_eq!(t.get_flat(1), Some(102.0));
    assert_eq!(t.as_slice(), &[1.0, 102.0, 3.0, 4.0]);
}

#[test]
fn get_mut_out_of_range_is_none_and_leaves_tensor_unchanged() {
    let mut t = Tensor::new(vec![1.0, 2.0, 3.0, 4.0], &[2, 2]);
    assert_eq!(t.get_mut(&[5, 0]), None);
    assert_eq!(t.get_mut(&[0]), None); // wrong rank
    assert_eq!(t.as_slice(), &[1.0, 2.0, 3.0, 4.0]);
}

#[test]
fn get_flat_mut_out_of_range_is_none_and_leaves_tensor_unchanged() {
    let mut t = Tensor::new(vec![1.0, 2.0, 3.0, 4.0], &[2, 2]);
    assert_eq!(t.get_flat_mut(99), None);
    assert_eq!(t.as_slice(), &[1.0, 2.0, 3.0, 4.0]);
}

#[test]
fn get_mut_and_get_flat_mut_agree_on_a_non_square_tensor() {
    // [2, 3]: [[0,1,2],[3,4,5]] -- row-major flat index r*3+c
    let mut t = Tensor::new((0..6).map(|x| x as f64).collect(), &[2, 3]);
    *t.get_mut(&[1, 2]).unwrap() = 99.0; // flat index 1*3+2 = 5
    assert_eq!(t.get_flat(5), Some(99.0));

    *t.get_flat_mut(2).unwrap() = 77.0; // coord [0, 2]
    assert_eq!(t.get(&[0, 2]), Some(77.0));
}

#[test]
fn try_full_success() {
    let t = Tensor::try_full(&[2, 2], 7.0).unwrap();
    assert_eq!(t.as_slice(), &[7.0f64; 4]);
}

#[test]
fn try_ones_and_try_full_accept_zero_dim() {
    // Fill constructors accept a zero-sized result.
    let ones = Tensor::try_full(&[0, 3], 1.0).unwrap();
    assert_eq!(ones.shape(), &[0, 3]);
    assert!(ones.is_empty());

    let full = Tensor::try_full(&[3, 0], 7.0).unwrap();
    assert_eq!(full.shape(), &[3, 0]);
    assert!(full.is_empty());
}

#[test]
fn try_full_element_budget_exceeded() {
    let limits = MattenLimits {
        max_dimensions: 8,
        max_elements: 10,
        max_parse_bytes: 1024,
    };
    let err = Tensor::try_full_with_limits(&[100], 0.0, &limits).unwrap_err();
    assert!(matches!(err, MattenError::Allocation { .. }));
}

#[test]
fn mattan_limits_default_absorbs_constants() {
    let lim = MattenLimits::default();
    assert_eq!(lim.max_dimensions, MAX_NDIM);
    assert_eq!(lim.max_elements, MAX_ELEMENTS);
}

#[test]
fn mutating_a_numeric_slice_leaves_its_source_unchanged() {
    let source = Tensor::new((0..6).map(|x| x as f64).collect(), &[2, 3]);
    let mut slice = source.slice().index(0).all().build().unwrap();
    *slice.get_mut(&[1]).unwrap() = 999.0;
    assert_eq!(slice.as_slice(), &[0.0, 999.0, 2.0]);
    assert_eq!(source.as_slice(), &[0.0, 1.0, 2.0, 3.0, 4.0, 5.0]);
}
