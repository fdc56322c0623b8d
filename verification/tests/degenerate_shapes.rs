//! Shapes whose product is zero but whose dimensions are unbounded.

use matten::{MattenError, Tensor};

#[test]
fn t1_degenerate_shape_rejected_from_try_new() {
    let result = Tensor::<f64>::try_new(vec![], &[400_000_000_000, 0]);
    assert!(
        matches!(result, Err(MattenError::Allocation { .. })),
        "expected an Allocation error, got {result:?}"
    );
}

#[test]
fn t5_slice_index_usize_max_errors_instead_of_wrapping() {
    let t = Tensor::new(vec![1.0, 2.0, 3.0, 4.0, 5.0, 6.0], &[2, 3]);

    let wrapped = t.slice().index(usize::MAX).all().build();
    assert!(
        matches!(wrapped, Err(MattenError::Slice { .. })),
        "expected an out-of-range Slice error, got {wrapped:?}"
    );

    let out_of_range = t.slice().index(9).all().build();
    assert!(matches!(out_of_range, Err(MattenError::Slice { .. })));

    let ordinary = t.slice().index(1).all().build().unwrap();
    assert_eq!(ordinary.shape(), &[3]);
    assert_eq!(ordinary.as_slice(), &[4.0, 5.0, 6.0]);
}
