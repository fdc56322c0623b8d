//! Randomised checks of the library's invariants, over shapes that reach
//! the limits the library enforces.

use matten::limits::{MAX_ELEMENTS, MAX_NDIM, MAX_REPRESENTABLE_DIMENSION};
use matten::math::{matmul_plan, AxisReduction};
use matten::shape::{coord_to_flat, flat_to_coord};
use matten::{MattenError, MattenLimits, Tensor};
use proptest::collection;
use proptest::strategy::{Just, Strategy, Union};
use proptest::test_runner::TestRunner;

fn dim() -> impl Strategy<Value = usize> {
    Union::new_weighted(vec![
        (6, (0usize..6).boxed()),
        (1, Just(MAX_REPRESENTABLE_DIMENSION + 1).boxed()),
        (1, Just(MAX_ELEMENTS + 1).boxed()),
        (1, Just(usize::MAX).boxed()),
        (1, Just(usize::MAX / 2).boxed()),
    ])
}

fn checked_product(shape: &[usize]) -> Option<usize> {
    shape.iter().try_fold(1usize, |acc, &d| acc.checked_mul(d))
}

#[test]
fn every_filled_tensor_holds_its_shape_product() {
    let mut runner = TestRunner::default();
    runner
        .run(&collection::vec(dim(), 0..=(MAX_NDIM + 1)), |shp| {
            match Tensor::try_full(&shp, 0u8) {
                Ok(t) => {
                    assert_eq!(Some(t.as_slice().len()), checked_product(&shp));
                    assert_eq!(t.shape(), shp.as_slice());
                }
                Err(_) => {
                    let rank_too_big = shp.len() > MAX_NDIM;
                    let dim_too_big = shp.iter().any(|&d| d > MAX_ELEMENTS);
                    let too_many = checked_product(&shp).is_none_or(|p| p > MAX_ELEMENTS);
                    assert!(rank_too_big || dim_too_big || too_many, "rejected {shp:?}");
                }
            }
            Ok(())
        })
        .unwrap();
}

#[test]
fn index_round_trip_on_small_shapes() {
    let mut runner = TestRunner::default();
    let shapes = collection::vec(0usize..5, 0..=5);
    runner
        .run(&(shapes, 0usize..usize::MAX), |(shp, raw)| {
            let len: usize = shp.iter().product();
            if len > 0 {
                let flat = raw % len;
                let coord = flat_to_coord(flat, &shp);
                assert_eq!(coord.len(), shp.len());
                assert_eq!(coord_to_flat(&coord, &shp), Some(flat));
            }
            Ok(())
        })
        .unwrap();
}

#[test]
fn reducing_over_a_zero_axis_never_yields_a_mismatched_shape() {
    let mut runner = TestRunner::default();
    let generous = MattenLimits { max_elements: usize::MAX / 16, ..MattenLimits::default() };
    let dims = collection::vec(Union::new_weighted(vec![(3, (1usize..4).boxed()), (1, Just(100_000usize).boxed())]), 1..=MAX_NDIM);
    runner
        .run(&(dims, 0usize..MAX_NDIM), |(mut shape, raw_axis)| {
            let axis = raw_axis % shape.len();
            shape[axis] = 0;
            if Tensor::try_full_with_limits(&shape, 0u8, &generous).is_err() {
                return Ok(());
            }
            match AxisReduction::new(&shape, axis, "sum_axis") {
                Ok(plan) => {
                    let expected: usize = plan.out_shape().iter().product();
                    assert_eq!(plan.out_len(), expected);
                }
                Err(e) => assert!(matches!(e, MattenError::Allocation { .. })),
            }
            Ok(())
        })
        .unwrap();
}

#[test]
fn a_matrix_product_plan_matches_its_operands() {
    let mut runner = TestRunner::default();
    let extreme = || Union::new_weighted(vec![(3, (0usize..4).boxed()), (1, Just(1usize << 20).boxed())]);
    runner
        .run(&(extreme(), 0usize..4, extreme()), |(m, n, p)| {
            match matmul_plan(&[m, n], &[n, p], "matmul") {
                Ok(plan) => {
                    assert_eq!(plan.out_shape(), vec![m, p]);
                    assert_eq!((plan.m, plan.n, plan.p), (m, n, p));
                }
                Err(e) => assert!(matches!(e, MattenError::Allocation { .. })),
            }
            Ok(())
        })
        .unwrap();
}
