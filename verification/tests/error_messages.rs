//! The exact errors of the checked constructors and shape operations.

use matten::math::{check_axis, matmul_plan, AxisReduction};
use matten::shape::{checked_shape_len, validate_shape};
use matten::{MattenError, MattenLimits, Tensor};

fn shape_parts(e: MattenError) -> (&'static str, String) {
    match e {
        MattenError::Shape { operation, message } => (operation, message),
        other => panic!("expected a shape error, got {other:?}"),
    }
}

fn allocation_parts(e: MattenError) -> (usize, String) {
    match e {
        MattenError::Allocation { requested_elements, message } => (requested_elements, message),
        other => panic!("expected an allocation error, got {other:?}"),
    }
}

#[test]
fn rank_above_the_limit_names_rank_and_shape() {
    let e = validate_shape(&[1, 1, 1, 1, 1, 1, 1, 1, 1], "try_new").unwrap_err();
    let (op, m) = shape_parts(e);
    assert_eq!(op, "try_new");
    assert_eq!(
        m,
        "rank 9 exceeds the maximum supported rank of 8 (shape [1, 1, 1, 1, 1, 1, 1, 1, 1])"
    );
}

#[test]
fn first_oversized_dimension_is_reported() {
    let e = checked_shape_len(&[2, 50, 70], "probe", 10).unwrap_err();
    let (n, m) = allocation_parts(e);
    assert_eq!(n, 50);
    assert_eq!(
        m,
        "dimension 50 in shape [2, 50, 70] exceeds the maximum supported single-dimension size of 10 in probe"
    );
}

#[test]
fn overflowing_count_is_reported() {
    let big = usize::MAX / 16;
    let e = checked_shape_len(&[big, big], "probe", usize::MAX).unwrap_err();
    let (n, m) = allocation_parts(e);
    assert_eq!(n, usize::MAX);
    assert_eq!(
        m,
        format!("shape [{big}, {big}] overflows usize when computing the element count in probe")
    );
}

#[test]
fn element_budget_message() {
    let e = MattenLimits::strict().check_shape(&[40, 40], "try_full").unwrap_err();
    let (n, m) = allocation_parts(e);
    assert_eq!(n, 1600);
    assert_eq!(
        m,
        "try_full requested 1600 elements, exceeding the limit of 1024 (MattenLimits::max_elements); use smaller shapes"
    );
}

#[test]
fn length_mismatch_in_try_new() {
    let e = Tensor::try_new(vec![1, 2, 3], &[2, 2]).unwrap_err();
    let (op, m) = shape_parts(e);
    assert_eq!(op, "try_new");
    assert_eq!(m, "data length 3 does not match shape [2, 2], which requires 4 elements");
}

#[test]
fn ragged_and_empty_rows() {
    let (_, m) = shape_parts(Tensor::try_from_rows(vec![vec![1, 2], vec![3]]).unwrap_err());
    assert_eq!(m, "ragged rows: row 0 has 2 columns but row 1 has 1");
    let (_, m) = shape_parts(Tensor::try_from_rows(vec![vec![1, 2], vec![]]).unwrap_err());
    assert_eq!(m, "row 1 is empty; zero-length rows are not supported");
    let (_, m) = shape_parts(Tensor::<i32>::try_from_rows(vec![]).unwrap_err());
    assert_eq!(m, "cannot build a tensor from an empty list of rows");
}

#[test]
fn axis_out_of_range() {
    let (op, m) = shape_parts(check_axis(2, 5, "sum_axis").unwrap_err());
    assert_eq!(op, "sum_axis");
    assert_eq!(m, "axis 5 is out of range for a rank-2 tensor");
    assert!(AxisReduction::new(&[2, 3], 2, "mean_axis").is_err());
}

#[test]
fn matmul_mismatch_messages() {
    let (_, m) = shape_parts(matmul_plan(&[2, 3], &[4, 5], "matmul").unwrap_err());
    assert_eq!(m, "left columns (3) must equal right rows (4)");
    let (_, m) = shape_parts(matmul_plan(&[3], &[4], "dot").unwrap_err());
    assert_eq!(m, "dot: vector lengths must match (left 3, right 4)");
    let (_, m) = shape_parts(matmul_plan(&[1, 1, 1], &[1], "matmul").unwrap_err());
    assert_eq!(
        m,
        "unsupported rank combination (left rank 3, right rank 1); supported: [n]x[n], [m,n]x[n], [n]x[n,p], [m,n]x[n,p]"
    );
}

#[test]
fn concatenate_reports_the_first_disagreeing_input() {
    let a = Tensor::new(vec![1, 2, 3, 4], &[2, 2]);
    let b = Tensor::new(vec![1, 2, 3, 4, 5, 6], &[3, 2]);
    let c = Tensor::new(vec![1, 2, 3], &[1, 3]);
    let (_, m) = shape_parts(Tensor::try_concatenate(&[&a, &b, &c], 0).unwrap_err());
    assert_eq!(m, "tensor 2 has size 3 at axis 1 but tensor 0 has 2; all non-concatenation axes must match");
    let v = Tensor::new(vec![1, 2], &[2]);
    let (_, m) = shape_parts(Tensor::try_concatenate(&[&a, &v], 0).unwrap_err());
    assert_eq!(m, "tensor 1 has rank 1 but tensor 0 has rank 2; concatenate requires equal ranks");
}

#[test]
fn stack_reports_the_first_other_shape() {
    let a = Tensor::new(vec![1, 2], &[2]);
    let b = Tensor::new(vec![1, 2, 3], &[3]);
    let (_, m) = shape_parts(Tensor::try_stack(&[&a, &a, &b], 0).unwrap_err());
    assert_eq!(m, "tensor 2 has shape [3] but tensor 0 has shape [2]; stack requires identical shapes");
}

#[test]
fn tile_and_repeat_errors() {
    let t = Tensor::new(vec![1, 2], &[2]);
    let (_, m) = shape_parts(t.try_tile(&[]).unwrap_err());
    assert_eq!(m, "tile requires at least one repetition factor; reps must not be empty");
    let (n, m) = allocation_parts(t.try_tile(&[usize::MAX]).unwrap_err());
    assert_eq!(n, usize::MAX);
    assert_eq!(m, format!("tile output shape overflowed for dim 2 x rep {}", usize::MAX));
    let (n, m) = allocation_parts(t.try_repeat(usize::MAX).unwrap_err());
    assert_eq!(n, usize::MAX);
    assert_eq!(
        m,
        format!("repeat output length overflowed for 2 elements repeated {} times", usize::MAX)
    );
}

#[test]
fn expand_dims_out_of_range() {
    let t = Tensor::new(vec![1, 2], &[2]);
    match t.try_expand_dims(3).unwrap_err() {
        MattenError::InvalidArgument { operation, argument, message } => {
            assert_eq!(operation, "expand_dims");
            assert_eq!(argument, "axis");
            assert_eq!(message, "axis 3 is out of range for a rank-1 tensor (valid 0..=1)");
        }
        other => panic!("expected an invalid argument error, got {other:?}"),
    }
}

#[test]
fn reshape_count_mismatch() {
    let t = Tensor::new(vec![1, 2, 3, 4, 5, 6], &[2, 3]);
    let (op, m) = shape_parts(t.try_reshape(&[4, 2]).unwrap_err());
    assert_eq!(op, "reshape");
    assert_eq!(m, "cannot reshape tensor with 6 elements into shape [4, 2] requiring 8 elements");
}
