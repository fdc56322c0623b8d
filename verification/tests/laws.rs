//! Concrete instances of the library's laws.

use matten::broadcast::{broadcast_shape, BroadcastCtx};
use matten::shape::{coord_to_flat, flat_to_coord};
use matten::Tensor;

#[test]
fn broadcasting_is_symmetric_on_examples() {
    let pairs: &[(&[usize], &[usize])] = &[
        (&[3, 1], &[1, 4]),
        (&[4], &[3, 4]),
        (&[], &[2, 3]),
        (&[2, 1, 5], &[7, 1]),
    ];
    for &(a, b) in pairs {
        assert_eq!(broadcast_shape(a, b).unwrap(), broadcast_shape(b, a).unwrap());
    }
    assert!(broadcast_shape(&[2, 3], &[4]).is_err());
    assert!(broadcast_shape(&[4], &[2, 3]).is_err());
}

#[test]
fn broadcasting_a_shape_with_itself_is_the_identity_mapping() {
    let shape = [2usize, 3, 4];
    assert_eq!(broadcast_shape(&shape, &shape).unwrap(), shape.to_vec());
    let ctx = BroadcastCtx::new(&shape, &shape, &shape).unwrap();
    assert_eq!(ctx.result_len(), 24);
    for i in 0..24 {
        assert_eq!(ctx.left_flat(i), i);
        assert_eq!(ctx.right_flat(i), i);
    }
}

#[test]
fn swapping_the_same_axes_twice_is_the_identity() {
    let t = Tensor::new((0..24).map(f64::from).collect(), &[2, 3, 4]);
    let once = t.swap_axes(0, 2);
    assert_eq!(once.shape(), &[4, 3, 2]);
    assert_ne!(once, t);
    assert_eq!(once.swap_axes(0, 2), t);
    assert_eq!(t.swap_axes(1, 2).swap_axes(1, 2), t);
}

#[test]
fn transposing_twice_is_the_identity_on_rank_3() {
    let t = Tensor::new((0..24).map(f64::from).collect(), &[2, 3, 4]);
    assert_eq!(t.transpose().transpose(), t);
}

#[test]
fn squeeze_after_expand_dims_equals_squeeze() {
    let t = Tensor::new((0..6).map(f64::from).collect(), &[1, 2, 1, 3]);
    for axis in 0..=4 {
        assert_eq!(t.expand_dims(axis).squeeze(), t.squeeze());
    }
    assert_eq!(t.squeeze().shape(), &[2, 3]);
}

#[test]
fn reshape_there_and_back_is_the_identity() {
    let t = Tensor::new((0..12).map(f64::from).collect(), &[3, 4]);
    let there = t.reshape(&[2, 2, 3]);
    assert_eq!(there.as_slice(), t.as_slice());
    assert_eq!(there.reshape(&[3, 4]), t);
}

#[test]
fn index_round_trip_both_ways_on_a_rank_3_shape() {
    let shape = [3usize, 1, 4];
    for flat in 0..12 {
        let coord = flat_to_coord(flat, &shape);
        assert_eq!(coord_to_flat(&coord, &shape), Some(flat));
    }
    for a in 0..3 {
        for c in 0..4 {
            let flat = coord_to_flat(&[a, 0, c], &shape).unwrap();
            assert_eq!(flat, a * 4 + c);
            assert_eq!(flat_to_coord(flat, &shape), vec![a, 0, c]);
        }
    }
}

#[test]
fn every_constructed_tensor_holds_its_shape_product() {
    let tensors: Vec<Tensor<f64>> = vec![
        Tensor::scalar(1.0),
        Tensor::from_vec(vec![1.0, 2.0, 3.0]),
        Tensor::full(&[2, 0, 3], 5.0),
        Tensor::full(&[2, 3], 5.0),
        Tensor::new(vec![1.0, 2.0, 3.0, 4.0], &[2, 2]).transpose(),
        Tensor::from_vec(vec![1.0, 2.0]).tile(&[3]),
    ];
    for t in &tensors {
        let product: usize = t.shape().iter().product();
        assert_eq!(t.len(), product);
        assert_eq!(t.as_slice().len(), product);
    }
}

#[test]
fn concatenating_or_stacking_one_tensor() {
    let t = Tensor::new((0..6).map(f64::from).collect(), &[2, 3]);
    for axis in 0..2 {
        assert_eq!(Tensor::concatenate(&[&t], axis), t);
    }
    for axis in 0..=2 {
        assert_eq!(Tensor::stack(&[&t], axis), t.expand_dims(axis));
    }
}

#[test]
fn repeating_once_and_tiling_by_ones() {
    let t = Tensor::new((0..6).map(f64::from).collect(), &[2, 3]);
    assert_eq!(t.repeat_axis(1, 0), t);
    assert_eq!(t.repeat_axis(1, 1), t);
    assert_eq!(t.repeat(1), t.flatten());
    assert_eq!(t.tile(&[1]), t);
    assert_eq!(t.tile(&[1, 1]), t);
}
