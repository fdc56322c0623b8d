//! Shape composition: joining, repeating, and gridding tensors.
//!
//! [`Tensor::concatenate`] joins tensors along an existing axis; all inputs
//! share the rank and every non-concatenation dimension, and the output axis
//! is the sum of the inputs'. [`Tensor::stack`] joins identically shaped
//! tensors along a new axis. [`Tensor::repeat`] / [`Tensor::repeat_axis`]
//! repeat elements; [`Tensor::tile`] repeats the whole tensor.
//! [`Tensor::meshgrid`] builds the two coordinate grids of two vectors.
//! Every output allocation is checked against the default
//! [`MattenLimits`].

use vstd::prelude::*;
use crate::broadcast::shape_to_vec;
use crate::error::{ErrorView, MattenError};
use crate::layout::{
    block, blocks_available, interleave_blocks, join_layout, lemma_block_len, lemma_join_len,
    lemma_product_around_axis, nat_sum, push_block, range_product,
};
use crate::limits::{shape_limit_error, shape_within_limits, MattenLimits};
use crate::math::axis_error;
use crate::shape::{coord_of, flat_index, lemma_product_zero_iff, shape_product};
use crate::tensor::Tensor;
use crate::text::{concat2, decimal, decimal_text, shape_text_spec};

verus! {

// ---------------------------------------------------------------------------
// Model
// ---------------------------------------------------------------------------

/// The element sequences of a list of tensors.
pub open spec fn elems_of<T>(ts: Seq<&Tensor<T>>) -> Seq<Seq<T>> {
    Seq::new(ts.len(), |k: int| ts[k].elems())
}

/// `d` has the rank of `d0` and agrees with it on every axis but `axis`.
pub open spec fn same_except(d: Seq<usize>, d0: Seq<usize>, axis: int) -> bool {
    &&& d.len() == d0.len()
    &&& forall|a: int| 0 <= a < d.len() && a != axis ==> #[trigger] d[a] == d0[a]
}

/// The inputs can be joined along `axis`: at least one input, `axis` is an
/// axis of the first, and every input agrees with the first on rank and on
/// every other axis.
pub open spec fn concat_compatible<T>(ts: Seq<&Tensor<T>>, axis: int) -> bool {
    &&& ts.len() > 0
    &&& 0 <= axis < ts[0].dims().len()
    &&& forall|k: int| 0 <= k < ts.len() ==> #[trigger] same_except(ts[k].dims(), ts[0].dims(), axis)
}

/// The sizes of the inputs along `axis`.
pub open spec fn axis_sizes<T>(ts: Seq<&Tensor<T>>, axis: int) -> Seq<nat> {
    Seq::new(ts.len(), |k: int| ts[k].dims()[axis] as nat)
}

/// The joined axis size.
pub open spec fn concat_total<T>(ts: Seq<&Tensor<T>>, axis: int) -> nat {
    nat_sum(axis_sizes(ts, axis))
}

/// The shape of the joined tensor.
pub open spec fn concat_shape<T>(ts: Seq<&Tensor<T>>, axis: int) -> Seq<usize> {
    ts[0].dims().update(axis, concat_total(ts, axis) as usize)
}

/// `product(d[..axis])`.
pub open spec fn outer_of(d: Seq<usize>, axis: int) -> nat {
    shape_product(d.take(axis))
}

/// `product(d[axis+1..])`.
pub open spec fn inner_of(d: Seq<usize>, axis: int) -> nat {
    shape_product(d.skip(axis + 1))
}

/// Each sequence in `sizes` scaled by `c`.
pub open spec fn scaled(sizes: Seq<nat>, c: nat) -> Seq<nat> {
    Seq::new(sizes.len(), |k: int| sizes[k] * c)
}

/// The elements of the joined tensor: for each outer index, the
/// corresponding `size_k * inner` block of every input in turn.
pub open spec fn concat_elems<T>(ts: Seq<&Tensor<T>>, axis: int) -> Seq<T> {
    join_layout(
        elems_of(ts),
        scaled(axis_sizes(ts, axis), inner_of(ts[0].dims(), axis)),
        outer_of(ts[0].dims(), axis),
    )
}

/// The inputs can be stacked along a new axis at `axis`: at least one
/// input, `axis <= rank`, and all inputs have the first one's shape.
pub open spec fn stack_compatible<T>(ts: Seq<&Tensor<T>>, axis: int) -> bool {
    &&& ts.len() > 0
    &&& 0 <= axis <= ts[0].dims().len()
    &&& forall|k: int| 0 <= k < ts.len() ==> #[trigger] ts[k].dims() == ts[0].dims()
}

/// The shape of the stacked tensor: the input shape with the input count
/// inserted at `axis`.
pub open spec fn stack_shape<T>(ts: Seq<&Tensor<T>>, axis: int) -> Seq<usize> {
    ts[0].dims().insert(axis, ts.len() as usize)
}

/// The elements of the stacked tensor: for each outer index, the
/// corresponding `product(shape[axis..])` block of every input in turn.
pub open spec fn stack_elems<T>(ts: Seq<&Tensor<T>>, axis: int) -> Seq<T> {
    join_layout(
        elems_of(ts),
        Seq::new(ts.len(), |k: int| shape_product(ts[0].dims().skip(axis))),
        outer_of(ts[0].dims(), axis),
    )
}

/// The shape of `repeat_axis(n, axis)`: `shape` with `shape[axis]`
/// multiplied by `n`.
pub open spec fn repeat_axis_shape(shape: Seq<usize>, n: nat, axis: int) -> Seq<usize> {
    shape.update(axis, (shape[axis] * n) as usize)
}

/// `reps` padded on the left with `1`s to length `rank`.
pub open spec fn padded_reps(reps: Seq<usize>, rank: nat) -> Seq<usize> {
    crate::broadcast::padded(reps, rank)
}

/// The shape of `tile(reps)`: each dimension times its (padded) repetition
/// factor.
pub open spec fn tile_shape(shape: Seq<usize>, reps: Seq<usize>) -> Seq<usize> {
    Seq::new(
        shape.len(),
        |k: int| (shape[k] * padded_reps(reps, shape.len())[k]) as usize,
    )
}

/// Each coordinate component reduced modulo the matching dimension.
pub open spec fn wrap_coord(coord: Seq<usize>, shape: Seq<usize>) -> Seq<usize> {
    Seq::new(shape.len(), |k: int| (coord[k] % shape[k]) as usize)
}

/// All repetition products fit in `usize`.
pub open spec fn tile_fits(shape: Seq<usize>, reps: Seq<usize>) -> bool {
    forall|k: int|
        0 <= k < shape.len() ==> #[trigger] (shape[k] * padded_reps(reps, shape.len())[k])
            <= usize::MAX
}

// ---------------------------------------------------------------------------
// Errors
// ---------------------------------------------------------------------------

/// The error of an empty input list.
pub open spec fn empty_input_error_view(operation: Seq<char>) -> ErrorView {
    ErrorView::InvalidArgument {
        operation,
        argument: "tensors"@,
        message: "at least one tensor is required"@,
    }
}

/// `k` is the first input that does not agree with the first one on rank
/// and on every axis but `axis`.
pub open spec fn first_mismatch<T>(ts: Seq<&Tensor<T>>, axis: int, k: int) -> bool {
    &&& 0 <= k < ts.len()
    &&& !same_except(ts[k].dims(), ts[0].dims(), axis)
    &&& forall|j: int| 0 <= j < k ==> #[trigger] same_except(ts[j].dims(), ts[0].dims(), axis)
}

/// `a` is the first axis other than `axis` on which `d` and `d0` differ.
pub open spec fn first_axis_diff(d: Seq<usize>, d0: Seq<usize>, axis: int, a: int) -> bool {
    &&& 0 <= a < d.len()
    &&& a != axis
    &&& d[a] != d0[a]
    &&& forall|b: int| 0 <= b < a && b != axis ==> #[trigger] d[b] == d0[b]
}

/// The error [`Tensor::try_concatenate`] gives for inputs it refuses, in
/// the order of its checks: an empty list, the axis, the first input that
/// disagrees (its rank, else its first differing axis), the joined axis
/// overflow, the default limits.
pub open spec fn concat_error<T>(ts: Seq<&Tensor<T>>, axis: int) -> ErrorView {
    if ts.len() == 0 {
        empty_input_error_view("concatenate"@)
    } else if axis >= ts[0].dims().len() {
        ErrorView::Shape {
            operation: "concatenate"@,
            message: "axis "@ + decimal_text(axis as nat) + " is out of range for concatenate on rank-"@
                + decimal_text(ts[0].dims().len()) + " tensors (valid 0.."@ + decimal_text(
                ts[0].dims().len(),
            ) + ")"@,
        }
    } else if !concat_compatible(ts, axis) {
        let k = choose|k: int| first_mismatch(ts, axis, k);
        let d = ts[k].dims();
        let d0 = ts[0].dims();
        if d.len() != d0.len() {
            ErrorView::Shape {
                operation: "concatenate"@,
                message: "tensor "@ + decimal_text(k as nat) + " has rank "@ + decimal_text(d.len())
                    + " but tensor 0 has rank "@ + decimal_text(d0.len())
                    + "; concatenate requires equal ranks"@,
            }
        } else {
            let a = choose|a: int| first_axis_diff(d, d0, axis, a);
            ErrorView::Shape {
                operation: "concatenate"@,
                message: "tensor "@ + decimal_text(k as nat) + " has size "@ + decimal_text(
                    d[a] as nat,
                ) + " at axis "@ + decimal_text(a as nat) + " but tensor 0 has "@ + decimal_text(
                    d0[a] as nat,
                ) + "; all non-concatenation axes must match"@,
            }
        }
    } else if concat_total(ts, axis) > usize::MAX {
        ErrorView::Allocation {
            requested_elements: usize::MAX as nat,
            message: "concatenated axis size overflowed"@,
        }
    } else {
        shape_limit_error(MattenLimits::default_spec(), concat_shape(ts, axis), "concatenate"@)
    }
}

/// `k` is the first input whose shape differs from the first one's.
pub open spec fn first_unequal<T>(ts: Seq<&Tensor<T>>, k: int) -> bool {
    &&& 0 <= k < ts.len()
    &&& ts[k].dims() != ts[0].dims()
    &&& forall|j: int| 0 <= j < k ==> #[trigger] ts[j].dims() == ts[0].dims()
}

/// The error [`Tensor::try_stack`] gives for inputs it refuses: an empty
/// list, the axis, the first input of another shape, the default limits.
pub open spec fn stack_error<T>(ts: Seq<&Tensor<T>>, axis: int) -> ErrorView {
    if ts.len() == 0 {
        empty_input_error_view("stack"@)
    } else if axis > ts[0].dims().len() {
        ErrorView::Shape {
            operation: "stack"@,
            message: "axis "@ + decimal_text(axis as nat) + " is out of range for stack on rank-"@
                + decimal_text(ts[0].dims().len()) + " tensors (valid 0..="@ + decimal_text(
                ts[0].dims().len(),
            ) + ")"@,
        }
    } else if !stack_compatible(ts, axis) {
        let k = choose|k: int| first_unequal(ts, k);
        ErrorView::Shape {
            operation: "stack"@,
            message: "tensor "@ + decimal_text(k as nat) + " has shape "@ + shape_text_spec(
                ts[k].dims(),
            ) + " but tensor 0 has shape "@ + shape_text_spec(ts[0].dims())
                + "; stack requires identical shapes"@,
        }
    } else {
        shape_limit_error(MattenLimits::default_spec(), stack_shape(ts, axis), "stack"@)
    }
}

/// The error [`Tensor::try_repeat`] gives for `len` elements repeated `n`
/// times, where it refuses them.
pub open spec fn repeat_error(len: nat, n: nat) -> ErrorView {
    if len * n > usize::MAX {
        ErrorView::Allocation {
            requested_elements: usize::MAX as nat,
            message: "repeat output length overflowed for "@ + decimal_text(len)
                + " elements repeated "@ + decimal_text(n) + " times"@,
        }
    } else {
        shape_limit_error(MattenLimits::default_spec(), seq![(len * n) as usize], "repeat"@)
    }
}

/// The error [`Tensor::try_repeat_axis`] gives where it refuses.
pub open spec fn repeat_axis_error(d: Seq<usize>, n: nat, axis: int) -> ErrorView {
    if d.len() == 0 {
        ErrorView::Shape {
            operation: "repeat_axis"@,
            message: "repeat_axis requires at least one axis, but the input is a rank-0 scalar with no axis to repeat along"@,
        }
    } else if axis >= d.len() {
        axis_error(axis as nat, d.len(), "repeat_axis"@)
    } else if d[axis] * n > usize::MAX {
        ErrorView::Allocation {
            requested_elements: usize::MAX as nat,
            message: "repeat_axis output shape overflowed for axis length "@ + decimal_text(
                d[axis] as nat,
            ) + " repeated "@ + decimal_text(n) + " times"@,
        }
    } else {
        shape_limit_error(
            MattenLimits::default_spec(),
            repeat_axis_shape(d, n, axis),
            "repeat_axis"@,
        )
    }
}

/// `k` is the first axis whose scaled dimension overflows.
pub open spec fn first_tile_overflow(shape: Seq<usize>, reps: Seq<usize>, k: int) -> bool {
    &&& 0 <= k < shape.len()
    &&& shape[k] * padded_reps(reps, shape.len())[k] > usize::MAX
    &&& forall|j: int|
        0 <= j < k ==> #[trigger] (shape[j] * padded_reps(reps, shape.len())[j]) <= usize::MAX
}

/// The error [`Tensor::try_tile`] gives where it refuses.
pub open spec fn tile_error(d: Seq<usize>, reps: Seq<usize>) -> ErrorView {
    if reps.len() == 0 {
        ErrorView::Shape {
            operation: "tile"@,
            message: "tile requires at least one repetition factor; reps must not be empty"@,
        }
    } else if reps.len() > d.len() {
        ErrorView::Shape {
            operation: "tile"@,
            message: "reps has length "@ + decimal_text(reps.len()) + " but the input has rank "@
                + decimal_text(d.len())
                + "; tile does not promote rank (reps longer than rank is rejected rather than silently padding the input's shape)"@,
        }
    } else if !tile_fits(d, reps) {
        let k = choose|k: int| first_tile_overflow(d, reps, k);
        ErrorView::Allocation {
            requested_elements: usize::MAX as nat,
            message: "tile output shape overflowed for dim "@ + decimal_text(d[k] as nat)
                + " x rep "@ + decimal_text(padded_reps(reps, d.len())[k] as nat),
        }
    } else {
        shape_limit_error(MattenLimits::default_spec(), tile_shape(d, reps), "tile"@)
    }
}

/// The error [`Tensor::try_meshgrid`] gives where it refuses.
pub open spec fn meshgrid_error(xd: Seq<usize>, yd: Seq<usize>) -> ErrorView {
    if xd.len() != 1 {
        ErrorView::Shape {
            operation: "meshgrid"@,
            message: "x must be rank-1, got rank "@ + decimal_text(xd.len()),
        }
    } else if yd.len() != 1 {
        ErrorView::Shape {
            operation: "meshgrid"@,
            message: "y must be rank-1, got rank "@ + decimal_text(yd.len()),
        }
    } else {
        shape_limit_error(MattenLimits::default_spec(), seq![yd[0], xd[0]], "meshgrid"@)
    }
}

// ---------------------------------------------------------------------------
// Lemmas
// ---------------------------------------------------------------------------

/// The first disagreeing input is unique.
proof fn lemma_first_mismatch<T>(ts: Seq<&Tensor<T>>, axis: int, k: int)
    requires
        first_mismatch(ts, axis, k),
    ensures
        (choose|c: int| first_mismatch(ts, axis, c)) == k,
{
    let c = choose|c: int| first_mismatch(ts, axis, c);
    assert(first_mismatch(ts, axis, c));
    if c < k {
        assert(same_except(ts[c].dims(), ts[0].dims(), axis));
    } else if c > k {
        assert(same_except(ts[k].dims(), ts[0].dims(), axis));
    }
}

/// The first differing axis is unique.
proof fn lemma_first_axis_diff(d: Seq<usize>, d0: Seq<usize>, axis: int, a: int)
    requires
        first_axis_diff(d, d0, axis, a),
    ensures
        (choose|c: int| first_axis_diff(d, d0, axis, c)) == a,
{
    let c = choose|c: int| first_axis_diff(d, d0, axis, c);
    assert(first_axis_diff(d, d0, axis, c));
    if c < a {
        assert(d[c] == d0[c]);
    } else if c > a {
        assert(d[a] == d0[a]);
    }
}

/// The first input of another shape is unique.
proof fn lemma_first_unequal<T>(ts: Seq<&Tensor<T>>, k: int)
    requires
        first_unequal(ts, k),
    ensures
        (choose|c: int| first_unequal(ts, c)) == k,
{
    let c = choose|c: int| first_unequal(ts, c);
    assert(first_unequal(ts, c));
    if c < k {
        assert(ts[c].dims() == ts[0].dims());
    } else if c > k {
        assert(ts[k].dims() == ts[0].dims());
    }
}

/// The first overflowing axis of a tiling is unique.
proof fn lemma_first_tile_overflow(shape: Seq<usize>, reps: Seq<usize>, k: int)
    requires
        first_tile_overflow(shape, reps, k),
    ensures
        (choose|c: int| first_tile_overflow(shape, reps, c)) == k,
{
    let c = choose|c: int| first_tile_overflow(shape, reps, c);
    assert(first_tile_overflow(shape, reps, c));
    if c < k {
        assert((shape[c] * padded_reps(reps, shape.len())[c]) <= usize::MAX);
    } else if c > k {
        assert((shape[k] * padded_reps(reps, shape.len())[k]) <= usize::MAX);
    }
}

proof fn lemma_nat_sum_scaled(s: Seq<nat>, c: nat)
    ensures
        nat_sum(scaled(s, c)) == nat_sum(s) * c,
    decreases s.len(),
{
    if s.len() > 0 {
        lemma_nat_sum_scaled(s.drop_last(), c);
        assert(scaled(s, c).drop_last() =~= scaled(s.drop_last(), c));
        let a = nat_sum(s.drop_last());
        let l = s.last();
        assert(a * c + l * c == (a + l) * c) by (nonlinear_arith);
    } else {
        assert(0 * c == 0) by (nonlinear_arith);
    }
}

proof fn lemma_nat_sum_constant(n: nat, c: nat)
    ensures
        nat_sum(Seq::new(n, |k: int| c)) == n * c,
    decreases n,
{
    if n > 0 {
        lemma_nat_sum_constant((n - 1) as nat, c);
        assert(Seq::new(n, |k: int| c).drop_last() =~= Seq::new((n - 1) as nat, |k: int| c));
        assert(((n - 1) as nat) * c + c == n * c) by (nonlinear_arith)
            requires
                n > 0,
        ;
    } else {
        assert(0 * c == 0) by (nonlinear_arith);
    }
}

proof fn lemma_nat_sum_take(s: Seq<nat>, k: int)
    requires
        0 <= k < s.len(),
    ensures
        nat_sum(s.take(k + 1)) == nat_sum(s.take(k)) + s[k],
{
    assert(s.take(k + 1).drop_last() =~= s.take(k));
}

/// Agreement off `axis` means equal outer and inner products.
proof fn lemma_same_except_products(d: Seq<usize>, d0: Seq<usize>, axis: int)
    requires
        same_except(d, d0, axis),
        0 <= axis < d.len(),
    ensures
        d.take(axis) == d0.take(axis),
        d.skip(axis + 1) == d0.skip(axis + 1),
        shape_product(d) == outer_of(d0, axis) * (d[axis] as nat) * inner_of(d0, axis),
{
    assert(d.take(axis) =~= d0.take(axis));
    assert(d.skip(axis + 1) =~= d0.skip(axis + 1));
    lemma_product_around_axis(d, axis);
}

// ---------------------------------------------------------------------------
// Operations
// ---------------------------------------------------------------------------

/// Joining a single sequence of `outer` blocks of size `size` gives its
/// first `done` blocks.
proof fn lemma_join_single<T>(e: Seq<T>, size: nat, outer: nat, done: nat)
    requires
        done <= outer,
        e.len() == outer * size,
    ensures
        join_layout(seq![e], seq![size], done) == e.take((done * size) as int),
    decreases done,
{
    if done > 0 {
        let d = (done - 1) as nat;
        lemma_join_single(e, size, outer, d);
        let ts = seq![e];
        let sizes = seq![size];
        assert(ts.drop_last() =~= Seq::<Seq<T>>::empty());
        assert(sizes.drop_last() =~= Seq::<nat>::empty());
        assert(interleave_blocks(ts.drop_last(), sizes.drop_last(), d) =~= Seq::<T>::empty());
        assert(interleave_blocks(ts, sizes, d) =~= block(e, size, d));
        lemma_block_len(e, size, d, outer);
        assert(d * size + size == done * size) by (nonlinear_arith)
            requires
                d + 1 == done,
        ;
        assert(e.take((d * size) as int) + block(e, size, d) =~= e.take((done * size) as int));
    } else {
        assert(0 * size == 0) by (nonlinear_arith);
        assert(e.take(0) =~= Seq::<T>::empty());
    }
}

/// Law: concatenating a single tensor along any of its axes gives back the
/// tensor (the shape and elements that [`Tensor::try_concatenate`] promises
/// are those of the input).
pub proof fn lemma_concatenate_single<T>(t: &Tensor<T>, axis: int)
    requires
        t.elems().len() == shape_product(t.dims()),
        0 <= axis < t.dims().len(),
    ensures
        concat_shape(seq![t], axis) == t.dims(),
        concat_elems(seq![t], axis) == t.elems(),
{
    let ts = seq![t];
    let d = t.dims();
    assert(axis_sizes(ts, axis) =~= seq![d[axis] as nat]);
    let one = seq![d[axis] as nat];
    assert(one.drop_last() =~= Seq::<nat>::empty());
    assert(nat_sum(one.drop_last()) == 0);
    assert(nat_sum(one) == nat_sum(one.drop_last()) + one.last());
    assert(concat_total(ts, axis) == d[axis] as nat);
    assert(concat_shape(ts, axis) =~= d);
    let inner = inner_of(d, axis);
    let outer = outer_of(d, axis);
    let size = (d[axis] as nat) * inner;
    assert(elems_of(ts) =~= seq![t.elems()]);
    assert(scaled(axis_sizes(ts, axis), inner) =~= seq![size]);
    lemma_product_around_axis(d, axis);
    let x = d[axis] as nat;
    assert(outer * x * inner == outer * size) by (nonlinear_arith)
        requires
            size == x * inner,
    ;
    lemma_join_single(t.elems(), size, outer, outer);
    assert(t.elems().take((outer * size) as int) =~= t.elems());
}

/// Law: stacking a single tensor inserts a unit axis at `axis` and keeps the
/// elements, as [`Tensor::expand_dims`] does.
pub proof fn lemma_stack_single<T>(t: &Tensor<T>, axis: int)
    requires
        t.elems().len() == shape_product(t.dims()),
        0 <= axis <= t.dims().len(),
    ensures
        stack_shape(seq![t], axis) == t.dims().insert(axis, 1usize),
        stack_elems(seq![t], axis) == t.elems(),
{
    let ts = seq![t];
    let d = t.dims();
    let size = shape_product(d.skip(axis));
    let outer = outer_of(d, axis);
    assert(elems_of(ts) =~= seq![t.elems()]);
    assert(Seq::new(ts.len(), |k: int| shape_product(ts[0].dims().skip(axis))) =~= seq![size]);
    crate::shape::lemma_product_split(d, axis);
    lemma_join_single(t.elems(), size, outer, outer);
    assert(t.elems().take((outer * size) as int) =~= t.elems());
}

/// Repeating each of the first `count` blocks once gives those blocks.
proof fn lemma_repeat_blocks_once<T>(s: Seq<T>, size: nat, count: nat)
    requires
        s.len() >= count * size,
    ensures
        crate::layout::repeat_blocks(s, size, count, 1) == s.take((count * size) as int),
    decreases count,
{
    if count > 0 {
        let c = (count - 1) as nat;
        assert(c * size <= count * size) by (nonlinear_arith)
            requires
                c + 1 == count,
        ;
        lemma_repeat_blocks_once(s, size, c);
        let b = block(s, size, c);
        assert(crate::layout::repeat_seq(b, 0) =~= Seq::<T>::empty());
        assert(crate::layout::repeat_seq(b, 1) =~= b);
        lemma_block_len(s, size, c, count);
        assert(c * size + size == count * size) by (nonlinear_arith)
            requires
                c + 1 == count,
        ;
        assert(s.take((c * size) as int) + b =~= s.take((count * size) as int));
    } else {
        assert(0 * size == 0) by (nonlinear_arith);
        assert(s.take(0) =~= Seq::<T>::empty());
    }
}

/// Law: repeating every element once along an axis gives back the tensor
/// (the shape and elements that [`Tensor::try_repeat_axis`] promises for
/// `n == 1` are those of the input).
pub proof fn lemma_repeat_axis_once<T>(t: &Tensor<T>, axis: int)
    requires
        t.elems().len() == shape_product(t.dims()),
        0 <= axis < t.dims().len(),
    ensures
        repeat_axis_shape(t.dims(), 1, axis) == t.dims(),
        crate::layout::repeat_blocks(
            t.elems(),
            inner_of(t.dims(), axis),
            shape_product(t.dims().take(axis + 1)),
            1,
        ) == t.elems(),
{
    let d = t.dims();
    assert(repeat_axis_shape(d, 1, axis) =~= d);
    crate::shape::lemma_product_split(d, axis + 1);
    let count = shape_product(d.take(axis + 1));
    let inner = inner_of(d, axis);
    assert(count * inner == shape_product(d));
    lemma_repeat_blocks_once(t.elems(), inner, count);
    assert(t.elems().take((count * inner) as int) =~= t.elems());
}

/// Law: repeating every element once gives the flattened tensor (the
/// shape and elements that [`Tensor::try_repeat`] promises for `n == 1` are
/// those of [`Tensor::flatten`]).
pub proof fn lemma_repeat_once<T>(t: &Tensor<T>)
    requires
        t.elems().len() <= usize::MAX,
    ensures
        seq![(t.elems().len() * 1) as usize] == seq![t.elems().len() as usize],
        crate::layout::repeat_blocks(t.elems(), 1, t.elems().len(), 1) == t.elems(),
{
    let n = t.elems().len();
    assert(n * 1 == n);
    lemma_repeat_blocks_once(t.elems(), 1, n);
    assert(t.elems().take((n * 1) as int) =~= t.elems());
}

/// Law: tiling with every repetition equal to one gives back the tensor
/// (any result with the shape and elements that [`Tensor::try_tile`]
/// promises equals the input).
pub proof fn lemma_tile_by_ones<T>(t: Tensor<T>, reps: Seq<usize>, r: Tensor<T>)
    requires
        t.elems().len() == shape_product(t.dims()),
        reps.len() <= t.dims().len(),
        forall|k: int| 0 <= k < reps.len() ==> #[trigger] reps[k] == 1,
        r.dims() == tile_shape(t.dims(), reps),
        r.elems().len() == shape_product(r.dims()),
        forall|j: int|
            0 <= j < r.elems().len() ==> #[trigger] r.elems()[j] == t.elems()[flat_index(
                wrap_coord(coord_of(j as nat, r.dims()), t.dims()),
                t.dims(),
            ) as int],
    ensures
        r.dims() == t.dims(),
        r.elems() == t.elems(),
{
    let d = t.dims();
    let n = d.len();
    let p = padded_reps(reps, n);
    assert forall|k: int| 0 <= k < n implies #[trigger] p[k] == 1 by {
        if k >= n - reps.len() {
            assert(reps[k - (n - reps.len())] == 1);
        }
    }
    assert forall|k: int| 0 <= k < n implies #[trigger] tile_shape(d, reps)[k] == d[k] by {
        assert(p[k] == 1);
        assert(d[k] * 1 == d[k]);
    }
    assert(r.dims() =~= d);
    assert forall|j: int| 0 <= j < r.elems().len() implies #[trigger] r.elems()[j] == t.elems()[j] by {
        crate::shape::lemma_flat_index_coord_of(j as nat, d);
        let c = coord_of(j as nat, d);
        assert forall|k: int| 0 <= k < n implies #[trigger] wrap_coord(c, d)[k] == c[k] by {
            assert(c[k] < d[k]);
            assert((c[k] as int) % (d[k] as int) == c[k] as int) by (nonlinear_arith)
                requires
                    0 <= c[k] < d[k],
            ;
        }
        assert(wrap_coord(c, d) =~= c);
    }
    assert(r.elems() =~= t.elems());
}

fn empty_input_error(operation: &'static str) -> (e: MattenError)
    ensures
        e@ == empty_input_error_view(operation@),
{
    MattenError::InvalidArgument {
        operation,
        argument: "tensors",
        message: String::from_str("at least one tensor is required"),
    }
}

impl<T: Copy> Tensor<T> {
    /// Joins tensors along an existing `axis` (NumPy's `concatenate`). All
    /// inputs must share the rank and the size on every axis but `axis`;
    /// the output `axis` size is the sum of the inputs'. A single input gives
    /// an equal copy.
    ///
    /// Errors: [`MattenError::InvalidArgument`] for an empty list,
    /// [`MattenError::Shape`] for a rank or dimension mismatch or
    /// `axis >= rank`, [`MattenError::Allocation`] if the joined axis
    /// overflows or the result exceeds the default limits.
    pub fn try_concatenate(tensors: &[&Tensor<T>], axis: usize) -> (r: Result<Tensor<T>, MattenError>)
        ensures
            r is Ok <==> concat_compatible(tensors@, axis as int) && concat_total(tensors@, axis as int)
                <= usize::MAX && shape_within_limits(
                MattenLimits::default_spec(),
                concat_shape(tensors@, axis as int),
            ),
            r matches Ok(t) ==> t.dims() == concat_shape(tensors@, axis as int) && t.elems()
                == concat_elems(tensors@, axis as int),
            r matches Err(e) ==> e@ == concat_error(tensors@, axis as int),
    {
        let n = tensors.len();
        if n == 0 {
            return Err(empty_input_error("concatenate"));
        }
        let first = tensors[0];
        let first_shape = first.shape();
        let rank = first_shape.len();
        if axis >= rank {
            let mut message = concat2("axis ", decimal(axis).as_str());
            message.append(" is out of range for concatenate on rank-");
            message.append(decimal(rank).as_str());
            message.append(" tensors (valid 0..");
            message.append(decimal(rank).as_str());
            message.append(")");
            return Err(MattenError::Shape { operation: "concatenate", message });
        }
        let ghost ts = tensors@;
        let mut i: usize = 0;
        while i < n
            invariant
                i <= n,
                n == ts.len(),
                ts == tensors@,
                first_shape@ == ts[0].dims(),
                rank == first_shape@.len(),
                axis < rank,
                forall|k: int| 0 <= k < i ==> #[trigger] same_except(ts[k].dims(), ts[0].dims(), axis as int),
                forall|k: int| 0 <= k < i ==> #[trigger] ts[k].elems().len() == shape_product(ts[k].dims()),
            decreases n - i,
        {
            let t = tensors[i];
            let _tl = t.len();
            let s = t.shape();
            if s.len() != rank {
                let mut message = concat2("tensor ", decimal(i).as_str());
                message.append(" has rank ");
                message.append(decimal(s.len()).as_str());
                message.append(" but tensor 0 has rank ");
                message.append(decimal(rank).as_str());
                message.append("; concatenate requires equal ranks");
                proof {
                    assert(!same_except(ts[i as int].dims(), ts[0].dims(), axis as int));
                    assert(first_mismatch(ts, axis as int, i as int));
                    lemma_first_mismatch(ts, axis as int, i as int);
                    assert(!concat_compatible(ts, axis as int)) by {
                        if concat_compatible(ts, axis as int) {
                            assert(same_except(ts[i as int].dims(), ts[0].dims(), axis as int));
                        }
                    }
                }
                return Err(MattenError::Shape { operation: "concatenate", message });
            }
            let mut ax: usize = 0;
            while ax < rank
                invariant
                    ax <= rank,
                    rank == s@.len(),
                    rank == first_shape@.len(),
                    i < n,
                    n == ts.len(),
                    ts == tensors@,
                    s@ == ts[i as int].dims(),
                    first_shape@ == ts[0].dims(),
                    axis < rank,
                    forall|a: int| 0 <= a < ax && a != axis ==> #[trigger] s@[a] == first_shape@[a],
                    forall|k: int|
                        0 <= k < i ==> #[trigger] same_except(ts[k].dims(), ts[0].dims(), axis as int),
                decreases rank - ax,
            {
                if ax != axis && s[ax] != first_shape[ax] {
                    proof {
                        assert(!same_except(ts[i as int].dims(), ts[0].dims(), axis as int));
                        assert(first_mismatch(ts, axis as int, i as int));
                        lemma_first_mismatch(ts, axis as int, i as int);
                        assert(first_axis_diff(s@, first_shape@, axis as int, ax as int));
                        lemma_first_axis_diff(s@, first_shape@, axis as int, ax as int);
                        assert(!concat_compatible(ts, axis as int)) by {
                            if concat_compatible(ts, axis as int) {
                                assert(same_except(ts[i as int].dims(), ts[0].dims(), axis as int));
                            }
                        }
                    }
                    let mut message = concat2("tensor ", decimal(i).as_str());
                    message.append(" has size ");
                    message.append(decimal(s[ax]).as_str());
                    message.append(" at axis ");
                    message.append(decimal(ax).as_str());
                    message.append(" but tensor 0 has ");
                    message.append(decimal(first_shape[ax]).as_str());
                    message.append("; all non-concatenation axes must match");
                    return Err(MattenError::Shape { operation: "concatenate", message });
                }
                ax = ax + 1;
            }
            proof {
                assert(same_except(s@, first_shape@, axis as int));
            }
            i = i + 1;
        }
        proof {
            assert(concat_compatible(ts, axis as int));
        }
        let ghost wf_all = forall|k: int| 0 <= k < n ==> #[trigger] ts[k].elems().len() == shape_product(ts[k].dims());
        assert(wf_all);
        let mut total: usize = 0;
        let mut j: usize = 0;
        proof {
            assert(axis_sizes(ts, axis as int).take(0) =~= Seq::<nat>::empty());
        }
        while j < n
            invariant
                j <= n,
                n == ts.len(),
                ts == tensors@,
                concat_compatible(ts, axis as int),
                total as nat == nat_sum(axis_sizes(ts, axis as int).take(j as int)),
            decreases n - j,
        {
            proof {
                lemma_nat_sum_take(axis_sizes(ts, axis as int), j as int);
                assert(same_except(ts[j as int].dims(), ts[0].dims(), axis as int));
            }
            let d = tensors[j].shape()[axis];
            match total.checked_add(d) {
                Some(v) => {
                    total = v;
                },
                None => {
                    proof {
                        crate::layout::lemma_nat_sum_prefix_le(axis_sizes(ts, axis as int), j + 1);
                        assert(axis_sizes(ts, axis as int).take(n as int) =~= axis_sizes(ts, axis as int));
                    }
                    return Err(MattenError::Allocation {
                        requested_elements: usize::MAX,
                        message: String::from_str("concatenated axis size overflowed"),
                    });
                },
            }
            j = j + 1;
        }
        proof {
            assert(axis_sizes(ts, axis as int).take(n as int) =~= axis_sizes(ts, axis as int));
        }
        let mut out_shape = shape_to_vec(first_shape);
        out_shape.set(axis, total);
        let limits = MattenLimits::default();
        let total_len = match limits.check_shape(out_shape.as_slice(), "concatenate") {
            Ok(n) => n,
            Err(e) => {
                proof {
                    assert(out_shape@ =~= concat_shape(ts, axis as int));
                }
                return Err(e);
            },
        };
        let ghost d0 = ts[0].dims();
        let ghost outer = outer_of(d0, axis as int);
        let ghost inner = inner_of(d0, axis as int);
        let ghost es = elems_of(ts);
        let ghost sizes = scaled(axis_sizes(ts, axis as int), inner);
        proof {
            assert(out_shape@.take(axis as int) =~= d0.take(axis as int));
            assert(out_shape@.skip(axis + 1) =~= d0.skip(axis + 1));
            lemma_product_around_axis(out_shape@, axis as int);
            lemma_nat_sum_scaled(axis_sizes(ts, axis as int), inner);
            assert(blocks_available(es, sizes, outer)) by {
                assert forall|k: int| 0 <= k < es.len() implies #[trigger] es[k].len() >= outer * sizes[k] by {
                    assert(same_except(ts[k].dims(), d0, axis as int));
                    assert(ts[k].elems().len() == shape_product(ts[k].dims()));
                    lemma_same_except_products(ts[k].dims(), d0, axis as int);
                    let ak = ts[k].dims()[axis as int] as nat;
                    assert(outer * ak * inner == outer * (ak * inner)) by (nonlinear_arith);
                }
            }
            lemma_join_len(es, sizes, outer, outer);
            let tt = total as nat;
            assert(outer * tt * inner == outer * (tt * inner)) by (nonlinear_arith);
        }
        let mut data: Vec<T> = Vec::new();
        if total_len == 0 {
            proof {
                assert(join_layout(es, sizes, outer).len() == 0);
                assert(data@ =~= join_layout(es, sizes, outer));
            }
            return Ok(Tensor::from_parts_checked(data, out_shape));
        }
        proof {
            assert forall|k: int| 0 <= k < out_shape@.len() implies #[trigger] out_shape@[k] > 0 by {
                lemma_product_zero_iff(out_shape@);
                if out_shape@[k] == 0 {
                    assert(shape_product(out_shape@) == 0);
                }
            }
        }
        let outer_x = range_product(out_shape.as_slice(), 0, axis);
        let inner_x = range_product(out_shape.as_slice(), axis + 1, rank);
        proof {
            assert(out_shape@.subrange(0, axis as int) =~= out_shape@.take(axis as int));
            assert(out_shape@.subrange(axis + 1, rank as int) =~= out_shape@.skip(axis + 1));
        }
        let mut o: usize = 0;
        proof {
            assert(data@ =~= join_layout(es, sizes, 0));
        }
        while o < outer_x
            invariant
                o <= outer_x,
                outer_x as nat == outer,
                inner_x as nat == inner,
                n == ts.len(),
                ts == tensors@,
                es == elems_of(ts),
                sizes == scaled(axis_sizes(ts, axis as int), inner),
                blocks_available(es, sizes, outer),
                concat_compatible(ts, axis as int),
                d0 == ts[0].dims(),
                axis < rank,
                rank == d0.len(),
                data@ == join_layout(es, sizes, o as nat),
            decreases outer_x - o,
        {
            let mut k: usize = 0;
            proof {
                assert(es.take(0) =~= Seq::<Seq<T>>::empty());
                assert(sizes.take(0) =~= Seq::<nat>::empty());
                assert(data@ =~= join_layout(es, sizes, o as nat) + interleave_blocks(
                    es.take(0),
                    sizes.take(0),
                    o as nat,
                ));
            }
            while k < n
                invariant
                    k <= n,
                    o < outer_x,
                    outer_x as nat == outer,
                    inner_x as nat == inner,
                    n == ts.len(),
                    ts == tensors@,
                    es == elems_of(ts),
                    sizes == scaled(axis_sizes(ts, axis as int), inner),
                    blocks_available(es, sizes, outer),
                    concat_compatible(ts, axis as int),
                    d0 == ts[0].dims(),
                    axis < rank,
                    rank == d0.len(),
                    data@ == join_layout(es, sizes, o as nat) + interleave_blocks(
                        es.take(k as int),
                        sizes.take(k as int),
                        o as nat,
                    ),
                decreases n - k,
            {
                let t = tensors[k];
                let src = t.as_slice();
                let _src_len = src.len();
                proof {
                    assert(same_except(ts[k as int].dims(), d0, axis as int));
                }
                let ak = t.shape()[axis];
                proof {
                    lemma_same_except_products(ts[k as int].dims(), d0, axis as int);
                    assert(es[k as int] == src@);
                    assert(es[k as int].len() >= outer * sizes[k as int]);
                    lemma_block_len(src@, sizes[k as int], o as nat, outer);
                    assert(sizes[k as int] == (ak as nat) * inner);
                    assert((o as nat) * sizes[k as int] + sizes[k as int] == ((o + 1) as nat) * sizes[k as int])
                        by (nonlinear_arith);
                    assert(src@.len() <= usize::MAX);
                    let sz = sizes[k as int];
                    assert(sz <= (o as nat) * sz + sz) by (nonlinear_arith);
                }
                let size = ak * inner_x;
                let start = o * size;
                push_block(&mut data, src, start, size);
                proof {
                    let et = es.take(k + 1);
                    let st = sizes.take(k + 1);
                    assert(et.drop_last() =~= es.take(k as int));
                    assert(st.drop_last() =~= sizes.take(k as int));
                    assert(et.last() == src@);
                    assert(st.last() == sizes[k as int]);
                    assert(block(src@, sizes[k as int], o as nat) =~= src@.subrange(start as int, start + size));
                }
                k = k + 1;
            }
            proof {
                assert(es.take(n as int) =~= es);
                assert(sizes.take(n as int) =~= sizes);
            }
            o = o + 1;
        }
        Ok(Tensor::from_parts_checked(data, out_shape))
    }
}

impl<T: Copy> Tensor<T> {
    /// Joins tensors along an existing `axis`; the inputs must be
    /// compatible and the result within the default limits
    /// ([`Tensor::try_concatenate`] is the recoverable form).
    pub fn concatenate(tensors: &[&Tensor<T>], axis: usize) -> (r: Tensor<T>)
        requires
            concat_compatible(tensors@, axis as int),
            concat_total(tensors@, axis as int) <= usize::MAX,
            shape_within_limits(MattenLimits::default_spec(), concat_shape(tensors@, axis as int)),
        ensures
            r.dims() == concat_shape(tensors@, axis as int),
            r.elems() == concat_elems(tensors@, axis as int),
    {
        match Self::try_concatenate(tensors, axis) {
            Ok(t) => t,
            Err(_) => {
                proof {
                    assert(false);
                }
                tensors[0].flatten()
            },
        }
    }

    /// Joins identically shaped tensors along a new `axis` (NumPy's
    /// `stack`); `axis` may be `0..=rank`, and the new axis has one entry
    /// per input.
    ///
    /// Errors: [`MattenError::InvalidArgument`] for an empty list,
    /// [`MattenError::Shape`] for differing shapes or `axis > rank`, and the
    /// default-limit errors of [`MattenLimits::check_shape`].
    pub fn try_stack(tensors: &[&Tensor<T>], axis: usize) -> (r: Result<Tensor<T>, MattenError>)
        ensures
            r is Ok <==> stack_compatible(tensors@, axis as int) && shape_within_limits(
                MattenLimits::default_spec(),
                stack_shape(tensors@, axis as int),
            ),
            r matches Ok(t) ==> t.dims() == stack_shape(tensors@, axis as int) && t.elems()
                == stack_elems(tensors@, axis as int),
            r matches Err(e) ==> e@ == stack_error(tensors@, axis as int),
    {
        let n = tensors.len();
        if n == 0 {
            return Err(empty_input_error("stack"));
        }
        let first = tensors[0];
        let first_shape = first.shape();
        let rank = first_shape.len();
        if axis > rank {
            let mut message = concat2("axis ", decimal(axis).as_str());
            message.append(" is out of range for stack on rank-");
            message.append(decimal(rank).as_str());
            message.append(" tensors (valid 0..=");
            message.append(decimal(rank).as_str());
            message.append(")");
            return Err(MattenError::Shape { operation: "stack", message });
        }
        let ghost ts = tensors@;
        let mut i: usize = 0;
        while i < n
            invariant
                i <= n,
                n == ts.len(),
                ts == tensors@,
                first_shape@ == ts[0].dims(),
                rank == first_shape@.len(),
                axis <= rank,
                forall|k: int| 0 <= k < i ==> #[trigger] ts[k].dims() == ts[0].dims(),
                forall|k: int| 0 <= k < i ==> #[trigger] ts[k].elems().len() == shape_product(ts[k].dims()),
            decreases n - i,
        {
            let t = tensors[i];
            let _tl = t.len();
            let s = t.shape();
            if !shapes_equal(s, first_shape) {
                let mut message = concat2("tensor ", decimal(i).as_str());
                message.append(" has shape ");
                message.append(crate::text::shape_text(s).as_str());
                message.append(" but tensor 0 has shape ");
                message.append(crate::text::shape_text(first_shape).as_str());
                message.append("; stack requires identical shapes");
                proof {
                    assert(first_unequal(ts, i as int));
                    lemma_first_unequal(ts, i as int);
                    assert(!stack_compatible(ts, axis as int)) by {
                        if stack_compatible(ts, axis as int) {
                            assert(ts[i as int].dims() == ts[0].dims());
                        }
                    }
                }
                return Err(MattenError::Shape { operation: "stack", message });
            }
            i = i + 1;
        }
        proof {
            assert(stack_compatible(ts, axis as int));
        }
        let mut out_shape = shape_to_vec(first_shape);
        out_shape.insert(axis, n);
        let limits = MattenLimits::default();
        let total_len = match limits.check_shape(out_shape.as_slice(), "stack") {
            Ok(n) => n,
            Err(e) => {
                proof {
                    assert(out_shape@ =~= stack_shape(ts, axis as int));
                }
                return Err(e);
            },
        };
        let ghost d0 = ts[0].dims();
        let ghost outer = outer_of(d0, axis as int);
        let ghost inner = shape_product(d0.skip(axis as int));
        let ghost es = elems_of(ts);
        let ghost sizes = Seq::new(n as nat, |k: int| inner);
        proof {
            assert(out_shape@.take(axis as int) =~= d0.take(axis as int));
            assert(out_shape@.skip(axis + 1) =~= d0.skip(axis as int));
            lemma_product_around_axis(out_shape@, axis as int);
            crate::shape::lemma_product_split(d0, axis as int);
            lemma_nat_sum_constant(n as nat, inner);
            assert(blocks_available(es, sizes, outer)) by {
                assert forall|k: int| 0 <= k < es.len() implies #[trigger] es[k].len() >= outer * sizes[k] by {
                    assert(ts[k].dims() == d0);
                    assert(ts[k].elems().len() == shape_product(ts[k].dims()));
                }
            }
            lemma_join_len(es, sizes, outer, outer);
            let nn = n as nat;
            assert(outer * nn * inner == outer * (nn * inner)) by (nonlinear_arith);
        }
        let mut data: Vec<T> = Vec::new();
        if total_len == 0 {
            proof {
                assert(data@ =~= join_layout(es, sizes, outer));
            }
            return Ok(Tensor::from_parts_checked(data, out_shape));
        }
        proof {
            assert forall|k: int| 0 <= k < out_shape@.len() implies #[trigger] out_shape@[k] > 0 by {
                lemma_product_zero_iff(out_shape@);
                if out_shape@[k] == 0 {
                    assert(shape_product(out_shape@) == 0);
                }
            }
        }
        let outer_x = range_product(out_shape.as_slice(), 0, axis);
        let inner_x = range_product(out_shape.as_slice(), axis + 1, rank + 1);
        proof {
            assert(out_shape@.subrange(0, axis as int) =~= out_shape@.take(axis as int));
            assert(out_shape@.subrange(axis + 1, rank + 1) =~= out_shape@.skip(axis + 1));
        }
        let mut o: usize = 0;
        proof {
            assert(data@ =~= join_layout(es, sizes, 0));
        }
        while o < outer_x
            invariant
                o <= outer_x,
                outer_x as nat == outer,
                inner_x as nat == inner,
                n == ts.len(),
                ts == tensors@,
                es == elems_of(ts),
                sizes == Seq::new(n as nat, |k: int| inner),
                blocks_available(es, sizes, outer),
                data@ == join_layout(es, sizes, o as nat),
            decreases outer_x - o,
        {
            let mut k: usize = 0;
            proof {
                assert(es.take(0) =~= Seq::<Seq<T>>::empty());
                assert(sizes.take(0) =~= Seq::<nat>::empty());
                assert(data@ =~= join_layout(es, sizes, o as nat) + interleave_blocks(
                    es.take(0),
                    sizes.take(0),
                    o as nat,
                ));
            }
            while k < n
                invariant
                    k <= n,
                    o < outer_x,
                    outer_x as nat == outer,
                    inner_x as nat == inner,
                    n == ts.len(),
                    ts == tensors@,
                    es == elems_of(ts),
                    sizes == Seq::new(n as nat, |k: int| inner),
                    blocks_available(es, sizes, outer),
                    data@ == join_layout(es, sizes, o as nat) + interleave_blocks(
                        es.take(k as int),
                        sizes.take(k as int),
                        o as nat,
                    ),
                decreases n - k,
            {
                let t = tensors[k];
                let src = t.as_slice();
                let _src_len = src.len();
                proof {
                    assert(es[k as int] == src@);
                    assert(es[k as int].len() >= outer * sizes[k as int]);
                    lemma_block_len(src@, inner, o as nat, outer);
                    assert((o as nat) * inner + inner == ((o + 1) as nat) * inner) by (nonlinear_arith);
                    assert(inner <= (o as nat) * inner + inner) by (nonlinear_arith);
                }
                let start = o * inner_x;
                push_block(&mut data, src, start, inner_x);
                proof {
                    let et = es.take(k + 1);
                    let st = sizes.take(k + 1);
                    assert(et.drop_last() =~= es.take(k as int));
                    assert(st.drop_last() =~= sizes.take(k as int));
                    assert(et.last() == src@);
                    assert(st.last() == inner);
                    assert(block(src@, inner, o as nat) =~= src@.subrange(start as int, start + inner_x));
                }
                k = k + 1;
            }
            proof {
                assert(es.take(n as int) =~= es);
                assert(sizes.take(n as int) =~= sizes);
            }
            o = o + 1;
        }
        Ok(Tensor::from_parts_checked(data, out_shape))
    }

    /// Joins identically shaped tensors along a new `axis`; the inputs must
    /// be compatible and the result within the default limits
    /// ([`Tensor::try_stack`] is the recoverable form).
    pub fn stack(tensors: &[&Tensor<T>], axis: usize) -> (r: Tensor<T>)
        requires
            stack_compatible(tensors@, axis as int),
            shape_within_limits(MattenLimits::default_spec(), stack_shape(tensors@, axis as int)),
        ensures
            r.dims() == stack_shape(tensors@, axis as int),
            r.elems() == stack_elems(tensors@, axis as int),
    {
        match Self::try_stack(tensors, axis) {
            Ok(t) => t,
            Err(_) => {
                proof {
                    assert(false);
                }
                tensors[0].flatten()
            },
        }
    }
}

impl<T: Copy> Tensor<T> {
    /// Repeats each element `n` times in place, flattening the result to
    /// rank 1 (NumPy's `repeat` with no axis). `n == 0` gives an empty
    /// tensor; a scalar repeats to a vector of length `n`.
    ///
    /// Errors: [`MattenError::Allocation`] if the output length overflows
    /// or exceeds the default element budget.
    pub fn try_repeat(&self, n: usize) -> (r: Result<Tensor<T>, MattenError>)
        ensures
            r is Ok <==> self.elems().len() * n <= usize::MAX && shape_within_limits(
                MattenLimits::default_spec(),
                seq![(self.elems().len() * n) as usize],
            ),
            r matches Ok(t) ==> t.dims() == seq![(self.elems().len() * n) as usize] && t.elems()
                == crate::layout::repeat_blocks(self.elems(), 1, self.elems().len(), n as nat),
            r matches Err(e) ==> e@ == repeat_error(self.elems().len(), n as nat),
    {
        let in_len = self.len();
        let src = self.as_slice();
        let out_len = match in_len.checked_mul(n) {
            Some(v) => v,
            None => {
                let mut message = concat2("repeat output length overflowed for ", decimal(in_len).as_str());
                message.append(" elements repeated ");
                message.append(decimal(n).as_str());
                message.append(" times");
                return Err(MattenError::Allocation { requested_elements: usize::MAX, message });
            },
        };
        let mut out_shape: Vec<usize> = Vec::new();
        out_shape.push(out_len);
        proof {
            assert(out_shape@ =~= seq![out_len]);
            crate::shape::lemma_product_single(out_len);
        }
        let limits = MattenLimits::default();
        let total = match limits.check_shape(out_shape.as_slice(), "repeat") {
            Ok(t) => t,
            Err(e) => return Err(e),
        };
        let mut data: Vec<T> = Vec::new();
        let mut k: usize = 0;
        proof {
            assert(src@.len() >= (in_len as nat) * 1);
        }
        while k < in_len
            invariant
                k <= in_len,
                in_len == src@.len(),
                data@ == crate::layout::repeat_blocks(src@, 1, k as nat, n as nat),
            decreases in_len - k,
        {
            let x = src[k];
            let mut c: usize = 0;
            let ghost before = data@;
            proof {
                assert(block(src@, 1, k as nat) =~= seq![x]);
            }
            while c < n
                invariant
                    c <= n,
                    data@ == before + crate::layout::repeat_seq(seq![x], c as nat),
                decreases n - c,
            {
                data.push(x);
                c = c + 1;
                proof {
                    assert(data@ =~= before + crate::layout::repeat_seq(seq![x], c as nat));
                }
            }
            k = k + 1;
        }
        proof {
            crate::layout::lemma_repeat_blocks_len(src@, 1, in_len as nat, n as nat, in_len as nat);
            assert((in_len as nat) * ((n as nat) * 1) == (in_len as nat) * (n as nat)) by (nonlinear_arith);
        }
        Ok(Tensor::from_parts_checked(data, out_shape))
    }

    /// Repeats each element `n` times, flattening to rank 1; the output must
    /// fit the default limits ([`Tensor::try_repeat`] is the recoverable
    /// form).
    pub fn repeat(&self, n: usize) -> (r: Tensor<T>)
        requires
            self.elems().len() * n <= usize::MAX,
            shape_within_limits(MattenLimits::default_spec(), seq![(self.elems().len() * n) as usize]),
        ensures
            r.dims() == seq![(self.elems().len() * n) as usize],
            r.elems() == crate::layout::repeat_blocks(self.elems(), 1, self.elems().len(), n as nat),
    {
        match self.try_repeat(n) {
            Ok(t) => t,
            Err(_) => {
                proof {
                    assert(false);
                }
                self.flatten()
            },
        }
    }

    /// Repeats each slice along `axis` `n` times in place, keeping the rank
    /// (NumPy's `repeat` with an axis): every block of `product(shape[axis+1..])`
    /// elements is repeated `n` times. `n == 0` gives a zero-length axis.
    ///
    /// Errors: [`MattenError::Shape`] for a rank-0 input or
    /// `axis >= rank`; [`MattenError::Allocation`] if the new axis length
    /// overflows; and the default-limit errors of
    /// [`MattenLimits::check_shape`].
    pub fn try_repeat_axis(&self, n: usize, axis: usize) -> (r: Result<Tensor<T>, MattenError>)
        ensures
            r is Ok <==> axis < self.dims().len() && self.dims()[axis as int] * n <= usize::MAX
                && shape_within_limits(
                MattenLimits::default_spec(),
                repeat_axis_shape(self.dims(), n as nat, axis as int),
            ),
            r matches Ok(t) ==> t.dims() == repeat_axis_shape(self.dims(), n as nat, axis as int)
                && t.elems() == crate::layout::repeat_blocks(
                self.elems(),
                inner_of(self.dims(), axis as int),
                shape_product(self.dims().take(axis + 1)),
                n as nat,
            ),
            r matches Err(e) ==> e@ == repeat_axis_error(self.dims(), n as nat, axis as int),
    {
        let shape = self.shape();
        let src = self.as_slice();
        let _src_len = src.len();
        let rank = shape.len();
        if rank == 0 {
            return Err(MattenError::Shape {
                operation: "repeat_axis",
                message: String::from_str(
                    "repeat_axis requires at least one axis, but the input is a rank-0 scalar with no axis to repeat along",
                ),
            });
        }
        if axis >= rank {
            let mut message = concat2("axis ", decimal(axis).as_str());
            message.append(" is out of range for a rank-");
            message.append(decimal(rank).as_str());
            message.append(" tensor");
            return Err(MattenError::Shape { operation: "repeat_axis", message });
        }
        let axis_len = shape[axis];
        let new_axis_len = match axis_len.checked_mul(n) {
            Some(v) => v,
            None => {
                let mut message = concat2(
                    "repeat_axis output shape overflowed for axis length ",
                    decimal(axis_len).as_str(),
                );
                message.append(" repeated ");
                message.append(decimal(n).as_str());
                message.append(" times");
                return Err(MattenError::Allocation { requested_elements: usize::MAX, message });
            },
        };
        let mut out_shape = shape_to_vec(shape);
        out_shape.set(axis, new_axis_len);
        let limits = MattenLimits::default();
        let total = match limits.check_shape(out_shape.as_slice(), "repeat_axis") {
            Ok(t) => t,
            Err(e) => {
                proof {
                    assert(out_shape@ =~= repeat_axis_shape(shape@, n as nat, axis as int));
                }
                return Err(e);
            },
        };
        let ghost d = shape@;
        let ghost inner = inner_of(d, axis as int);
        let ghost count = shape_product(d.take(axis + 1));
        proof {
            assert(out_shape@ =~= repeat_axis_shape(d, n as nat, axis as int));
            lemma_product_around_axis(d, axis as int);
            lemma_product_around_axis(out_shape@, axis as int);
            assert(out_shape@.take(axis as int) =~= d.take(axis as int));
            assert(out_shape@.skip(axis + 1) =~= d.skip(axis + 1));
            assert(d.take(axis + 1).drop_last() =~= d.take(axis as int));
            assert(d.take(axis + 1).last() == d[axis as int]);
            assert(count == outer_of(d, axis as int) * (d[axis as int] as nat));
            crate::layout::lemma_repeat_blocks_len(src@, inner, count, n as nat, count);
            let ou = outer_of(d, axis as int);
            let a = d[axis as int] as nat;
            let nn = n as nat;
            assert(ou * (a * nn) * inner == (ou * a) * (nn * inner)) by (nonlinear_arith);
            assert(ou * a * inner == (ou * a) * inner) by (nonlinear_arith);
        }
        let mut data: Vec<T> = Vec::new();
        if total == 0 {
            proof {
                assert(data@ =~= crate::layout::repeat_blocks(src@, inner, count, n as nat));
            }
            return Ok(Tensor::from_parts_checked(data, out_shape));
        }
        proof {
            assert forall|k: int| 0 <= k < out_shape@.len() implies #[trigger] out_shape@[k] > 0 by {
                lemma_product_zero_iff(out_shape@);
                if out_shape@[k] == 0 {
                    assert(shape_product(out_shape@) == 0);
                }
            }
            assert forall|k: int| 0 <= k < d.len() implies #[trigger] d[k] > 0 by {
                if k != axis {
                    assert(out_shape@[k] == d[k]);
                } else {
                    assert(out_shape@[k] > 0);
                    assert((d[k] as nat) * (n as nat) > 0 ==> d[k] > 0) by (nonlinear_arith);
                }
            }
            assert(shape_product(d) <= usize::MAX);
        }
        let count_x = range_product(shape, 0, axis + 1);
        let inner_x = range_product(shape, axis + 1, rank);
        proof {
            assert(d.subrange(0, axis + 1) =~= d.take(axis + 1));
            assert(d.subrange(axis + 1, rank as int) =~= d.skip(axis + 1));
            assert(src@.len() == count * inner);
        }
        let mut b: usize = 0;
        while b < count_x
            invariant
                b <= count_x,
                count_x as nat == count,
                inner_x as nat == inner,
                src@.len() == count * inner,
                src@.len() <= usize::MAX,
                data@ == crate::layout::repeat_blocks(src@, inner, b as nat, n as nat),
            decreases count_x - b,
        {
            proof {
                lemma_block_len(src@, inner, b as nat, count);
                assert((b as nat) * inner + inner == ((b + 1) as nat) * inner) by (nonlinear_arith);
                assert(inner <= (b as nat) * inner + inner) by (nonlinear_arith);
            }
            let start = b * inner_x;
            let ghost blk = block(src@, inner, b as nat);
            let ghost before = data@;
            let mut c: usize = 0;
            while c < n
                invariant
                    c <= n,
                    start + inner_x <= src@.len(),
                    blk == src@.subrange(start as int, start + inner_x),
                    data@ == before + crate::layout::repeat_seq(blk, c as nat),
                decreases n - c,
            {
                push_block(&mut data, src, start, inner_x);
                c = c + 1;
                proof {
                    assert(data@ =~= before + crate::layout::repeat_seq(blk, c as nat));
                }
            }
            b = b + 1;
        }
        Ok(Tensor::from_parts_checked(data, out_shape))
    }

    /// Repeats each slice along `axis` `n` times; `axis` must be an axis and
    /// the output must fit the default limits
    /// ([`Tensor::try_repeat_axis`] is the recoverable form).
    pub fn repeat_axis(&self, n: usize, axis: usize) -> (r: Tensor<T>)
        requires
            axis < self.dims().len(),
            self.dims()[axis as int] * n <= usize::MAX,
            shape_within_limits(
                MattenLimits::default_spec(),
                repeat_axis_shape(self.dims(), n as nat, axis as int),
            ),
        ensures
            r.dims() == repeat_axis_shape(self.dims(), n as nat, axis as int),
            r.elems() == crate::layout::repeat_blocks(
                self.elems(),
                inner_of(self.dims(), axis as int),
                shape_product(self.dims().take(axis + 1)),
                n as nat,
            ),
    {
        match self.try_repeat_axis(n, axis) {
            Ok(t) => t,
            Err(_) => {
                proof {
                    assert(false);
                }
                self.flatten()
            },
        }
    }
}

impl<T: Copy> Tensor<T> {
    /// Repeats the whole tensor according to `reps`, one factor per axis
    /// (NumPy's `tile`). A `reps` shorter than the rank is padded with
    /// leading `1`s; a longer one is an error (the rank is never promoted).
    /// Each output element is the input element at the output coordinate
    /// taken modulo the input shape.
    ///
    /// Errors: [`MattenError::Shape`] for empty `reps` or `reps` longer than
    /// the rank; [`MattenError::Allocation`] if a scaled dimension
    /// overflows; and the default-limit errors of
    /// [`MattenLimits::check_shape`].
    pub fn try_tile(&self, reps: &[usize]) -> (r: Result<Tensor<T>, MattenError>)
        ensures
            r is Ok <==> reps@.len() > 0 && reps@.len() <= self.dims().len() && tile_fits(
                self.dims(),
                reps@,
            ) && shape_within_limits(MattenLimits::default_spec(), tile_shape(self.dims(), reps@)),
            r matches Ok(t) ==> t.dims() == tile_shape(self.dims(), reps@) && t.elems().len()
                == shape_product(t.dims()) && forall|j: int|
                0 <= j < t.elems().len() ==> #[trigger] t.elems()[j] == self.elems()[flat_index(
                    wrap_coord(coord_of(j as nat, t.dims()), self.dims()),
                    self.dims(),
                ) as int],
            r matches Err(e) ==> e@ == tile_error(self.dims(), reps@),
    {
        let shape = self.shape();
        let src = self.as_slice();
        let _src_len = src.len();
        let rank = shape.len();
        if reps.len() == 0 {
            return Err(MattenError::Shape {
                operation: "tile",
                message: String::from_str(
                    "tile requires at least one repetition factor; reps must not be empty",
                ),
            });
        }
        if reps.len() > rank {
            let mut message = concat2("reps has length ", decimal(reps.len()).as_str());
            message.append(" but the input has rank ");
            message.append(decimal(rank).as_str());
            message.append(
                "; tile does not promote rank (reps longer than rank is rejected rather than silently padding the input's shape)",
            );
            return Err(MattenError::Shape { operation: "tile", message });
        }
        let padded = crate::broadcast::pad_left(reps, rank);
        let mut out_shape: Vec<usize> = Vec::new();
        let mut k: usize = 0;
        while k < rank
            invariant
                k <= rank,
                rank == shape@.len(),
                shape@ == self.dims(),
                reps@.len() > 0,
                reps@.len() <= rank,
                padded@ == padded_reps(reps@, rank as nat),
                out_shape@ == tile_shape(shape@, reps@).take(k as int),
                forall|q: int| 0 <= q < k ==> #[trigger] (shape@[q] * padded@[q]) <= usize::MAX,
            decreases rank - k,
        {
            let dim = shape[k];
            let rep = padded[k];
            match dim.checked_mul(rep) {
                Some(v) => {
                    out_shape.push(v);
                },
                None => {
                    let mut message = concat2("tile output shape overflowed for dim ", decimal(dim).as_str());
                    message.append(" x rep ");
                    message.append(decimal(rep).as_str());
                    proof {
                        assert(first_tile_overflow(shape@, reps@, k as int));
                        lemma_first_tile_overflow(shape@, reps@, k as int);
                        assert(!tile_fits(shape@, reps@)) by {
                            if tile_fits(shape@, reps@) {
                                assert((shape@[k as int] * padded_reps(reps@, shape@.len())[k as int])
                                    <= usize::MAX);
                            }
                        }
                    }
                    return Err(MattenError::Allocation { requested_elements: usize::MAX, message });
                },
            }
            k = k + 1;
            proof {
                assert(out_shape@ =~= tile_shape(shape@, reps@).take(k as int));
            }
        }
        proof {
            assert(tile_shape(shape@, reps@).take(rank as int) =~= tile_shape(shape@, reps@));
        }
        let limits = MattenLimits::default();
        let total = match limits.check_shape(out_shape.as_slice(), "tile") {
            Ok(t) => t,
            Err(e) => return Err(e),
        };
        let mut data: Vec<T> = Vec::new();
        if total == 0 {
            return Ok(Tensor::from_parts_checked(data, out_shape));
        }
        proof {
            assert forall|q: int| 0 <= q < rank implies #[trigger] shape@[q] > 0 by {
                lemma_product_zero_iff(out_shape@);
                if shape@[q] == 0 {
                    assert(out_shape@[q] == 0);
                    assert(shape_product(out_shape@) == 0);
                }
            }
        }
        let mut flat_out: usize = 0;
        while flat_out < total
            invariant
                flat_out <= total,
                total as nat == shape_product(out_shape@),
                rank == shape@.len(),
                rank == out_shape@.len(),
                src@ == self.elems(),
                shape@ == self.dims(),
                src@.len() == shape_product(shape@),
                src@.len() <= usize::MAX,
                forall|q: int| 0 <= q < rank ==> #[trigger] shape@[q] > 0,
                data@.len() == flat_out,
                forall|j: int|
                    0 <= j < flat_out ==> #[trigger] data@[j] == src@[flat_index(
                        wrap_coord(coord_of(j as nat, out_shape@), shape@),
                        shape@,
                    ) as int],
            decreases total - flat_out,
        {
            let coord = crate::shape::flat_to_coord(flat_out, out_shape.as_slice());
            let mut in_coord: Vec<usize> = Vec::new();
            let mut q: usize = 0;
            while q < rank
                invariant
                    q <= rank,
                    rank == shape@.len(),
                    coord@.len() == rank,
                    forall|p: int| 0 <= p < rank ==> #[trigger] shape@[p] > 0,
                    in_coord@ == wrap_coord(coord@, shape@).take(q as int),
                decreases rank - q,
            {
                in_coord.push(coord[q] % shape[q]);
                q = q + 1;
                proof {
                    assert(in_coord@ =~= wrap_coord(coord@, shape@).take(q as int));
                }
            }
            proof {
                assert(wrap_coord(coord@, shape@).take(rank as int) =~= wrap_coord(coord@, shape@));
                assert forall|p: int| 0 <= p < rank implies #[trigger] in_coord@[p] < shape@[p] by {
                    assert(in_coord@[p] == (coord@[p] % shape@[p]) as usize);
                }
            }
            let in_flat = match crate::shape::coord_to_flat(in_coord.as_slice(), shape) {
                Some(f) => f,
                None => {
                    proof {
                        assert(false);
                    }
                    0
                },
            };
            data.push(src[in_flat]);
            flat_out = flat_out + 1;
        }
        Ok(Tensor::from_parts_checked(data, out_shape))
    }

    /// Repeats the whole tensor according to `reps`; the arguments must be
    /// acceptable to [`Tensor::try_tile`], its recoverable form.
    pub fn tile(&self, reps: &[usize]) -> (r: Tensor<T>)
        requires
            reps@.len() > 0,
            reps@.len() <= self.dims().len(),
            tile_fits(self.dims(), reps@),
            shape_within_limits(MattenLimits::default_spec(), tile_shape(self.dims(), reps@)),
        ensures
            r.dims() == tile_shape(self.dims(), reps@),
            forall|j: int|
                0 <= j < r.elems().len() ==> #[trigger] r.elems()[j] == self.elems()[flat_index(
                    wrap_coord(coord_of(j as nat, r.dims()), self.dims()),
                    self.dims(),
                ) as int],
    {
        match self.try_tile(reps) {
            Ok(t) => t,
            Err(_) => {
                proof {
                    assert(false);
                }
                self.flatten()
            },
        }
    }

    /// The two coordinate grids of rank-1 `x` (length `m`) and `y` (length
    /// `n`) in NumPy's `xy` indexing: both have shape `[n, m]`; every row of
    /// the first is `x`, and row `i` of the second is `y[i]` repeated.
    ///
    /// Errors: [`MattenError::Shape`] if either input is not rank-1 (a
    /// matrix is rejected, never flattened), and the default-limit errors of
    /// [`MattenLimits::check_shape`].
    pub fn try_meshgrid(x: &Tensor<T>, y: &Tensor<T>) -> (r: Result<(Tensor<T>, Tensor<T>), MattenError>)
        ensures
            r is Ok <==> x.dims().len() == 1 && y.dims().len() == 1 && shape_within_limits(
                MattenLimits::default_spec(),
                seq![y.dims()[0], x.dims()[0]],
            ),
            r matches Ok((gx, gy)) ==> gx.dims() == seq![y.dims()[0], x.dims()[0]] && gy.dims()
                == seq![y.dims()[0], x.dims()[0]] && gx.elems() == crate::layout::repeat_seq(
                x.elems(),
                y.dims()[0] as nat,
            ) && gy.elems() == crate::layout::repeat_blocks(
                y.elems(),
                1,
                y.dims()[0] as nat,
                x.dims()[0] as nat,
            ),
            r matches Err(e) ==> e@ == meshgrid_error(x.dims(), y.dims()),
    {
        let xs = x.shape();
        let ys = y.shape();
        let xd = x.as_slice();
        let yd = y.as_slice();
        if xs.len() != 1 {
            let message = concat2("x must be rank-1, got rank ", decimal(xs.len()).as_str());
            return Err(MattenError::Shape { operation: "meshgrid", message });
        }
        if ys.len() != 1 {
            let message = concat2("y must be rank-1, got rank ", decimal(ys.len()).as_str());
            return Err(MattenError::Shape { operation: "meshgrid", message });
        }
        let m = xs[0];
        let n = ys[0];
        let mut out_shape: Vec<usize> = Vec::new();
        out_shape.push(n);
        out_shape.push(m);
        proof {
            assert(out_shape@ =~= seq![n, m]);
            assert(seq![n, m].drop_last() =~= seq![n]);
            crate::shape::lemma_product_single(n);
            crate::shape::lemma_product_single(m);
            assert(xs@ =~= seq![m]);
            assert(ys@ =~= seq![n]);
            assert(xd@.len() == m);
            assert(yd@.len() == n);
        }
        let limits = MattenLimits::default();
        if let Err(e) = limits.check_shape(out_shape.as_slice(), "meshgrid") {
            return Err(e);
        }
        let mut out_x: Vec<T> = Vec::new();
        let mut out_y: Vec<T> = Vec::new();
        let mut i: usize = 0;
        while i < n
            invariant
                i <= n,
                xd@.len() == m,
                yd@.len() == n,
                out_x@ == crate::layout::repeat_seq(xd@, i as nat),
                out_y@ == crate::layout::repeat_blocks(yd@, 1, i as nat, m as nat),
            decreases n - i,
        {
            let yi = yd[i];
            let mut j: usize = 0;
            let ghost bx = out_x@;
            let ghost by = out_y@;
            proof {
                assert(block(yd@, 1, i as nat) =~= seq![yi]);
            }
            while j < m
                invariant
                    j <= m,
                    xd@.len() == m,
                    out_x@ == bx + xd@.take(j as int),
                    out_y@ == by + crate::layout::repeat_seq(seq![yi], j as nat),
                decreases m - j,
            {
                out_x.push(xd[j]);
                out_y.push(yi);
                j = j + 1;
                proof {
                    assert(out_x@ =~= bx + xd@.take(j as int));
                    assert(out_y@ =~= by + crate::layout::repeat_seq(seq![yi], j as nat));
                }
            }
            proof {
                assert(xd@.take(m as int) =~= xd@);
            }
            i = i + 1;
        }
        proof {
            crate::layout::lemma_repeat_seq_len(xd@, n as nat);
            crate::layout::lemma_repeat_blocks_len(yd@, 1, n as nat, m as nat, n as nat);
            assert((n as nat) * ((m as nat) * 1) == (n as nat) * (m as nat)) by (nonlinear_arith);
            assert((n as nat) * (m as nat) == (m as nat) * (n as nat)) by (nonlinear_arith);
        }
        let out_shape2 = shape_to_vec(out_shape.as_slice());
        Ok((Tensor::from_parts_checked(out_x, out_shape), Tensor::from_parts_checked(out_y, out_shape2)))
    }

    /// The two coordinate grids of rank-1 `x` and `y`; both must be rank-1
    /// and the grid within the default limits ([`Tensor::try_meshgrid`] is
    /// the recoverable form).
    pub fn meshgrid(x: &Tensor<T>, y: &Tensor<T>) -> (r: (Tensor<T>, Tensor<T>))
        requires
            x.dims().len() == 1,
            y.dims().len() == 1,
            shape_within_limits(MattenLimits::default_spec(), seq![y.dims()[0], x.dims()[0]]),
        ensures
            r.0.dims() == seq![y.dims()[0], x.dims()[0]],
            r.1.dims() == seq![y.dims()[0], x.dims()[0]],
            r.0.elems() == crate::layout::repeat_seq(x.elems(), y.dims()[0] as nat),
            r.1.elems() == crate::layout::repeat_blocks(y.elems(), 1, y.dims()[0] as nat, x.dims()[0] as nat),
    {
        match Self::try_meshgrid(x, y) {
            Ok(p) => p,
            Err(_) => {
                proof {
                    assert(false);
                }
                (x.flatten(), y.flatten())
            },
        }
    }
}

/// Whether two shapes are equal.
pub fn shapes_equal(a: &[usize], b: &[usize]) -> (r: bool)
    ensures
        r == (a@ == b@),
{
    if a.len() != b.len() {
        return false;
    }
    let n = a.len();
    let mut i: usize = 0;
    while i < n
        invariant
            i <= n,
            n == a@.len(),
            n == b@.len(),
            forall|k: int| 0 <= k < i ==> #[trigger] a@[k] == b@[k],
        decreases n - i,
    {
        if a[i] != b[i] {
            return false;
        }
        i = i + 1;
    }
    proof {
        assert(a@ =~= b@);
    }
    true
}

} // verus!
