//! Element-wise application, axis reductions and matrix-product planning.
//!
//! The arithmetic itself is supplied by the caller: [`try_apply_binary`]
//! and [`Tensor::map_unchecked`] take the element function as a closure,
//! and [`AxisReduction`] / [`matmul_plan`] decide shapes and positions so
//! that the caller only combines the values they name.

use vstd::prelude::*;
use crate::broadcast::{
    broadcast_budget_error, broadcast_budget_ok, broadcast_compatible, broadcast_result,
    broadcast_shape, max_rank, operand_flat_spec, padded, shape_len, shape_to_vec,
    BroadcastCtx,
};
use crate::error::{ErrorView, MattenError};
use crate::limits::{
    element_limit_error, shape_limit_error, shape_within_limits, MattenLimits, MAX_ELEMENTS,
};
use crate::shape::{
    coord_of, coord_to_flat, flat_index, flat_to_coord, in_bounds, lemma_flat_index_bound,
    lemma_flat_index_coord_of, lemma_prefix_le_product, lemma_product_zero_iff, prefixes_fit,
    shape_product,
};
use crate::tensor::Tensor;
use crate::text::{concat2, decimal, decimal_text, shape_text_spec};

verus! {

/// A shape whose left-to-right products fit in `usize` has a product that
/// fits.
pub proof fn lemma_prefixes_fit_product(s: Seq<usize>)
    requires
        prefixes_fit(s),
    ensures
        shape_product(s) <= usize::MAX,
{
    assert(s.take(s.len() as int) =~= s);
}

/// Applies a binary element function with NumPy-style broadcasting. Result
/// element `i` is `f` of the left and right elements that broadcasting maps
/// position `i` to.
///
/// Errors: [`MattenError::Broadcast`] (carrying both shapes) if the shapes
/// are incompatible; [`MattenError::Allocation`] if the result count
/// overflows or a genuine expansion exceeds the default element budget.
pub fn try_apply_binary<T: Copy, F: Fn(T, T) -> T>(
    lhs: &Tensor<T>,
    rhs: &Tensor<T>,
    operation: &'static str,
    f: F,
) -> (r: Result<Tensor<T>, MattenError>)
    requires
        forall|a: T, b: T| f.requires((a, b)),
    ensures
        r is Ok <==> broadcast_compatible(lhs.dims(), rhs.dims()) && broadcast_budget_ok(
            lhs.dims(),
            rhs.dims(),
            broadcast_result(lhs.dims(), rhs.dims()),
        ),
        r matches Ok(t) ==> {
            let res = broadcast_result(lhs.dims(), rhs.dims());
            let n = max_rank(lhs.dims(), rhs.dims());
            &&& t.dims() == res
            &&& t.elems().len() == shape_product(res)
            &&& forall|i: int|
                0 <= i < t.elems().len() ==> f.ensures(
                    (
                        lhs.elems()[operand_flat_spec(i as nat, res, padded(lhs.dims(), n)) as int],
                        rhs.elems()[operand_flat_spec(i as nat, res, padded(rhs.dims(), n)) as int],
                    ),
                    #[trigger] t.elems()[i],
                )
        },
        r matches Err(e) ==> e@ == (if !broadcast_compatible(lhs.dims(), rhs.dims()) {
            ErrorView::Broadcast { left: lhs.dims(), right: rhs.dims() }
        } else {
            broadcast_budget_error(broadcast_result(lhs.dims(), rhs.dims()))
        }),
{
    let ls = lhs.shape();
    let rs = rhs.shape();
    let ldata = lhs.as_slice();
    let rdata = rhs.as_slice();
    let _ll = ldata.len();
    let _rl = rdata.len();
    let result_shape = match broadcast_shape(ls, rs) {
        Ok(v) => v,
        Err(e) => return Err(e),
    };
    let ctx = match BroadcastCtx::new(ls, rs, result_shape.as_slice()) {
        Ok(c) => c,
        Err(e) => return Err(e),
    };
    let len = ctx.result_len();
    proof {
        lemma_prefixes_fit_product(result_shape@);
        crate::broadcast::lemma_padded_product(ls@, result_shape@.len());
        crate::broadcast::lemma_padded_product(rs@, result_shape@.len());
    }
    let ghost res = result_shape@;
    let ghost n = max_rank(ls@, rs@);
    let mut data: Vec<T> = Vec::new();
    let mut i: usize = 0;
    while i < len
        invariant
            i <= len,
            len as nat == shape_product(res),
            ctx.spec_result_len() == len,
            ctx@ == (res, padded(ls@, res.len()), padded(rs@, res.len())),
            res.len() == n,
            ldata@.len() == shape_product(padded(ls@, res.len())),
            rdata@.len() == shape_product(padded(rs@, res.len())),
            forall|a: T, b: T| f.requires((a, b)),
            data@.len() == i,
            forall|k: int|
                0 <= k < i ==> f.ensures(
                    (
                        ldata@[operand_flat_spec(k as nat, res, padded(ls@, n)) as int],
                        rdata@[operand_flat_spec(k as nat, res, padded(rs@, n)) as int],
                    ),
                    #[trigger] data@[k],
                ),
        decreases len - i,
    {
        let a = ldata[ctx.left_flat(i)];
        let b = rdata[ctx.right_flat(i)];
        let v = f(a, b);
        data.push(v);
        i = i + 1;
    }
    Ok(Tensor::from_parts_checked(data, result_shape))
}

impl<T: Copy> Tensor<T> {
    /// A tensor of the same shape whose element `i` is `f` of element `i`.
    pub fn map_unchecked<U, F: Fn(T) -> U>(&self, f: F) -> (r: Tensor<U>)
        requires
            forall|a: T| f.requires((a,)),
        ensures
            r.dims() == self.dims(),
            r.elems().len() == self.elems().len(),
            forall|i: int|
                0 <= i < self.elems().len() ==> f.ensures((self.elems()[i],), #[trigger] r.elems()[i]),
    {
        let src = self.as_slice();
        let n = src.len();
        let mut data: Vec<U> = Vec::new();
        let mut i: usize = 0;
        while i < n
            invariant
                i <= n,
                n == src@.len(),
                forall|a: T| f.requires((a,)),
                data@.len() == i,
                forall|k: int| 0 <= k < i ==> f.ensures((src@[k],), #[trigger] data@[k]),
            decreases n - i,
        {
            let v = f(src[i]);
            data.push(v);
            i = i + 1;
        }
        Tensor::from_parts_checked(data, shape_to_vec(self.shape()))
    }

    /// The outer product shape and pairing of two rank-1 tensors: element
    /// `(i, j)` of the `[m, n]` result is `f(self[i], other[j])`.
    ///
    /// Errors: [`MattenError::Shape`] if either input is not rank-1, and the
    /// default-limit errors of [`MattenLimits::check_shape`].
    pub fn try_outer_with<U, F: Fn(T, T) -> U>(&self, other: &Tensor<T>, f: F) -> (r: Result<
        Tensor<U>,
        MattenError,
    >)
        requires
            forall|a: T, b: T| f.requires((a, b)),
        ensures
            r is Ok <==> self.dims().len() == 1 && other.dims().len() == 1 && shape_within_limits(
                MattenLimits::default_spec(),
                seq![self.dims()[0], other.dims()[0]],
            ),
            r matches Ok(t) ==> t.dims() == seq![self.dims()[0], other.dims()[0]] && t.elems().len()
                == self.elems().len() * other.elems().len() && forall|i: int, j: int|
                0 <= i < self.elems().len() && 0 <= j < other.elems().len() ==> f.ensures(
                    (self.elems()[i], other.elems()[j]),
                    #[trigger] t.elems()[i * other.elems().len() + j],
                ),
            r matches Err(e) ==> e@ == (if self.dims().len() != 1 || other.dims().len() != 1 {
                ErrorView::Shape {
                    operation: "outer"@,
                    message: "outer requires two rank-1 tensors, got ranks "@ + decimal_text(
                        self.dims().len(),
                    ) + " and "@ + decimal_text(other.dims().len()),
                }
            } else {
                shape_limit_error(
                    MattenLimits::default_spec(),
                    seq![self.dims()[0], other.dims()[0]],
                    "outer"@,
                )
            }),
    {
        let a = self.as_slice();
        let b = other.as_slice();
        let sa = self.shape();
        let sb = other.shape();
        if sa.len() != 1 || sb.len() != 1 {
            let mut message = concat2("outer requires two rank-1 tensors, got ranks ", decimal(sa.len()).as_str());
            message.append(" and ");
            message.append(decimal(sb.len()).as_str());
            return Err(MattenError::Shape { operation: "outer", message });
        }
        let m = sa[0];
        let n = sb[0];
        let mut out_shape: Vec<usize> = Vec::new();
        out_shape.push(m);
        out_shape.push(n);
        proof {
            assert(out_shape@ =~= seq![m, n]);
            assert(seq![m, n].drop_last() =~= seq![m]);
            crate::shape::lemma_product_single(m);
            crate::shape::lemma_product_single(n);
            assert(sa@ =~= seq![m]);
            assert(sb@ =~= seq![n]);
        }
        let limits = MattenLimits::default();
        if let Err(e) = limits.check_shape(out_shape.as_slice(), "outer") {
            return Err(e);
        }
        let mut data: Vec<U> = Vec::new();
        let mut i: usize = 0;
        while i < m
            invariant
                i <= m,
                a@.len() == m,
                b@.len() == n,
                forall|x: T, y: T| f.requires((x, y)),
                data@.len() == (i as nat) * (n as nat),
                forall|p: int, q: int|
                    0 <= p < i && 0 <= q < n ==> f.ensures((a@[p], b@[q]), #[trigger] data@[p * n + q]),
            decreases m - i,
        {
            let mut j: usize = 0;
            let ghost base = data@.len();
            while j < n
                invariant
                    j <= n,
                    i < m,
                    a@.len() == m,
                    b@.len() == n,
                    forall|x: T, y: T| f.requires((x, y)),
                    base == (i as nat) * (n as nat),
                    data@.len() == base + j,
                    forall|p: int, q: int|
                        0 <= p < i && 0 <= q < n ==> f.ensures((a@[p], b@[q]), #[trigger] data@[p * n + q]),
                    forall|q: int| 0 <= q < j ==> f.ensures((a@[i as int], b@[q]), #[trigger] data@[i * n + q]),
                decreases n - j,
            {
                let v = f(a[i], b[j]);
                let ghost old_data = data@;
                data.push(v);
                proof {
                    assert forall|p: int, q: int| 0 <= p < i && 0 <= q < n implies f.ensures(
                        (a@[p], b@[q]),
                        #[trigger] data@[p * n + q],
                    ) by {
                        assert(p * n + q < (i as int) * n) by (nonlinear_arith)
                            requires
                                p < i,
                                q < n,
                        ;
                        assert(old_data[p * n + q] == data@[p * n + q]);
                    }
                    assert(i * n + j == base + j);
                }
                j = j + 1;
            }
            proof {
                assert((i as nat) * (n as nat) + (n as nat) == ((i + 1) as nat) * (n as nat)) by (nonlinear_arith);
                assert forall|p: int, q: int| 0 <= p < i + 1 && 0 <= q < n implies f.ensures(
                    (a@[p], b@[q]),
                    #[trigger] data@[p * n + q],
                ) by {
                    if p == i as int {
                        assert(data@[i * n + q] == data@[p * n + q]);
                    }
                }
            }
            i = i + 1;
        }
        Ok(Tensor::from_parts_checked(data, out_shape))
    }
}

// ---------------------------------------------------------------------------
// Axis reductions
// ---------------------------------------------------------------------------

/// Checks that a whole-tensor statistic has elements to work on: `what`
/// names the statistic in the message ("variance is undefined for an empty
/// tensor").
pub fn check_non_empty(len: usize, operation: &'static str, what: &str) -> (r: Result<(), MattenError>)
    ensures
        r is Ok <==> len > 0,
        r matches Err(e) ==> e@ == (ErrorView::InvalidArgument {
            operation: operation@,
            argument: "self"@,
            message: what@ + " is undefined for an empty tensor"@,
        }),
{
    if len == 0 {
        let message = concat2(what, " is undefined for an empty tensor");
        return Err(MattenError::InvalidArgument { operation, argument: "self", message });
    }
    Ok(())
}

/// The error of a statistic taken along an axis of length `0`.
pub open spec fn empty_axis_error(axis: nat, operation: Seq<char>, what: Seq<char>) -> ErrorView {
    ErrorView::InvalidArgument {
        operation,
        argument: "axis"@,
        message: what + " is undefined for a reduced axis of length 0 (axis "@ + decimal_text(axis)
            + ")"@,
    }
}

/// Checks that a statistic can be taken along `axis` of a tensor of
/// `shape`: the axis exists (else the error of [`check_axis`]) and is not of
/// length `0` (else an [`MattenError::InvalidArgument`] naming the axis;
/// `what` names the statistic, as in "mean is undefined for a reduced axis
/// of length 0 (axis 0)").
pub fn check_reduction_axis(shape: &[usize], axis: usize, operation: &'static str, what: &str) -> (r:
    Result<(), MattenError>)
    ensures
        r is Ok <==> axis < shape@.len() && shape@[axis as int] > 0,
        r matches Err(e) ==> e@ == (if axis >= shape@.len() {
            axis_error(axis as nat, shape@.len(), operation@)
        } else {
            empty_axis_error(axis as nat, operation@, what@)
        }),
{
    if let Err(e) = check_axis(shape.len(), axis, operation) {
        return Err(e);
    }
    if shape[axis] == 0 {
        let mut message = concat2(what, " is undefined for a reduced axis of length 0 (axis ");
        message.append(decimal(axis).as_str());
        message.append(")");
        return Err(MattenError::InvalidArgument { operation, argument: "axis", message });
    }
    Ok(())
}

/// The error of an `axis` that a rank-`ndim` tensor does not have.
pub open spec fn axis_error(axis: nat, ndim: nat, operation: Seq<char>) -> ErrorView {
    ErrorView::Shape {
        operation,
        message: "axis "@ + decimal_text(axis) + " is out of range for a rank-"@ + decimal_text(ndim)
            + " tensor"@,
    }
}

/// The error of a reduction plan that [`AxisReduction::new`] refuses.
pub open spec fn reduction_error(src: Seq<usize>, axis: int, operation: Seq<char>) -> ErrorView {
    let out = src.remove(axis);
    if !(0 <= axis < src.len()) {
        axis_error(axis as nat, src.len(), operation)
    } else if !prefixes_fit(out) {
        ErrorView::Allocation {
            requested_elements: usize::MAX as nat,
            message: operation + " output shape "@ + shape_text_spec(out)
                + " overflows usize when computing the element count"@,
        }
    } else {
        element_limit_error(shape_product(out), MAX_ELEMENTS as nat, operation)
    }
}

/// Checks that `axis` is an axis of a rank-`ndim` tensor, returning
/// [`MattenError::Shape`] otherwise.
pub fn check_axis(ndim: usize, axis: usize, operation: &'static str) -> (r: Result<(), MattenError>)
    ensures
        r is Ok <==> axis < ndim,
        r matches Err(e) ==> e@ == axis_error(axis as nat, ndim as nat, operation@),
{
    if axis >= ndim {
        let mut message = concat2("axis ", decimal(axis).as_str());
        message.append(" is out of range for a rank-");
        message.append(decimal(ndim).as_str());
        message.append(" tensor");
        return Err(MattenError::Shape { operation, message });
    }
    Ok(())
}

/// The plan of a reduction along one axis: the output shape (the input
/// shape without `axis`) and, for each input position, the output position
/// it is folded into (its coordinate with the `axis` component dropped).
pub struct AxisReduction {
    src_shape: Vec<usize>,
    out_shape: Vec<usize>,
    axis: usize,
    out_len: usize,
}

/// The reduction output is acceptable: its count is computable and, when a
/// zero-length reduced axis makes it larger than the input, it stays within
/// the default element budget.
pub open spec fn reduction_budget_ok(src: Seq<usize>, axis: int) -> bool {
    let out = src.remove(axis);
    &&& prefixes_fit(out)
    &&& prefixes_fit(src) && shape_product(out) > shape_product(src) ==> shape_product(out)
        <= MattenLimits::default_spec().max_elements
}

/// The lane of `data` (laid out in shape `src`) that a reduction along
/// `axis` folds into output position `o` of shape `out`: its elements in
/// order along the axis.
pub open spec fn lane_of<T>(data: Seq<T>, src: Seq<usize>, out: Seq<usize>, axis: int, o: nat) -> Seq<T> {
    Seq::new(
        src[axis] as nat,
        |k: int| data[flat_index(coord_of(o, out).insert(axis, k as usize), src) as int],
    )
}

/// `r` is what folding `lane` from `init` with `f`, left to right, may give:
/// there is a chain of accumulators from `init` to `r` in which each step is
/// a result of `f` on the previous accumulator and the next lane element.
pub open spec fn is_left_fold<T, F: Fn(T, T) -> T>(f: F, init: T, lane: Seq<T>, r: T) -> bool {
    exists|accs: Seq<T>|
        #![trigger accs.len()]
        accs.len() == lane.len() + 1 && accs[0] == init && accs[lane.len() as int] == r && forall|
            k: int,
        | 0 <= k < lane.len() ==> #[trigger] f.ensures((accs[k], lane[k]), accs[k + 1])
}

impl View for AxisReduction {
    /// `(input shape, output shape, axis)`.
    type V = (Seq<usize>, Seq<usize>, nat);

    closed spec fn view(&self) -> (Seq<usize>, Seq<usize>, nat) {
        (self.src_shape@, self.out_shape@, self.axis as nat)
    }
}

impl AxisReduction {
    #[verifier::type_invariant]
    spec fn wf(self) -> bool {
        &&& self.axis < self.src_shape@.len()
        &&& self.out_shape@ == self.src_shape@.remove(self.axis as int)
        &&& self.out_len as nat == shape_product(self.out_shape@)
    }

    /// Plans a reduction of a tensor of `shape` along `axis`.
    ///
    /// Errors: [`MattenError::Shape`] if `axis` is not an axis;
    /// [`MattenError::Allocation`] if the output count overflows or a
    /// zero-length reduced axis would make an output larger than the input
    /// and above the default element budget.
    pub fn new(shape: &[usize], axis: usize, operation: &'static str) -> (r: Result<Self, MattenError>)
        ensures
            r is Ok <==> axis < shape@.len() && reduction_budget_ok(shape@, axis as int),
            r matches Ok(p) ==> p@ == (shape@, shape@.remove(axis as int), axis as nat),
            r matches Err(e) ==> e@ == reduction_error(shape@, axis as int, operation@),
    {
        if let Err(e) = check_axis(shape.len(), axis, operation) {
            return Err(e);
        }
        let src_shape = shape_to_vec(shape);
        let mut out_shape = shape_to_vec(shape);
        out_shape.remove(axis);
        let out_len = match shape_len(out_shape.as_slice()) {
            Some(n) => n,
            None => {
                let mut message = concat2(operation, " output shape ");
                message.append(crate::text::shape_text(out_shape.as_slice()).as_str());
                message.append(" overflows usize when computing the element count");
                return Err(MattenError::Allocation { requested_elements: usize::MAX, message });
            },
        };
        let src_len = shape_len(shape);
        let expands = match src_len {
            Some(s) => out_len > s,
            None => false,
        };
        if expands {
            let limits = MattenLimits::default();
            if let Err(e) = limits.check_elements(out_len, operation) {
                return Err(e);
            }
        }
        Ok(AxisReduction { src_shape, out_shape, axis, out_len })
    }

    /// The output element count.
    pub fn out_len(&self) -> (r: usize)
        ensures
            r as nat == shape_product(self@.1),
    {
        proof {
            use_type_invariant(self);
        }
        self.out_len
    }

    /// The output shape: the input shape without the reduced axis.
    pub fn out_shape(&self) -> (r: Vec<usize>)
        ensures
            r@ == self@.1,
            r@ == self@.0.remove(self@.2 as int),
    {
        proof {
            use_type_invariant(self);
        }
        shape_to_vec(self.out_shape.as_slice())
    }

    /// The output position that input position `src_flat` is folded into.
    pub fn dst_flat(&self, src_flat: usize) -> (r: usize)
        requires
            (src_flat as nat) < shape_product(self@.0),
        ensures
            r as nat == flat_index(
                coord_of(src_flat as nat, self@.0).remove(self@.2 as int),
                self@.1,
            ),
            (r as nat) < shape_product(self@.1),
    {
        proof {
            use_type_invariant(self);
        }
        let mut coord = flat_to_coord(src_flat, self.src_shape.as_slice());
        let ghost full = coord@;
        coord.remove(self.axis);
        proof {
            let out = self.out_shape@;
            let src = self.src_shape@;
            let ax = self.axis as int;
            assert forall|k: int| 0 <= k < coord@.len() implies #[trigger] coord@[k] < out[k] by {
                if k < ax {
                    assert(coord@[k] == full[k]);
                    assert(out[k] == src[k]);
                } else {
                    assert(coord@[k] == full[k + 1]);
                    assert(out[k] == src[k + 1]);
                }
            }
            assert(in_bounds(coord@, out));
            lemma_flat_index_bound(coord@, out);
            assert(shape_product(out) <= usize::MAX);
        }
        match coord_to_flat(coord.as_slice(), self.out_shape.as_slice()) {
            Some(f) => f,
            None => {
                proof {
                    assert(false);
                }
                0
            },
        }
    }

    /// Folds each lane of `data` (laid out in the planned input shape) from
    /// `init` with `f`, left to right along the reduced axis, giving one value
    /// per output position in row-major order.
    pub fn fold_lanes<T: Copy, F: Fn(T, T) -> T>(&self, data: &[T], init: T, f: F) -> (r: Vec<T>)
        requires
            data@.len() == shape_product(self@.0),
            shape_product(self@.0) <= usize::MAX,
            forall|a: T, b: T| f.requires((a, b)),
        ensures
            r@.len() == shape_product(self@.1),
            forall|o: int|
                0 <= o < r@.len() ==> is_left_fold(
                    f,
                    init,
                    lane_of(data@, self@.0, self@.1, self@.2 as int, o as nat),
                    #[trigger] r@[o],
                ),
    {
        proof {
            use_type_invariant(self);
        }
        let n_out = self.out_len;
        let m = self.src_shape[self.axis];
        let mut out: Vec<T> = Vec::new();
        let mut o: usize = 0;
        while o < n_out
            invariant
                o <= n_out,
                n_out as nat == shape_product(self@.1),
                m == self@.0[self@.2 as int],
                self@.2 < self@.0.len(),
                data@.len() == shape_product(self@.0),
                shape_product(self@.0) <= usize::MAX,
                forall|a: T, b: T| f.requires((a, b)),
                out@.len() == o,
                forall|q: int|
                    0 <= q < o ==> is_left_fold(
                        f,
                        init,
                        lane_of(data@, self@.0, self@.1, self@.2 as int, q as nat),
                        #[trigger] out@[q],
                    ),
            decreases n_out - o,
        {
            let ghost lane = lane_of(data@, self@.0, self@.1, self@.2 as int, o as nat);
            let mut acc = init;
            let ghost mut accs: Seq<T> = seq![init];
            let mut k: usize = 0;
            while k < m
                invariant
                    k <= m,
                    o < n_out,
                    n_out as nat == shape_product(self@.1),
                    m == self@.0[self@.2 as int],
                    lane == lane_of(data@, self@.0, self@.1, self@.2 as int, o as nat),
                    lane.len() == m,
                    data@.len() == shape_product(self@.0),
                    shape_product(self@.0) <= usize::MAX,
                    forall|a: T, b: T| f.requires((a, b)),
                    accs.len() == k + 1,
                    accs[0] == init,
                    accs[k as int] == acc,
                    forall|j: int| 0 <= j < k ==> #[trigger] f.ensures((accs[j], lane[j]), accs[j + 1]),
                decreases m - k,
            {
                let pos = self.lane_position(o, k);
                let v = data[pos];
                assert(v == lane[k as int]);
                let next = f(acc, v);
                proof {
                    accs = accs.push(next);
                }
                acc = next;
                k = k + 1;
            }
            proof {
                assert(is_left_fold(f, init, lane, acc));
            }
            out.push(acc);
            o = o + 1;
        }
        out
    }

    /// The input position of the `k`-th element, along the reduced axis, of
    /// the lane folded into output position `out_flat`.
    pub fn lane_position(&self, out_flat: usize, k: usize) -> (r: usize)
        requires
            (out_flat as nat) < shape_product(self@.1),
            k < self@.0[self@.2 as int],
            shape_product(self@.0) <= usize::MAX,
        ensures
            r as nat == flat_index(coord_of(out_flat as nat, self@.1).insert(self@.2 as int, k), self@.0),
            (r as nat) < shape_product(self@.0),
    {
        proof {
            use_type_invariant(self);
        }
        let mut coord = flat_to_coord(out_flat, self.out_shape.as_slice());
        let ghost part = coord@;
        coord.insert(self.axis, k);
        proof {
            let out = self.out_shape@;
            let src = self.src_shape@;
            let ax = self.axis as int;
            assert forall|j: int| 0 <= j < coord@.len() implies #[trigger] coord@[j] < src[j] by {
                if j < ax {
                    assert(coord@[j] == part[j]);
                    assert(out[j] == src[j]);
                } else if j == ax {
                    assert(coord@[j] == k);
                } else {
                    assert(coord@[j] == part[j - 1]);
                    assert(out[j - 1] == src[j]);
                }
            }
            assert(in_bounds(coord@, src));
            lemma_flat_index_bound(coord@, src);
        }
        match coord_to_flat(coord.as_slice(), self.src_shape.as_slice()) {
            Some(f) => f,
            None => {
                proof {
                    assert(false);
                }
                0
            },
        }
    }
}

// ---------------------------------------------------------------------------
// Matrix products
// ---------------------------------------------------------------------------

/// The four supported operand-rank combinations of a matrix product.
#[derive(Debug, Clone, Copy, PartialEq, Eq, Structural)]
pub enum MatmulKind {
    /// `[n] · [n] -> []`.
    VectorVector,
    /// `[m, n] × [n] -> [m]`.
    MatrixVector,
    /// `[n] × [n, p] -> [p]`.
    VectorMatrix,
    /// `[m, n] × [n, p] -> [m, p]`.
    MatrixMatrix,
}

/// A validated matrix product: the operand form and the dimensions `m`
/// (result rows), `n` (contracted length) and `p` (result columns), with
/// `m == 1` or `p == 1` where the operand is a vector.
#[derive(Debug, Clone, Copy, PartialEq, Eq, Structural)]
pub struct MatmulPlan {
    /// The operand form.
    pub kind: MatmulKind,
    /// Result rows (`1` for a vector left operand).
    pub m: usize,
    /// The contracted length.
    pub n: usize,
    /// Result columns (`1` for a vector right operand).
    pub p: usize,
}

/// The plan of a matrix product of shapes `l` and `r`, when the ranks and
/// the contracted dimensions agree.
pub open spec fn matmul_spec(l: Seq<usize>, r: Seq<usize>) -> Option<MatmulPlan> {
    if l.len() == 1 && r.len() == 1 && l[0] == r[0] {
        Some(MatmulPlan { kind: MatmulKind::VectorVector, m: 1, n: l[0], p: 1 })
    } else if l.len() == 2 && r.len() == 1 && l[1] == r[0] {
        Some(MatmulPlan { kind: MatmulKind::MatrixVector, m: l[0], n: l[1], p: 1 })
    } else if l.len() == 1 && r.len() == 2 && l[0] == r[0] {
        Some(MatmulPlan { kind: MatmulKind::VectorMatrix, m: 1, n: l[0], p: r[1] })
    } else if l.len() == 2 && r.len() == 2 && l[1] == r[0] {
        Some(MatmulPlan { kind: MatmulKind::MatrixMatrix, m: l[0], n: l[1], p: r[1] })
    } else {
        None
    }
}

/// The result shape of a planned product.
pub open spec fn matmul_out_shape(plan: MatmulPlan) -> Seq<usize> {
    match plan.kind {
        MatmulKind::VectorVector => Seq::empty(),
        MatmulKind::MatrixVector => seq![plan.m],
        MatmulKind::VectorMatrix => seq![plan.p],
        MatmulKind::MatrixMatrix => seq![plan.m, plan.p],
    }
}

/// The product's output passes the allocation budget: `m * p` fits, and if
/// it exceeds both operands together it stays within the default element
/// budget.
pub open spec fn matmul_budget_ok(l: Seq<usize>, r: Seq<usize>, plan: MatmulPlan) -> bool {
    &&& plan.m * plan.p <= usize::MAX
    &&& plan.m * plan.p > shape_product(l) + shape_product(r) ==> plan.m * plan.p
        <= MattenLimits::default_spec().max_elements
}

impl MatmulPlan {
    /// The result shape: `[]`, `[m]`, `[p]` or `[m, p]`.
    pub fn out_shape(&self) -> (r: Vec<usize>)
        ensures
            r@ == matmul_out_shape(*self),
    {
        let mut v: Vec<usize> = Vec::new();
        match self.kind {
            MatmulKind::VectorVector => {},
            MatmulKind::MatrixVector => {
                v.push(self.m);
            },
            MatmulKind::VectorMatrix => {
                v.push(self.p);
            },
            MatmulKind::MatrixMatrix => {
                v.push(self.m);
                v.push(self.p);
            },
        }
        proof {
            assert(v@ =~= matmul_out_shape(*self));
        }
        v
    }
}

/// The error of two matrix-product dimensions that must agree.
pub open spec fn dim_mismatch_error(
    left: nat,
    right: nat,
    left_name: Seq<char>,
    right_name: Seq<char>,
    operation: Seq<char>,
) -> ErrorView {
    ErrorView::Shape {
        operation,
        message: left_name + " ("@ + decimal_text(left) + ") must equal "@ + right_name + " ("@
            + decimal_text(right) + ")"@,
    }
}

/// The error of a matrix product that [`matmul_plan`] refuses.
pub open spec fn matmul_error(l: Seq<usize>, r: Seq<usize>, operation: Seq<char>) -> ErrorView {
    if l.len() == 1 && r.len() == 1 && l[0] != r[0] {
        ErrorView::Shape {
            operation,
            message: operation + ": vector lengths must match (left "@ + decimal_text(l[0] as nat)
                + ", right "@ + decimal_text(r[0] as nat) + ")"@,
        }
    } else if l.len() == 2 && r.len() == 1 && l[1] != r[0] {
        dim_mismatch_error(l[1] as nat, r[0] as nat, "left columns"@, "right length"@, operation)
    } else if l.len() == 1 && r.len() == 2 && l[0] != r[0] {
        dim_mismatch_error(l[0] as nat, r[0] as nat, "left length"@, "right rows"@, operation)
    } else if l.len() == 2 && r.len() == 2 && l[1] != r[0] {
        dim_mismatch_error(l[1] as nat, r[0] as nat, "left columns"@, "right rows"@, operation)
    } else if matmul_spec(l, r) is None {
        ErrorView::Shape {
            operation,
            message: "unsupported rank combination (left rank "@ + decimal_text(l.len())
                + ", right rank "@ + decimal_text(r.len())
                + "); supported: [n]x[n], [m,n]x[n], [n]x[n,p], [m,n]x[n,p]"@,
        }
    } else {
        let plan = matmul_spec(l, r)->0;
        if plan.m * plan.p > usize::MAX {
            ErrorView::Allocation {
                requested_elements: usize::MAX as nat,
                message: operation + " result size overflows usize"@,
            }
        } else {
            element_limit_error((plan.m * plan.p) as nat, MAX_ELEMENTS as nat, operation)
        }
    }
}

/// Law: a matrix product contracts the last axis of the left operand with
/// the first axis of the right one. The plan's contracted length is the
/// left operand's last dimension (which equals the right operand's first);
/// its result rows are the left operand's rows (`1` for a vector) and its
/// result columns the right operand's columns (`1` for a vector); and the
/// result shape is the left shape without its last axis followed by the
/// right shape without its first.
pub proof fn lemma_matmul_contracts_inner_axes(l: Seq<usize>, r: Seq<usize>)
    requires
        matmul_spec(l, r) is Some,
    ensures
        ({
            let p = matmul_spec(l, r)->0;
            &&& 1 <= l.len() <= 2
            &&& 1 <= r.len() <= 2
            &&& p.n == l[l.len() - 1]
            &&& p.n == r[0]
            &&& p.m == (if l.len() == 2 { l[0] } else { 1 })
            &&& p.p == (if r.len() == 2 { r[1] } else { 1 })
            &&& matmul_out_shape(p) == l.drop_last() + r.skip(1)
        }),
{
    let p = matmul_spec(l, r)->0;
    if l.len() == 1 && r.len() == 1 {
        assert(l.drop_last() + r.skip(1) =~= Seq::<usize>::empty());
    } else if l.len() == 2 && r.len() == 1 {
        assert(l.drop_last() + r.skip(1) =~= seq![l[0]]);
    } else if l.len() == 1 && r.len() == 2 {
        assert(l.drop_last() + r.skip(1) =~= seq![r[1]]);
    } else {
        assert(l.drop_last() + r.skip(1) =~= seq![l[0], r[1]]);
    }
}

/// Validates a matrix product of shapes `lhs` and `rhs` and returns its
/// plan.
///
/// Errors: [`MattenError::Shape`] for an unsupported rank combination or a
/// contracted-dimension mismatch; [`MattenError::Allocation`] if the result
/// count overflows or exceeds the default budget while larger than both
/// operands together.
pub fn matmul_plan(lhs: &[usize], rhs: &[usize], operation: &'static str) -> (r: Result<
    MatmulPlan,
    MattenError,
>)
    requires
        shape_product(lhs@) <= usize::MAX,
        shape_product(rhs@) <= usize::MAX,
    ensures
        r is Ok <==> matmul_spec(lhs@, rhs@) is Some && matmul_budget_ok(
            lhs@,
            rhs@,
            matmul_spec(lhs@, rhs@)->0,
        ),
        r matches Ok(p) ==> Some(p) == matmul_spec(lhs@, rhs@),
        r matches Ok(p) ==> p.n == lhs@[lhs@.len() - 1] && p.n == rhs@[0] && p.m == (if lhs@.len()
            == 2 {
            lhs@[0]
        } else {
            1
        }) && p.p == (if rhs@.len() == 2 {
            rhs@[1]
        } else {
            1
        }) && matmul_out_shape(p) == lhs@.drop_last() + rhs@.skip(1),
        r matches Err(e) ==> e@ == matmul_error(lhs@, rhs@, operation@),
{
    let plan = if lhs.len() == 1 && rhs.len() == 1 {
        if lhs[0] != rhs[0] {
            let mut message = concat2(operation, ": vector lengths must match (left ");
            message.append(decimal(lhs[0]).as_str());
            message.append(", right ");
            message.append(decimal(rhs[0]).as_str());
            message.append(")");
            return Err(MattenError::Shape { operation, message });
        }
        MatmulPlan { kind: MatmulKind::VectorVector, m: 1, n: lhs[0], p: 1 }
    } else if lhs.len() == 2 && rhs.len() == 1 {
        if lhs[1] != rhs[0] {
            return Err(dim_mismatch(lhs[1], rhs[0], "left columns", "right length", operation));
        }
        MatmulPlan { kind: MatmulKind::MatrixVector, m: lhs[0], n: lhs[1], p: 1 }
    } else if lhs.len() == 1 && rhs.len() == 2 {
        if lhs[0] != rhs[0] {
            return Err(dim_mismatch(lhs[0], rhs[0], "left length", "right rows", operation));
        }
        MatmulPlan { kind: MatmulKind::VectorMatrix, m: 1, n: lhs[0], p: rhs[1] }
    } else if lhs.len() == 2 && rhs.len() == 2 {
        if lhs[1] != rhs[0] {
            return Err(dim_mismatch(lhs[1], rhs[0], "left columns", "right rows", operation));
        }
        MatmulPlan { kind: MatmulKind::MatrixMatrix, m: lhs[0], n: lhs[1], p: rhs[1] }
    } else {
        let mut message = concat2("unsupported rank combination (left rank ", decimal(lhs.len()).as_str());
        message.append(", right rank ");
        message.append(decimal(rhs.len()).as_str());
        message.append("); supported: [n]x[n], [m,n]x[n], [n]x[n,p], [m,n]x[n,p]");
        return Err(MattenError::Shape { operation, message });
    };
    let out_len = match plan.m.checked_mul(plan.p) {
        Some(v) => v,
        None => {
            let message = concat2(operation, " result size overflows usize");
            return Err(MattenError::Allocation { requested_elements: usize::MAX, message });
        },
    };
    let ll = match shape_len(lhs) {
        Some(v) => v,
        None => 0,
    };
    let rl = match shape_len(rhs) {
        Some(v) => v,
        None => 0,
    };
    proof {
        lemma_shape_len_small(lhs@);
        lemma_shape_len_small(rhs@);
    }
    let expands = match ll.checked_add(rl) {
        Some(c) => out_len > c,
        None => false,
    };
    if expands {
        let limits = MattenLimits::default();
        if let Err(e) = limits.check_elements(out_len, operation) {
            return Err(e);
        }
    }
    proof {
        lemma_matmul_contracts_inner_axes(lhs@, rhs@);
    }
    Ok(plan)
}

/// A shape with a representable product whose prefix products overflow has
/// product zero.
proof fn lemma_shape_len_small(s: Seq<usize>)
    requires
        shape_product(s) <= usize::MAX,
    ensures
        !prefixes_fit(s) ==> shape_product(s) == 0,
{
    if !prefixes_fit(s) && shape_product(s) > 0 {
        lemma_product_zero_iff(s);
        let i = choose|i: int| 0 <= i <= s.len() && !(#[trigger] shape_product(s.take(i)) <= usize::MAX);
        assert forall|k: int| 0 <= k < s.len() implies #[trigger] s[k] > 0 by {
            if s[k] == 0 {
                assert(shape_product(s) == 0);
            }
        }
        lemma_prefix_le_product(s, i);
    }
}

/// The "dimensions must agree" error of a matrix product.
pub fn dim_check(left: usize, right: usize, left_name: &str, right_name: &str, operation: &'static str) -> (r:
    Result<(), MattenError>)
    ensures
        r is Ok <==> left == right,
        r matches Err(e) ==> e@ == dim_mismatch_error(
            left as nat,
            right as nat,
            left_name@,
            right_name@,
            operation@,
        ),
{
    if left != right {
        return Err(dim_mismatch(left, right, left_name, right_name, operation));
    }
    Ok(())
}

fn dim_mismatch(left: usize, right: usize, left_name: &str, right_name: &str, operation: &'static str) -> (e:
    MattenError)
    ensures
        e@ == dim_mismatch_error(left as nat, right as nat, left_name@, right_name@, operation@),
{
    let mut message = concat2(left_name, " (");
    message.append(decimal(left).as_str());
    message.append(") must equal ");
    message.append(right_name);
    message.append(" (");
    message.append(decimal(right).as_str());
    message.append(")");
    MattenError::Shape { operation, message }
}

/// The flat positions of the diagonal of a rank-2 shape `[rows, cols]`:
/// `i * cols + i` for `i < min(rows, cols)`. Any other rank is a
/// [`MattenError::Shape`].
pub fn diagonal_positions(shape: &[usize]) -> (r: Result<Vec<usize>, MattenError>)
    requires
        shape_product(shape@) <= usize::MAX,
    ensures
        r is Ok <==> shape@.len() == 2,
        r matches Ok(v) ==> {
            let k = if shape@[0] <= shape@[1] {
                shape@[0]
            } else {
                shape@[1]
            };
            &&& v@.len() == k
            &&& forall|i: int| 0 <= i < k ==> #[trigger] v@[i] == i * shape@[1] + i
            &&& forall|i: int| 0 <= i < k ==> v@[i] < shape_product(shape@)
        },
        r matches Err(e) ==> e@ == (ErrorView::Shape {
            operation: "trace"@,
            message: "trace requires a rank-2 tensor, got rank "@ + decimal_text(shape@.len()),
        }),
{
    if shape.len() != 2 {
        let message = concat2("trace requires a rank-2 tensor, got rank ", decimal(shape.len()).as_str());
        return Err(MattenError::Shape { operation: "trace", message });
    }
    let rows = shape[0];
    let cols = shape[1];
    let k = if rows <= cols {
        rows
    } else {
        cols
    };
    proof {
        assert(shape@.drop_last() =~= seq![rows]);
        crate::shape::lemma_product_single(rows);
        assert(shape_product(shape@) == (rows as nat) * (cols as nat));
    }
    let mut v: Vec<usize> = Vec::new();
    let mut i: usize = 0;
    while i < k
        invariant
            i <= k,
            k <= rows,
            k <= cols,
            (rows as nat) * (cols as nat) <= usize::MAX,
            v@.len() == i,
            forall|q: int| 0 <= q < i ==> #[trigger] v@[q] == q * cols + q,
            forall|q: int| 0 <= q < i ==> v@[q] < (rows as nat) * (cols as nat),
        decreases k - i,
    {
        proof {
            assert((i as nat) * (cols as nat) + (i as nat) < (rows as nat) * (cols as nat)) by (nonlinear_arith)
                requires
                    i < k,
                    k <= rows,
                    k <= cols,
            ;
        }
        v.push(i * cols + i);
        i = i + 1;
    }
    Ok(v)
}

} // verus!
