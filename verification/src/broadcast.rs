//! Broadcasting: result-shape computation and index mapping.
//!
//! Rules (right-aligned, NumPy-style): equal dimensions are compatible; a
//! dimension equal to `1` broadcasts to the other; a missing leading
//! dimension is treated as `1`. Incompatible pairs produce
//! [`MattenError::Broadcast`].

use vstd::prelude::*;
use crate::error::{error_text_fits, ErrorView, MattenError};
use crate::limits::{element_limit_error, MattenLimits, MAX_ELEMENTS};
use crate::shape::{
    prefixes_fit, coord_of, coord_to_flat, flat_index, flat_to_coord, in_bounds, lemma_flat_index_bound,
    lemma_flat_index_coord_of, lemma_product_concat, shape_product,
};
use crate::text::{concat2, concat3, shape_text, shape_text_spec};

verus! {

/// The larger of two ranks.
pub open spec fn max_rank(l: Seq<usize>, r: Seq<usize>) -> nat {
    if l.len() >= r.len() {
        l.len()
    } else {
        r.len()
    }
}

/// `s` padded on the left with `1`s to rank `rank` (`rank >= s.len()`).
pub open spec fn padded(s: Seq<usize>, rank: nat) -> Seq<usize> {
    Seq::new(
        rank,
        |k: int|
            if k < rank - s.len() {
                1usize
            } else {
                s[k - (rank - s.len())]
            },
    )
}

/// Two aligned dimensions can be broadcast together.
pub open spec fn dims_compatible(a: usize, b: usize) -> bool {
    a == b || a == 1 || b == 1
}

/// The two shapes can be broadcast together.
pub open spec fn broadcast_compatible(l: Seq<usize>, r: Seq<usize>) -> bool {
    forall|k: int|
        0 <= k < max_rank(l, r) ==> #[trigger] dims_compatible(
            padded(l, max_rank(l, r))[k],
            padded(r, max_rank(l, r))[k],
        )
}

/// The broadcast result dimension for a pair of aligned dimensions.
pub open spec fn broadcast_dim(a: usize, b: usize) -> usize {
    if a == b {
        a
    } else if a == 1 {
        b
    } else {
        a
    }
}

/// The broadcast result shape of two compatible shapes.
pub open spec fn broadcast_result(l: Seq<usize>, r: Seq<usize>) -> Seq<usize> {
    let n = max_rank(l, r);
    let lp = padded(l, n);
    let rp = padded(r, n);
    Seq::new(n, |k: int| broadcast_dim(lp[k], rp[k]))
}

/// The operand coordinate read for a result coordinate: a broadcast axis
/// (operand dimension `1`) always reads position `0`.
pub open spec fn operand_coord(result_coord: Seq<usize>, operand: Seq<usize>) -> Seq<usize> {
    Seq::new(operand.len(), |k: int| if operand[k] == 1 { 0usize } else { result_coord[k] })
}

/// The flat operand position read for flat result position `i`.
pub open spec fn operand_flat_spec(i: nat, result: Seq<usize>, operand: Seq<usize>) -> nat {
    flat_index(operand_coord(coord_of(i, result), operand), operand)
}

/// `operand` (already padded to the result rank) broadcasts to `result`.
pub open spec fn broadcasts_to(operand: Seq<usize>, result: Seq<usize>) -> bool {
    &&& operand.len() == result.len()
    &&& forall|k: int| 0 <= k < operand.len() ==> #[trigger] operand[k] == 1 || operand[k] == result[k]
}

/// Padding with leading `1`s keeps the element count.
pub proof fn lemma_padded_product(s: Seq<usize>, rank: nat)
    requires
        rank >= s.len(),
    ensures
        shape_product(padded(s, rank)) == shape_product(s),
{
    let ones = Seq::new((rank - s.len()) as nat, |k: int| 1usize);
    assert(padded(s, rank) =~= ones + s);
    lemma_product_concat(ones, s);
    lemma_product_of_ones(ones);
    assert(shape_product(ones + s) == shape_product(ones) * shape_product(s));
    assert(shape_product(ones) * shape_product(s) == shape_product(s));
}

proof fn lemma_product_of_ones(s: Seq<usize>)
    requires
        forall|k: int| 0 <= k < s.len() ==> #[trigger] s[k] == 1,
    ensures
        shape_product(s) == 1,
    decreases s.len(),
{
    if s.len() > 0 {
        lemma_product_of_ones(s.drop_last());
        assert(s.last() == 1);
    }
}

/// Both operands of a compatible pair broadcast to the result shape.
pub proof fn lemma_operands_broadcast_to_result(l: Seq<usize>, r: Seq<usize>)
    requires
        broadcast_compatible(l, r),
    ensures
        broadcasts_to(padded(l, max_rank(l, r)), broadcast_result(l, r)),
        broadcasts_to(padded(r, max_rank(l, r)), broadcast_result(l, r)),
{
    let n = max_rank(l, r);
    let lp = padded(l, n);
    let rp = padded(r, n);
    let res = broadcast_result(l, r);
    assert forall|k: int| 0 <= k < n implies #[trigger] lp[k] == 1 || lp[k] == res[k] by {
        assert(dims_compatible(lp[k], rp[k]));
    }
    assert forall|k: int| 0 <= k < n implies #[trigger] rp[k] == 1 || rp[k] == res[k] by {
        assert(dims_compatible(lp[k], rp[k]));
    }
}

/// The operand position read for an in-range result position is in range
/// for the operand.
pub proof fn lemma_operand_flat_in_range(i: nat, result: Seq<usize>, operand: Seq<usize>)
    requires
        i < shape_product(result),
        broadcasts_to(operand, result),
    ensures
        in_bounds(operand_coord(coord_of(i, result), operand), operand),
        operand_flat_spec(i, result, operand) < shape_product(operand),
{
    lemma_flat_index_coord_of(i, result);
    let rc = coord_of(i, result);
    let oc = operand_coord(rc, operand);
    assert forall|k: int| 0 <= k < oc.len() implies #[trigger] oc[k] < operand[k] by {
        assert(rc[k] < result[k]);
        assert(operand[k] == 1 || operand[k] == result[k]);
    }
    lemma_flat_index_bound(oc, operand);
}

/// Law: broadcasting is symmetric. Two shapes are compatible in either
/// order, and the result shape does not depend on the order.
pub proof fn lemma_broadcast_symmetric(l: Seq<usize>, r: Seq<usize>)
    ensures
        broadcast_compatible(l, r) == broadcast_compatible(r, l),
        broadcast_compatible(l, r) ==> broadcast_result(l, r) == broadcast_result(r, l),
{
    let n = max_rank(l, r);
    assert(max_rank(r, l) == n);
    if broadcast_compatible(l, r) {
        let a = broadcast_result(l, r);
        let b = broadcast_result(r, l);
        assert forall|k: int| 0 <= k < n implies #[trigger] a[k] == b[k] by {
            let x = padded(l, n)[k];
            let y = padded(r, n)[k];
            assert(dims_compatible(x, y));
        }
        assert(a =~= b);
    }
    assert(broadcast_compatible(l, r) ==> broadcast_compatible(r, l)) by {
        if broadcast_compatible(l, r) {
            assert forall|k: int| 0 <= k < n implies #[trigger] dims_compatible(
                padded(r, n)[k],
                padded(l, n)[k],
            ) by {
                assert(dims_compatible(padded(l, n)[k], padded(r, n)[k]));
            }
        }
    }
    assert(broadcast_compatible(r, l) ==> broadcast_compatible(l, r)) by {
        if broadcast_compatible(r, l) {
            assert forall|k: int| 0 <= k < n implies #[trigger] dims_compatible(
                padded(l, n)[k],
                padded(r, n)[k],
            ) by {
                assert(dims_compatible(padded(r, n)[k], padded(l, n)[k]));
            }
        }
    }
}

/// The `j`-th dimension of `s` counted from the right, `1` where `s` has
/// fewer than `j + 1` axes.
pub open spec fn dim_from_right(s: Seq<usize>, j: int) -> usize {
    if j < s.len() {
        s[s.len() - 1 - j]
    } else {
        1usize
    }
}

/// `d` is how broadcasting combines the aligned dimensions `a` and `b`:
/// they agree or one of them is `1`, and `d` is the one that is not `1`
/// (either, where they agree).
pub open spec fn aligned_combination(d: usize, a: usize, b: usize) -> bool {
    &&& a == 1 || b == 1 || a == b
    &&& d == (if a == 1 {
        b
    } else {
        a
    })
}

/// Law: broadcasting aligns the shapes on the right. The result has the
/// larger rank, and its `j`-th dimension counted from the right combines
/// the operands' `j`-th dimensions counted from the right (a missing one
/// counts as `1`): a `1` gives way to the other operand's dimension, and
/// otherwise both are equal and the result is that size.
pub proof fn lemma_broadcast_aligns_right(l: Seq<usize>, r: Seq<usize>)
    requires
        broadcast_compatible(l, r),
    ensures
        broadcast_result(l, r).len() == (if l.len() >= r.len() {
            l.len()
        } else {
            r.len()
        }),
        forall|j: int|
            0 <= j < broadcast_result(l, r).len() ==> aligned_combination(
                #[trigger] dim_from_right(broadcast_result(l, r), j),
                dim_from_right(l, j),
                dim_from_right(r, j),
            ),
{
    let n = max_rank(l, r);
    assert(broadcast_result(l, r).len() == n);
    assert forall|j: int| 0 <= j < n implies aligned_combination(
        #[trigger] dim_from_right(broadcast_result(l, r), j),
        dim_from_right(l, j),
        dim_from_right(r, j),
    ) by {
        let k = n - 1 - j;
        assert(dims_compatible(padded(l, n)[k], padded(r, n)[k]));
        assert(padded(l, n)[k] == dim_from_right(l, j));
        assert(padded(r, n)[k] == dim_from_right(r, j));
        assert(broadcast_result(l, r)[k] == dim_from_right(broadcast_result(l, r), j));
    }
}

/// Law: when both operands have the result's shape, every result position
/// reads the same position of each operand (broadcasting is then plain
/// element-wise pairing).
pub proof fn lemma_same_shape_positions(i: nat, s: Seq<usize>)
    requires
        i < shape_product(s),
    ensures
        operand_flat_spec(i, s, padded(s, s.len())) == i,
{
    assert(padded(s, s.len()) =~= s);
    let c = coord_of(i, s);
    lemma_flat_index_coord_of(i, s);
    assert forall|k: int| 0 <= k < s.len() implies #[trigger] operand_coord(c, s)[k] == c[k] by {
        assert(c[k] < s[k]);
    }
    assert(operand_coord(c, s) =~= c);
}

/// Law: a shape broadcasts with itself to itself, and the scalar shape `[]`
/// broadcasts with any shape to that shape.
pub proof fn lemma_broadcast_identity(s: Seq<usize>)
    ensures
        broadcast_compatible(s, s),
        broadcast_result(s, s) == s,
        broadcast_compatible(Seq::empty(), s),
        broadcast_result(Seq::empty(), s) == s,
{
    let e = Seq::<usize>::empty();
    assert(padded(s, s.len()) =~= s);
    assert(broadcast_result(s, s) =~= s);
    assert(max_rank(e, s) == s.len());
    assert(padded(e, s.len()) =~= Seq::new(s.len(), |k: int| 1usize));
    assert(broadcast_result(e, s) =~= s);
}

/// Copies a slice of dimensions into an owned shape.
pub fn shape_to_vec(s: &[usize]) -> (r: Vec<usize>)
    ensures
        r@ == s@,
{
    let n = s.len();
    let mut v: Vec<usize> = Vec::new();
    let mut k: usize = 0;
    while k < n
        invariant
            k <= n,
            n == s@.len(),
            v@ == s@.take(k as int),
        decreases n - k,
    {
        v.push(s[k]);
        k = k + 1;
        proof {
            assert(v@ =~= s@.take(k as int));
        }
    }
    proof {
        assert(s@.take(n as int) =~= s@);
    }
    v
}

fn broadcast_error(left: &[usize], right: &[usize]) -> (e: MattenError)
    ensures
        e matches MattenError::Broadcast { left: el, right: er } && el@ == left@ && er@ == right@,
{
    MattenError::Broadcast { left: shape_to_vec(left), right: shape_to_vec(right) }
}

/// Computes the broadcast result shape of two shapes, or
/// [`MattenError::Broadcast`] carrying both shapes if they are incompatible.
pub fn broadcast_shape(left: &[usize], right: &[usize]) -> (r: Result<Vec<usize>, MattenError>)
    ensures
        r is Ok <==> broadcast_compatible(left@, right@),
        r matches Ok(v) ==> v@ == broadcast_result(left@, right@),
        r matches Err(e) ==> (e matches MattenError::Broadcast { left: el, right: er } && el@
            == left@ && er@ == right@),
{
    let ll = left.len();
    let rl = right.len();
    let out_rank = if ll >= rl {
        ll
    } else {
        rl
    };
    let ghost n = max_rank(left@, right@);
    let ghost lp = padded(left@, n);
    let ghost rp = padded(right@, n);
    let mut result: Vec<usize> = Vec::new();
    let mut i: usize = 0;
    while i < out_rank
        invariant
            i <= out_rank,
            out_rank == n,
            n == max_rank(left@, right@),
            out_rank >= ll,
            out_rank >= rl,
            ll == left@.len(),
            rl == right@.len(),
            lp == padded(left@, n),
            rp == padded(right@, n),
            result@.len() == i,
            forall|k: int| 0 <= k < i ==> #[trigger] result@[k] == broadcast_dim(lp[k], rp[k]),
            forall|k: int| 0 <= k < i ==> #[trigger] dims_compatible(lp[k], rp[k]),
        decreases out_rank - i,
    {
        let l = if i >= out_rank - ll {
            left[i - (out_rank - ll)]
        } else {
            1
        };
        let r = if i >= out_rank - rl {
            right[i - (out_rank - rl)]
        } else {
            1
        };
        assert(l == lp[i as int] && r == rp[i as int]);
        if l == r {
            result.push(l);
        } else if l == 1 {
            result.push(r);
        } else if r == 1 {
            result.push(l);
        } else {
            proof {
                assert(!broadcast_compatible(left@, right@)) by {
                    if broadcast_compatible(left@, right@) {
                        assert(dims_compatible(
                            padded(left@, max_rank(left@, right@))[i as int],
                            padded(right@, max_rank(left@, right@))[i as int],
                        ));
                    }
                }
            }
            return Err(broadcast_error(left, right));
        }
        i = i + 1;
    }
    proof {
        assert(result@ =~= broadcast_result(left@, right@));
        assert(broadcast_compatible(left@, right@));
    }
    Ok(result)
}

/// Element count of a shape, or `None` if a left-to-right product
/// overflows.
pub fn shape_len(shape: &[usize]) -> (r: Option<usize>)
    ensures
        r is Some <==> prefixes_fit(shape@),
        r matches Some(n) ==> n == shape_product(shape@),
{
    let n = shape.len();
    let mut acc: usize = 1;
    let mut i: usize = 0;
    proof {
        assert(shape@.take(0) =~= Seq::<usize>::empty());
    }
    while i < n
        invariant
            i <= n,
            n == shape@.len(),
            acc == shape_product(shape@.take(i as int)),
            forall|k: int| 0 <= k <= i ==> #[trigger] shape_product(shape@.take(k)) <= usize::MAX,
        decreases n - i,
    {
        proof {
            let t = shape@.take(i + 1);
            assert(t.drop_last() =~= shape@.take(i as int));
            assert(t.last() == shape@[i as int]);
        }
        match acc.checked_mul(shape[i]) {
            Some(v) => {
                acc = v;
            },
            None => {
                proof {
                    assert(shape_product(shape@.take(i + 1)) > usize::MAX);
                }
                return None;
            },
        }
        i = i + 1;
    }
    proof {
        assert(shape@.take(n as int) =~= shape@);
    }
    Some(acc)
}

/// Precomputed context for reading both operands of a broadcast operation
/// at each flat result position.
pub struct BroadcastCtx {
    result_len: usize,
    result_shape: Vec<usize>,
    left_padded: Vec<usize>,
    right_padded: Vec<usize>,
}

impl View for BroadcastCtx {
    /// `(result shape, left operand padded to the result rank, right operand
    /// padded to the result rank)`.
    type V = (Seq<usize>, Seq<usize>, Seq<usize>);

    closed spec fn view(&self) -> (Seq<usize>, Seq<usize>, Seq<usize>) {
        (self.result_shape@, self.left_padded@, self.right_padded@)
    }
}

/// `s` padded on the left with `1`s to length `rank`.
pub fn pad_left(s: &[usize], rank: usize) -> (r: Vec<usize>)
    requires
        rank >= s@.len(),
    ensures
        r@ == padded(s@, rank as nat),
{
    let mut v: Vec<usize> = Vec::new();
    let lead = rank - s.len();
    let mut k: usize = 0;
    while k < rank
        invariant
            k <= rank,
            lead == rank - s@.len(),
            v@.len() == k,
            forall|j: int| 0 <= j < k ==> #[trigger] v@[j] == padded(s@, rank as nat)[j],
        decreases rank - k,
    {
        if k < lead {
            v.push(1);
        } else {
            v.push(s[k - lead]);
        }
        k = k + 1;
    }
    proof {
        assert(v@ =~= padded(s@, rank as nat));
    }
    v
}

impl BroadcastCtx {
    #[verifier::type_invariant]
    spec fn wf(self) -> bool {
        &&& self.result_len as nat == shape_product(self.result_shape@)
        &&& broadcasts_to(self.left_padded@, self.result_shape@)
        &&& broadcasts_to(self.right_padded@, self.result_shape@)
        &&& shape_product(self.left_padded@) <= usize::MAX
        &&& shape_product(self.right_padded@) <= usize::MAX
    }

    /// Builds a context from the two operand shapes and their broadcast
    /// result shape.
    ///
    /// Errors: [`MattenError::Allocation`] if the result count overflows, or
    /// if the broadcast is a genuine expansion (more result elements than the
    /// two operands hold together) above the default element budget; see
    /// [`check_broadcast_budget`].
    #[verifier::rlimit(30)]
    pub fn new(left_shape: &[usize], right_shape: &[usize], result_shape: &[usize]) -> (r: Result<
        Self,
        MattenError,
    >)
        requires
            broadcast_compatible(left_shape@, right_shape@),
            result_shape@ == broadcast_result(left_shape@, right_shape@),
            shape_product(left_shape@) <= usize::MAX,
            shape_product(right_shape@) <= usize::MAX,
        ensures
            r is Ok <==> broadcast_budget_ok(left_shape@, right_shape@, result_shape@),
            r matches Ok(c) ==> c@ == (
                result_shape@,
                padded(left_shape@, result_shape@.len()),
                padded(right_shape@, result_shape@.len()),
            ) && c.spec_result_len() == shape_product(result_shape@),
            r matches Err(e) ==> e@ == broadcast_budget_error(result_shape@),
    {
        let n = match check_broadcast_budget(left_shape, right_shape, result_shape) {
            Ok(n) => n,
            Err(e) => return Err(e),
        };
        let rank = result_shape.len();
        proof {
            lemma_operands_broadcast_to_result(left_shape@, right_shape@);
            lemma_padded_product(left_shape@, rank as nat);
            lemma_padded_product(right_shape@, rank as nat);
        }
        let lp = pad_left(left_shape, rank);
        let rp = pad_left(right_shape, rank);
        let mut rs: Vec<usize> = Vec::new();
        let mut k: usize = 0;
        while k < rank
            invariant
                k <= rank,
                rank == result_shape@.len(),
                rs@ == result_shape@.take(k as int),
            decreases rank - k,
        {
            rs.push(result_shape[k]);
            k = k + 1;
            proof {
                assert(rs@ =~= result_shape@.take(k as int));
            }
        }
        proof {
            assert(result_shape@.take(rank as int) =~= result_shape@);
        }
        Ok(BroadcastCtx { result_len: n, result_shape: rs, left_padded: lp, right_padded: rp })
    }

    /// The number of result elements.
    pub closed spec fn spec_result_len(&self) -> nat {
        self.result_len as nat
    }

    /// The number of result elements.
    pub fn result_len(&self) -> (r: usize)
        ensures
            r == self.spec_result_len(),
            r as nat == shape_product(self@.0),
    {
        proof {
            use_type_invariant(self);
        }
        self.result_len
    }

    /// The flat position in the left operand read for flat result position
    /// `result_flat`.
    pub fn left_flat(&self, result_flat: usize) -> (r: usize)
        requires
            result_flat < self.spec_result_len(),
        ensures
            r as nat == operand_flat_spec(result_flat as nat, self@.0, self@.1),
            (r as nat) < shape_product(self@.1),
    {
        proof {
            use_type_invariant(self);
        }
        self.operand_flat(result_flat, &self.left_padded)
    }

    /// The flat position in the right operand read for flat result position
    /// `result_flat`.
    pub fn right_flat(&self, result_flat: usize) -> (r: usize)
        requires
            result_flat < self.spec_result_len(),
        ensures
            r as nat == operand_flat_spec(result_flat as nat, self@.0, self@.2),
            (r as nat) < shape_product(self@.2),
    {
        proof {
            use_type_invariant(self);
        }
        self.operand_flat(result_flat, &self.right_padded)
    }

    fn operand_flat(&self, result_flat: usize, operand: &Vec<usize>) -> (r: usize)
        requires
            (result_flat as nat) < shape_product(self.result_shape@),
            broadcasts_to(operand@, self.result_shape@),
            shape_product(operand@) <= usize::MAX,
        ensures
            r as nat == operand_flat_spec(result_flat as nat, self.result_shape@, operand@),
            (r as nat) < shape_product(operand@),
    {
        let coord = flat_to_coord(result_flat, self.result_shape.as_slice());
        let n = operand.len();
        let mut oc: Vec<usize> = Vec::new();
        let mut k: usize = 0;
        while k < n
            invariant
                k <= n,
                n == operand@.len(),
                coord@.len() == n,
                oc@.len() == k,
                forall|j: int| 0 <= j < k ==> #[trigger] oc@[j] == operand_coord(coord@, operand@)[j],
            decreases n - k,
        {
            if operand[k] == 1 {
                oc.push(0);
            } else {
                oc.push(coord[k]);
            }
            k = k + 1;
        }
        proof {
            assert(oc@ =~= operand_coord(coord@, operand@));
            lemma_operand_flat_in_range(result_flat as nat, self.result_shape@, operand@);
        }
        match coord_to_flat(oc.as_slice(), operand.as_slice()) {
            Some(f) => f,
            None => {
                proof {
                    assert(false);
                }
                0
            },
        }
    }
}

/// The broadcast result of `l` and `r` is a genuine multiplicative
/// expansion: it holds more elements than both operands together (or their
/// combined count cannot be established).
pub open spec fn is_genuine_expansion(l: Seq<usize>, r: Seq<usize>, res: Seq<usize>) -> bool {
    !(prefixes_fit(l) && prefixes_fit(r) && shape_product(l) + shape_product(r) <= usize::MAX
        && shape_product(res) <= shape_product(l) + shape_product(r))
}

/// The broadcast result passes the allocation budget: its element count is
/// computable, and a genuine expansion stays within the default element
/// budget.
pub open spec fn broadcast_budget_ok(l: Seq<usize>, r: Seq<usize>, res: Seq<usize>) -> bool {
    &&& prefixes_fit(res)
    &&& is_genuine_expansion(l, r, res) ==> shape_product(res) <= MattenLimits::default_spec().max_elements
}

/// The error of a broadcast result refused by the budget: an overflowing
/// count, else a genuine expansion above the default element budget.
pub open spec fn broadcast_budget_error(res: Seq<usize>) -> ErrorView {
    if !prefixes_fit(res) {
        ErrorView::Allocation {
            requested_elements: usize::MAX as nat,
            message: "broadcast result shape "@ + shape_text_spec(res)
                + " overflows usize when computing element count"@,
        }
    } else {
        element_limit_error(shape_product(res), MAX_ELEMENTS as nat, "broadcast"@)
    }
}

/// Checks the default element budget for a broadcast result, applied only
/// when the broadcast is a genuine multiplicative expansion (a same-shape or
/// otherwise non-expanding broadcast copies data already in memory and is
/// never refused). Returns the result element count. An overflowing result
/// count is always an error.
pub fn check_broadcast_budget(left_shape: &[usize], right_shape: &[usize], result_shape: &[usize]) -> (r:
    Result<usize, MattenError>)
    ensures
        r is Ok <==> broadcast_budget_ok(left_shape@, right_shape@, result_shape@),
        r matches Ok(n) ==> n == shape_product(result_shape@),
        r matches Err(e) ==> e@ == broadcast_budget_error(result_shape@),
{
    let n = match shape_len(result_shape) {
        Some(n) => n,
        None => {
            let mut message = concat2(
                "broadcast result shape ",
                crate::text::shape_text(result_shape).as_str(),
            );
            message.append(" overflows usize when computing element count");
            return Err(MattenError::Allocation { requested_elements: usize::MAX, message });
        },
    };
    let combined = match (shape_len(left_shape), shape_len(right_shape)) {
        (Some(l), Some(rr)) => l.checked_add(rr),
        _ => None,
    };
    let genuine = match combined {
        Some(c) => n > c,
        None => true,
    };
    if genuine {
        let limits = MattenLimits::default();
        if let Err(e) = limits.check_elements(n, "broadcast") {
            return Err(e);
        }
    }
    Ok(n)
}

/// The text with which a failed arithmetic operator (`+`, `-`, `*`, `/` on
/// tensors) reports `e`: a broadcast failure names the operation, anything
/// else is reported by its own text.
pub fn arithmetic_failure_text(operation: &str, e: &MattenError) -> (r: String)
    ensures
        *e matches MattenError::Broadcast { left, right } ==> r@ == "matten broadcast error in "@
            + operation@ + ": shapes "@ + shape_text_spec(left@) + " and "@ + shape_text_spec(
            right@,
        ) + " are not compatible"@,
        !(e is Broadcast) ==> error_text_fits(*e, r@),
{
    match e {
        MattenError::Broadcast { left, right } => {
            let mut r = concat3("matten broadcast error in ", operation, ": shapes ");
            r.append(shape_text(left.as_slice()).as_str());
            r.append(" and ");
            r.append(shape_text(right.as_slice()).as_str());
            r.append(" are not compatible");
            r
        },
        _ => e.to_string(),
    }
}

} // verus!
