//! Shape model: validation and row-major index maps.
//!
//! Shapes are runtime `&[usize]`. A scalar is shape `[]` with exactly one
//! element. Layout is row-major: the last axis varies fastest. The
//! mathematical model is [`shape_product`] (the element count),
//! [`flat_index`] (coordinate to flat position) and [`coord_of`] (flat
//! position to coordinate); the two maps are inverse bijections between the
//! in-bounds coordinates of a shape and `0..shape_product`.

use vstd::prelude::*;
use crate::error::{ErrorView, MattenError};
use crate::limits::{MAX_ELEMENTS, MAX_NDIM, MAX_REPRESENTABLE_DIMENSION};
use crate::text::{concat2, decimal, decimal_text, shape_text, shape_text_spec};

verus! {

// ---------------------------------------------------------------------------
// Mathematical model
// ---------------------------------------------------------------------------

/// The element count of a shape: the product of its dimensions (1 for the
/// scalar shape `[]`).
pub open spec fn shape_product(s: Seq<usize>) -> nat
    decreases s.len(),
{
    if s.len() == 0 {
        1
    } else {
        shape_product(s.drop_last()) * (s.last() as nat)
    }
}

/// `coord` is a valid coordinate of `shape`: same rank, each component below
/// its dimension.
pub open spec fn in_bounds(coord: Seq<usize>, shape: Seq<usize>) -> bool {
    &&& coord.len() == shape.len()
    &&& forall|i: int| 0 <= i < coord.len() ==> #[trigger] coord[i] < shape[i]
}

/// Row-major flat position of `coord` in `shape` (Horner form).
pub open spec fn flat_index(coord: Seq<usize>, shape: Seq<usize>) -> nat
    decreases coord.len(),
{
    if coord.len() == 0 || shape.len() == 0 {
        0
    } else {
        flat_index(coord.drop_last(), shape.drop_last()) * (shape.last() as nat) + (coord.last() as nat)
    }
}

/// The coordinate of flat position `flat` in `shape` (meaningful for
/// `flat < shape_product(shape)`).
pub open spec fn coord_of(flat: nat, shape: Seq<usize>) -> Seq<usize>
    decreases shape.len(),
{
    if shape.len() == 0 {
        Seq::empty()
    } else {
        coord_of(flat / (shape.last() as nat), shape.drop_last()).push(
            (flat % (shape.last() as nat)) as usize,
        )
    }
}

/// The row-major stride of axis `j`: the product of the dimensions after it.
pub open spec fn stride_of(shape: Seq<usize>, j: int) -> nat {
    shape_product(shape.subrange(j + 1, shape.len() as int))
}

/// Every dimension is at most `bound`.
pub open spec fn dims_within(s: Seq<usize>, bound: nat) -> bool {
    forall|i: int| 0 <= i < s.len() ==> #[trigger] s[i] <= bound
}

/// Every prefix product of the shape fits in `usize` (so a left-to-right
/// checked product never overflows).
pub open spec fn prefixes_fit(s: Seq<usize>) -> bool {
    forall|i: int| 0 <= i <= s.len() ==> #[trigger] shape_product(s.take(i)) <= usize::MAX
}

/// Every suffix product of the shape fits in `usize` (so row-major strides
/// are representable).
pub open spec fn suffixes_fit(s: Seq<usize>) -> bool {
    forall|i: int| 0 <= i <= s.len() ==> #[trigger] shape_product(s.skip(i)) <= usize::MAX
}

/// The per-dimension ceiling actually enforced for a requested bound.
pub open spec fn effective_bound(max_dimension: usize) -> nat {
    if max_dimension <= MAX_REPRESENTABLE_DIMENSION {
        max_dimension as nat
    } else {
        MAX_REPRESENTABLE_DIMENSION as nat
    }
}

/// A shape accepted by [`validate_shape`]: rank at most `MAX_NDIM`, every
/// dimension at most `MAX_ELEMENTS`, and no overflowing prefix product.
pub open spec fn valid_shape(s: Seq<usize>) -> bool {
    &&& s.len() <= MAX_NDIM
    &&& dims_within(s, MAX_ELEMENTS as nat)
    &&& prefixes_fit(s)
}

/// `k` is the first position of `s` whose dimension exceeds `bound`.
pub open spec fn first_above(s: Seq<usize>, bound: nat, k: int) -> bool {
    &&& 0 <= k < s.len()
    &&& s[k] > bound
    &&& forall|j: int| 0 <= j < k ==> #[trigger] s[j] <= bound
}

/// The position of the first dimension of `s` above `bound`, where there is
/// one.
pub open spec fn first_dim_above(s: Seq<usize>, bound: nat) -> int {
    choose|k: int| first_above(s, bound, k)
}

/// The error of a shape whose element count cannot be computed with every
/// dimension at most `bound`: the first oversized dimension, else the
/// overflow of the product.
pub open spec fn shape_count_error(s: Seq<usize>, operation: Seq<char>, bound: nat) -> ErrorView {
    if !dims_within(s, bound) {
        let dim = s[first_dim_above(s, bound)] as nat;
        ErrorView::Allocation {
            requested_elements: dim,
            message: "dimension "@ + decimal_text(dim) + " in shape "@ + shape_text_spec(s)
                + " exceeds the maximum supported single-dimension size of "@ + decimal_text(bound)
                + " in "@ + operation,
        }
    } else {
        ErrorView::Allocation {
            requested_elements: usize::MAX as nat,
            message: "shape "@ + shape_text_spec(s)
                + " overflows usize when computing the element count in "@ + operation,
        }
    }
}

/// The error of a shape of more than `max_rank` axes.
pub open spec fn rank_error(s: Seq<usize>, operation: Seq<char>, max_rank: nat) -> ErrorView {
    ErrorView::Shape {
        operation,
        message: "rank "@ + decimal_text(s.len()) + " exceeds the maximum supported rank of "@
            + decimal_text(max_rank) + " (shape "@ + shape_text_spec(s) + ")"@,
    }
}

/// The error [`validate_shape`] gives for a shape it refuses.
pub open spec fn shape_validation_error(s: Seq<usize>, operation: Seq<char>) -> ErrorView {
    if s.len() > MAX_NDIM {
        rank_error(s, operation, MAX_NDIM as nat)
    } else {
        shape_count_error(s, operation, MAX_ELEMENTS as nat)
    }
}

// ---------------------------------------------------------------------------
// Lemmas
// ---------------------------------------------------------------------------

/// The first oversized position is unique.
pub proof fn lemma_first_dim_above(s: Seq<usize>, bound: nat, k: int)
    requires
        first_above(s, bound, k),
    ensures
        first_dim_above(s, bound) == k,
{
    let c = first_dim_above(s, bound);
    assert(first_above(s, bound, c));
    if c < k {
        assert(s[c] <= bound);
    } else if c > k {
        assert(s[k] <= bound);
    }
}

/// Product of a concatenation is the product of the products.
pub proof fn lemma_product_concat(a: Seq<usize>, b: Seq<usize>)
    ensures
        shape_product(a + b) == shape_product(a) * shape_product(b),
    decreases b.len(),
{
    if b.len() == 0 {
        assert(a + b =~= a);
        assert(shape_product(b) == 1);
        assert(shape_product(a) * 1 == shape_product(a));
    } else {
        lemma_product_concat(a, b.drop_last());
        let ab = a + b;
        assert(ab.drop_last() =~= a + b.drop_last());
        assert(ab.last() == b.last());
        let pa = shape_product(a);
        let pb = shape_product(b.drop_last());
        let l = b.last() as nat;
        assert(shape_product(ab) == shape_product(ab.drop_last()) * (ab.last() as nat));
        assert(shape_product(ab) == (pa * pb) * l);
        assert(shape_product(b) == pb * l);
        assert((pa * pb) * l == pa * (pb * l)) by (nonlinear_arith);
    }
}

/// Prepending a dimension multiplies the product by it.
pub proof fn lemma_product_prepend(x: usize, s: Seq<usize>)
    ensures
        shape_product(seq![x] + s) == (x as nat) * shape_product(s),
{
    lemma_product_concat(seq![x], s);
    lemma_product_single(x);
}

/// Product of a one-element shape.
pub proof fn lemma_product_single(x: usize)
    ensures
        shape_product(seq![x]) == x as nat,
{
    let s = seq![x];
    assert(s.drop_last() =~= Seq::<usize>::empty());
    assert(shape_product(Seq::<usize>::empty()) == 1);
    assert(shape_product(s) == shape_product(s.drop_last()) * (s.last() as nat));
}

/// The product splits at any position.
pub proof fn lemma_product_split(s: Seq<usize>, i: int)
    requires
        0 <= i <= s.len(),
    ensures
        shape_product(s) == shape_product(s.take(i)) * shape_product(s.skip(i)),
{
    lemma_product_concat(s.take(i), s.skip(i));
    assert(s.take(i) + s.skip(i) =~= s);
}

/// The product is zero exactly when some dimension is zero.
pub proof fn lemma_product_zero_iff(s: Seq<usize>)
    ensures
        (shape_product(s) == 0) <==> (exists|i: int| 0 <= i < s.len() && s[i] == 0),
    decreases s.len(),
{
    if s.len() > 0 {
        lemma_product_zero_iff(s.drop_last());
        let p = shape_product(s.drop_last());
        let l = s.last() as nat;
        assert((p * l == 0) <==> (p == 0 || l == 0)) by (nonlinear_arith);
        if p == 0 {
            let i = choose|i: int| 0 <= i < s.drop_last().len() && s.drop_last()[i] == 0;
            assert(s[i] == 0);
        }
        if l == 0 {
            assert(s[s.len() - 1] == 0);
        }
        if exists|i: int| 0 <= i < s.len() && s[i] == 0 {
            let i = choose|i: int| 0 <= i < s.len() && s[i] == 0;
            if i < s.len() - 1 {
                assert(s.drop_last()[i] == 0);
            }
        }
    }
}

/// A shape whose dimensions are all positive has a positive product, and so
/// does every prefix, each bounded by the whole.
pub proof fn lemma_prefix_le_product(s: Seq<usize>, i: int)
    requires
        0 <= i <= s.len(),
        forall|k: int| 0 <= k < s.len() ==> #[trigger] s[k] > 0,
    ensures
        shape_product(s.take(i)) <= shape_product(s),
        shape_product(s) > 0,
{
    lemma_product_split(s, i);
    lemma_product_zero_iff(s.skip(i));
    lemma_product_zero_iff(s);
    if shape_product(s.skip(i)) == 0 {
        let k = choose|k: int| 0 <= k < s.skip(i).len() && s.skip(i)[k] == 0;
        assert(s[i + k] == 0);
    }
    if shape_product(s) == 0 {
        let k = choose|k: int| 0 <= k < s.len() && s[k] == 0;
        assert(s[k] > 0);
    }
    let a = shape_product(s.take(i));
    let b = shape_product(s.skip(i));
    assert(b >= 1 ==> a <= a * b) by (nonlinear_arith);
}

/// An in-bounds coordinate has a flat index below the product.
pub proof fn lemma_flat_index_bound(coord: Seq<usize>, shape: Seq<usize>)
    requires
        in_bounds(coord, shape),
    ensures
        flat_index(coord, shape) < shape_product(shape),
    decreases coord.len(),
{
    if coord.len() > 0 {
        let c = coord.drop_last();
        let s = shape.drop_last();
        assert(in_bounds(c, s)) by {
            assert forall|i: int| 0 <= i < c.len() implies #[trigger] c[i] < s[i] by {
                assert(coord[i] < shape[i]);
            }
        }
        lemma_flat_index_bound(c, s);
        let f = flat_index(c, s);
        let p = shape_product(s);
        let d = shape.last() as nat;
        let x = coord.last() as nat;
        assert(coord[coord.len() - 1] < shape[shape.len() - 1]);
        assert(f < p && x < d ==> f * d + x < p * d) by (nonlinear_arith);
    }
}

/// Law (index round trip): `coord_of` inverts `flat_index` on in-bounds
/// coordinates, so `flat_to_coord(coord_to_flat(c))` gives back `c`.
pub proof fn lemma_coord_of_flat_index(coord: Seq<usize>, shape: Seq<usize>)
    requires
        in_bounds(coord, shape),
    ensures
        coord_of(flat_index(coord, shape), shape) == coord,
    decreases coord.len(),
{
    if coord.len() == 0 {
        assert(coord =~= Seq::<usize>::empty());
    } else {
        let c = coord.drop_last();
        let s = shape.drop_last();
        assert(in_bounds(c, s)) by {
            assert forall|i: int| 0 <= i < c.len() implies #[trigger] c[i] < s[i] by {
                assert(coord[i] < shape[i]);
            }
        }
        lemma_coord_of_flat_index(c, s);
        let f = flat_index(c, s);
        let d = shape.last() as nat;
        let x = coord.last() as nat;
        assert(coord[coord.len() - 1] < shape[shape.len() - 1]);
        assert(x < d ==> (f * d + x) / d == f && (f * d + x) % d == x) by (nonlinear_arith);
        assert(coord_of(flat_index(coord, shape), shape) =~= c.push(coord.last()));
        assert(c.push(coord.last()) =~= coord);
    }
}

/// Law (index round trip): `flat_index` inverts `coord_of` on positions
/// below the product, and the coordinate is in bounds, so
/// `coord_to_flat(flat_to_coord(i))` gives back `i`.
pub proof fn lemma_flat_index_coord_of(flat: nat, shape: Seq<usize>)
    requires
        flat < shape_product(shape),
    ensures
        in_bounds(coord_of(flat, shape), shape),
        flat_index(coord_of(flat, shape), shape) == flat,
    decreases shape.len(),
{
    if shape.len() > 0 {
        let s = shape.drop_last();
        let d = shape.last() as nat;
        let p = shape_product(s);
        assert(flat < p * d);
        assert(flat < p * d ==> d > 0 && flat / d < p) by (nonlinear_arith);
        lemma_flat_index_coord_of(flat / d, s);
        let c = coord_of(flat, shape);
        let c0 = coord_of(flat / d, s);
        assert(c.drop_last() =~= c0);
        assert(d > 0 ==> flat % d < d && (flat / d) * d + flat % d == flat) by (nonlinear_arith);
        assert forall|i: int| 0 <= i < c.len() implies #[trigger] c[i] < shape[i] by {
            if i < c.len() - 1 {
                assert(c[i] == c0[i]);
            }
        }
    }
}

/// Law: two positions with the same coordinate are the same position.
pub proof fn lemma_coord_of_injective(f1: nat, f2: nat, shape: Seq<usize>)
    requires
        f1 < shape_product(shape),
        f2 < shape_product(shape),
        coord_of(f1, shape) == coord_of(f2, shape),
    ensures
        f1 == f2,
{
    lemma_flat_index_coord_of(f1, shape);
    lemma_flat_index_coord_of(f2, shape);
}

/// `flat_index` equals the stride-weighted sum form, split at the first axis:
/// `flat_index(c, s) == c[0] * stride_of(s, 0) + flat_index(c[1..], s[1..])`.
pub proof fn lemma_flat_index_first(coord: Seq<usize>, shape: Seq<usize>)
    requires
        coord.len() == shape.len(),
        coord.len() > 0,
    ensures
        flat_index(coord, shape) == (coord[0] as nat) * shape_product(shape.skip(1))
            + flat_index(coord.skip(1), shape.skip(1)),
    decreases coord.len(),
{
    if coord.len() == 1 {
        assert(coord.skip(1).len() == 0);
        assert(shape.skip(1) =~= Seq::<usize>::empty());
        assert(shape_product(shape.skip(1)) == 1);
        assert(flat_index(coord.skip(1), shape.skip(1)) == 0);
        assert(coord.drop_last().len() == 0);
        assert(flat_index(coord.drop_last(), shape.drop_last()) == 0);
        assert(flat_index(coord, shape) == flat_index(coord.drop_last(), shape.drop_last()) * (
        shape.last() as nat) + (coord.last() as nat));
        assert(coord.last() == coord[0]);
    } else {
        let c = coord.drop_last();
        let s = shape.drop_last();
        lemma_flat_index_first(c, s);
        let cr = coord.skip(1);
        let sr = shape.skip(1);
        assert(c.skip(1) =~= cr.drop_last());
        assert(s.skip(1) =~= sr.drop_last());
        assert(cr.last() == coord.last());
        assert(sr.last() == shape.last());
        assert(c[0] == coord[0]);
        let d = shape.last() as nat;
        let x = coord.last() as nat;
        let c0 = coord[0] as nat;
        let ps = shape_product(s.skip(1));
        let fr = flat_index(c.skip(1), s.skip(1));
        assert(flat_index(c, s) == c0 * ps + fr);
        assert(flat_index(coord, shape) == flat_index(c, s) * d + x);
        assert(shape_product(sr) == shape_product(sr.drop_last()) * (sr.last() as nat));
        assert(shape_product(sr) == ps * d);
        assert(flat_index(cr, sr) == flat_index(cr.drop_last(), sr.drop_last()) * (sr.last() as nat) + (
        cr.last() as nat));
        assert(flat_index(cr, sr) == fr * d + x);
        assert((c0 * ps + fr) * d + x == c0 * (ps * d) + (fr * d + x)) by (nonlinear_arith);
    }
}

// ---------------------------------------------------------------------------
// Executable helpers
// ---------------------------------------------------------------------------

/// Computes the element count of a shape with checked arithmetic, after
/// bounding every individual dimension by
/// `min(max_dimension, MAX_REPRESENTABLE_DIMENSION)`. Does not enforce a
/// rank limit. Zero-sized dimensions are accepted and give a count of `0`;
/// the scalar shape `[]` has count `1`.
pub fn checked_shape_len(shape: &[usize], operation: &'static str, max_dimension: usize) -> (r:
    Result<usize, MattenError>)
    ensures
        r is Ok <==> dims_within(shape@, effective_bound(max_dimension)) && prefixes_fit(shape@),
        r matches Ok(n) ==> n == shape_product(shape@),
        r matches Err(e) ==> e@ == shape_count_error(shape@, operation@, effective_bound(max_dimension)),
{
    let bound = if max_dimension <= MAX_REPRESENTABLE_DIMENSION {
        max_dimension
    } else {
        MAX_REPRESENTABLE_DIMENSION
    };
    let n = shape.len();
    let mut i: usize = 0;
    while i < n
        invariant
            i <= n,
            n == shape@.len(),
            bound == effective_bound(max_dimension),
            forall|k: int| 0 <= k < i ==> #[trigger] shape@[k] <= bound,
        decreases n - i,
    {
        let dim = shape[i];
        if dim > bound {
            let mut message = concat2("dimension ", decimal(dim).as_str());
            message.append(" in shape ");
            message.append(shape_text(shape).as_str());
            message.append(" exceeds the maximum supported single-dimension size of ");
            message.append(decimal(bound).as_str());
            message.append(" in ");
            message.append(operation);
            proof {
                assert(first_above(shape@, bound as nat, i as int));
                lemma_first_dim_above(shape@, bound as nat, i as int);
            }
            return Err(MattenError::Allocation { requested_elements: dim, message });
        }
        i = i + 1;
    }
    let mut len: usize = 1;
    let mut j: usize = 0;
    proof {
        assert(shape@.take(0) =~= Seq::<usize>::empty());
    }
    while j < n
        invariant
            j <= n,
            n == shape@.len(),
            len == shape_product(shape@.take(j as int)),
            forall|k: int| 0 <= k <= j ==> #[trigger] shape_product(shape@.take(k)) <= usize::MAX,
            bound == effective_bound(max_dimension),
            dims_within(shape@, bound as nat),
        decreases n - j,
    {
        proof {
            let t = shape@.take(j + 1);
            assert(t.drop_last() =~= shape@.take(j as int));
            assert(t.last() == shape@[j as int]);
            assert(shape_product(t) == shape_product(t.drop_last()) * (t.last() as nat));
        }
        match len.checked_mul(shape[j]) {
            Some(v) => {
                len = v;
            },
            None => {
                proof {
                    assert(shape_product(shape@.take(j + 1)) > usize::MAX);
                }
                let mut message = concat2("shape ", shape_text(shape).as_str());
                message.append(" overflows usize when computing the element count in ");
                message.append(operation);
                return Err(MattenError::Allocation { requested_elements: usize::MAX, message });
            },
        }
        j = j + 1;
    }
    proof {
        assert(shape@.take(n as int) =~= shape@);
    }
    Ok(len)
}

/// Validates a shape and returns its element count: rank at most
/// `MAX_NDIM` (else [`MattenError::Shape`]), each dimension at most
/// `MAX_ELEMENTS` and no product overflow (else
/// [`MattenError::Allocation`]).
pub fn validate_shape(shape: &[usize], operation: &'static str) -> (r: Result<usize, MattenError>)
    ensures
        r is Ok <==> valid_shape(shape@),
        r matches Ok(n) ==> n == shape_product(shape@),
        r matches Err(e) ==> e@ == shape_validation_error(shape@, operation@),
{
    if shape.len() > MAX_NDIM {
        let mut message = concat2("rank ", decimal(shape.len()).as_str());
        message.append(" exceeds the maximum supported rank of ");
        message.append(decimal(MAX_NDIM).as_str());
        message.append(" (shape ");
        message.append(shape_text(shape).as_str());
        message.append(")");
        return Err(MattenError::Shape { operation, message });
    }
    checked_shape_len(shape, operation, MAX_ELEMENTS)
}

/// Row-major strides for `shape`: `stride_j = product(dims[j + 1 ..])`.
/// For the scalar shape `[]` this is empty.
pub fn strides_for_shape(shape: &[usize]) -> (r: Vec<usize>)
    requires
        suffixes_fit(shape@),
    ensures
        r@.len() == shape@.len(),
        forall|j: int| 0 <= j < shape@.len() ==> #[trigger] r@[j] as nat == stride_of(shape@, j),
{
    let n = shape.len();
    let mut strides: Vec<usize> = Vec::new();
    let mut k: usize = 0;
    while k < n
        invariant
            k <= n,
            strides@.len() == k,
        decreases n - k,
    {
        strides.push(0);
        k = k + 1;
    }
    let mut acc: usize = 1;
    let mut j: usize = n;
    proof {
        assert(shape@.skip(n as int) =~= Seq::<usize>::empty());
    }
    while j > 0
        invariant
            j <= n,
            n == shape@.len(),
            strides@.len() == n,
            suffixes_fit(shape@),
            acc as nat == shape_product(shape@.skip(j as int)),
            forall|i: int| j <= i < n ==> #[trigger] strides@[i] as nat == stride_of(shape@, i),
        decreases j,
    {
        j = j - 1;
        strides.set(j, acc);
        let d = shape[j];
        proof {
            assert(shape@.subrange(j + 1, n as int) =~= shape@.skip(j + 1));
            assert(shape@.skip(j as int) =~= seq![shape@[j as int]] + shape@.skip(j + 1));
            lemma_product_prepend(shape@[j as int], shape@.skip(j + 1));
            assert(shape_product(shape@.skip(j as int)) <= usize::MAX);
            assert(shape_product(shape@.skip(j as int)) == (d as nat) * (acc as nat));
            assert((d as nat) * (acc as nat) == (acc as nat) * (d as nat)) by (nonlinear_arith);
        }
        acc = acc * d;
    }
    strides
}

/// Maps a multidimensional coordinate to a flat row-major index, or `None`
/// if the rank differs or a component is out of bounds. The scalar
/// coordinate `[]` maps to `0`.
pub fn coord_to_flat(coord: &[usize], shape: &[usize]) -> (r: Option<usize>)
    requires
        shape_product(shape@) <= usize::MAX,
    ensures
        r is Some <==> in_bounds(coord@, shape@),
        r matches Some(f) ==> f as nat == flat_index(coord@, shape@) && (f as nat) < shape_product(
            shape@,
        ),
{
    let n = shape.len();
    if coord.len() != n {
        return None;
    }
    let mut i: usize = 0;
    while i < n
        invariant
            i <= n,
            n == shape@.len(),
            coord@.len() == n,
            forall|k: int| 0 <= k < i ==> #[trigger] coord@[k] < shape@[k],
        decreases n - i,
    {
        if coord[i] >= shape[i] {
            return None;
        }
        i = i + 1;
    }
    proof {
        assert forall|k: int| 0 <= k < n implies #[trigger] shape@[k] > 0 by {
            assert(coord@[k] < shape@[k]);
        }
    }
    let mut flat: usize = 0;
    let mut j: usize = 0;
    proof {
        assert(coord@.take(0) =~= Seq::<usize>::empty());
    }
    while j < n
        invariant
            j <= n,
            n == shape@.len(),
            coord@.len() == n,
            in_bounds(coord@, shape@),
            shape_product(shape@) <= usize::MAX,
            forall|k: int| 0 <= k < n ==> #[trigger] shape@[k] > 0,
            flat as nat == flat_index(coord@.take(j as int), shape@.take(j as int)),
        decreases n - j,
    {
        proof {
            let c = coord@.take(j + 1);
            let s = shape@.take(j + 1);
            assert(c.drop_last() =~= coord@.take(j as int));
            assert(s.drop_last() =~= shape@.take(j as int));
            assert(in_bounds(c, s));
            lemma_flat_index_bound(c, s);
            lemma_prefix_le_product(shape@, j + 1);
            let f = flat as nat;
            let d = shape@[j as int] as nat;
            assert(f * d <= f * d + (coord@[j as int] as nat));
        }
        flat = flat * shape[j] + coord[j];
        j = j + 1;
    }
    proof {
        assert(coord@.take(n as int) =~= coord@);
        assert(shape@.take(n as int) =~= shape@);
        lemma_flat_index_bound(coord@, shape@);
    }
    Some(flat)
}

/// Maps a flat row-major index back to its multidimensional coordinate.
/// The scalar shape `[]` yields `[]`.
pub fn flat_to_coord(flat: usize, shape: &[usize]) -> (r: Vec<usize>)
    requires
        (flat as nat) < shape_product(shape@),
    ensures
        r@ == coord_of(flat as nat, shape@),
        in_bounds(r@, shape@),
        flat_index(r@, shape@) == flat as nat,
{
    let n = shape.len();
    let mut coord: Vec<usize> = Vec::new();
    let mut k: usize = 0;
    while k < n
        invariant
            k <= n,
            coord@.len() == k,
        decreases n - k,
    {
        coord.push(0);
        k = k + 1;
    }
    let mut rem: usize = flat;
    let mut j: usize = n;
    proof {
        assert(shape@.take(n as int) =~= shape@);
        assert(coord@.skip(n as int) =~= Seq::<usize>::empty());
        assert(coord_of(flat as nat, shape@) + coord@.skip(n as int) =~= coord_of(flat as nat, shape@));
    }
    while j > 0
        invariant
            j <= n,
            n == shape@.len(),
            coord@.len() == n,
            (rem as nat) < shape_product(shape@.take(j as int)),
            coord_of(flat as nat, shape@) == coord_of(rem as nat, shape@.take(j as int)) + coord@.skip(
                j as int,
            ),
        decreases j,
    {
        let ghost old_coord = coord@;
        let ghost s = shape@.take(j as int);
        proof {
            assert(s.drop_last() =~= shape@.take(j - 1));
            assert(s.last() == shape@[j - 1]);
            let p = shape_product(shape@.take(j - 1));
            let d = shape@[j - 1] as nat;
            assert((rem as nat) < p * d);
            assert((rem as nat) < p * d ==> d > 0 && (rem as nat) / d < p) by (nonlinear_arith);
        }
        let d = shape[j - 1];
        coord.set(j - 1, rem % d);
        rem = rem / d;
        j = j - 1;
        proof {
            assert(coord@.skip(j as int) =~= seq![coord@[j as int]] + old_coord.skip(j + 1));
            let cs = coord_of(rem as nat, shape@.take(j as int));
            assert(coord_of(((rem as nat) * 0 + (rem as nat)), shape@.take(j as int)) == cs);
            assert(cs.push(coord@[j as int]) + old_coord.skip(j + 1) =~= cs + coord@.skip(j as int));
        }
    }
    proof {
        assert(shape@.take(0) =~= Seq::<usize>::empty());
        assert(coord@.skip(0) =~= coord@);
        assert(coord_of(rem as nat, Seq::<usize>::empty()) =~= Seq::<usize>::empty());
        assert(coord_of(flat as nat, shape@) =~= coord@);
        lemma_flat_index_coord_of(flat as nat, shape@);
    }
    coord
}

} // verus!
