//! Shape transformations: reshape, flatten, squeeze, expand_dims, transpose
//! and axis swaps.
//!
//! Every returned tensor is an independent owned value; data is copied, never
//! shared.

use vstd::prelude::*;
use crate::broadcast::shape_to_vec;
use crate::error::{ErrorView, MattenError};
use crate::shape::{
    coord_of, coord_to_flat, flat_index, flat_to_coord, in_bounds, lemma_coord_of_flat_index,
    lemma_flat_index_coord_of, lemma_product_concat, lemma_product_prepend, lemma_product_single,
    shape_product, shape_validation_error, valid_shape, validate_shape,
};
use crate::tensor::Tensor;
use crate::text::{concat2, decimal, decimal_text, shape_text, shape_text_spec};

verus! {

// ---------------------------------------------------------------------------
// Model
// ---------------------------------------------------------------------------

/// Some position of `perm` holds `q`.
pub open spec fn covers(perm: Seq<usize>, q: int) -> bool {
    exists|i: int| 0 <= i < perm.len() && perm[i] as int == q
}

/// `perm` is a permutation of `0..n`: it holds each of `0..n` exactly once.
pub open spec fn is_permutation(perm: Seq<usize>, n: nat) -> bool {
    &&& perm.len() == n
    &&& forall|i: int| 0 <= i < n ==> #[trigger] perm[i] < n
    &&& forall|i: int, j: int| 0 <= i < n && 0 <= j < n && i != j ==> perm[i] != perm[j]
    &&& forall|q: int| 0 <= q < n ==> #[trigger] covers(perm, q)
}

/// `perm` is a permutation of `0..n` that is its own inverse.
pub open spec fn is_involution(perm: Seq<usize>, n: nat) -> bool {
    &&& perm.len() == n
    &&& forall|i: int| 0 <= i < n ==> #[trigger] perm[i] < n && perm[perm[i] as int] == i
}

/// `s` reordered by `perm`: position `i` holds `s[perm[i]]`.
pub open spec fn permute_seq(s: Seq<usize>, perm: Seq<usize>) -> Seq<usize> {
    Seq::new(perm.len(), |i: int| s[perm[i] as int])
}

/// The axis order `n-1, ..., 1, 0`.
pub open spec fn reversed_axes(n: nat) -> Seq<usize> {
    Seq::new(n, |i: int| (n - 1 - i) as usize)
}

/// The axis order `0..n` with `a` and `b` exchanged.
pub open spec fn swapped_axes(n: nat, a: int, b: int) -> Seq<usize> {
    Seq::new(n, |i: int| if i == a { b as usize } else if i == b { a as usize } else { i as usize })
}

/// The shape with every dimension equal to `1` removed.
pub open spec fn without_unit_dims(s: Seq<usize>) -> Seq<usize>
    decreases s.len(),
{
    if s.len() == 0 {
        Seq::empty()
    } else if s.last() == 1 {
        without_unit_dims(s.drop_last())
    } else {
        without_unit_dims(s.drop_last()).push(s.last())
    }
}

/// `r` holds the elements of `t` under the axis reordering `perm` (result
/// axis `i` is axis `perm[i]` of `t`): `r.dims() == permute_seq(t.dims(),
/// perm)`, and the element of `t` at coordinate `c` is the element of `r` at
/// coordinate `permute_seq(c, perm)`.
pub open spec fn is_axis_permutation_of<T>(r: Tensor<T>, t: Tensor<T>, perm: Seq<usize>) -> bool {
    &&& r.dims() == permute_seq(t.dims(), perm)
    &&& r.elems().len() == t.elems().len()
    &&& forall|k: int|
        0 <= k < t.elems().len() ==> r.elems()[flat_index(
            permute_seq(coord_of(k as nat, t.dims()), perm),
            r.dims(),
        ) as int] == #[trigger] t.elems()[k]
}

/// `r` is the transpose of `t` (axis order reversed).
pub open spec fn is_transpose_of<T>(r: Tensor<T>, t: Tensor<T>) -> bool {
    is_axis_permutation_of(r, t, reversed_axes(t.dims().len()))
}

// ---------------------------------------------------------------------------
// Lemmas
// ---------------------------------------------------------------------------

proof fn lemma_reversed_is_involution(n: nat)
    requires
        n <= usize::MAX,
    ensures
        is_involution(reversed_axes(n), n),
{
    let p = reversed_axes(n);
    assert forall|i: int| 0 <= i < n implies #[trigger] p[i] < n && p[p[i] as int] == i by {
        assert(p[i] as int == n - 1 - i);
    }
}

proof fn lemma_swapped_is_involution(n: nat, a: int, b: int)
    requires
        0 <= a < n,
        0 <= b < n,
        n <= usize::MAX,
    ensures
        is_involution(swapped_axes(n, a, b), n),
{
    let p = swapped_axes(n, a, b);
    assert forall|i: int| 0 <= i < n implies #[trigger] p[i] < n && p[p[i] as int] == i by {
        if i == a {
            assert(p[i] as int == b);
        } else if i == b {
            assert(p[i] as int == a);
        } else {
            assert(p[i] as int == i);
        }
    }
}

/// An axis reordering that is its own inverse is a permutation.
proof fn lemma_involution_is_permutation(perm: Seq<usize>, n: nat)
    requires
        is_involution(perm, n),
    ensures
        is_permutation(perm, n),
{
    assert forall|i: int, j: int| 0 <= i < n && 0 <= j < n && i != j implies perm[i] != perm[j] by {
        if perm[i] == perm[j] {
            assert(perm[perm[i] as int] == i);
            assert(perm[perm[j] as int] == j);
        }
    }
    assert forall|q: int| 0 <= q < n implies #[trigger] covers(perm, q) by {
        assert(perm[q] < n);
        assert(perm[perm[q] as int] == q);
    }
}

/// Reordering the dimensions by a permutation keeps the element count.
pub proof fn lemma_product_permute(s: Seq<usize>, perm: Seq<usize>)
    requires
        is_permutation(perm, s.len()),
    ensures
        shape_product(permute_seq(s, perm)) == shape_product(s),
    decreases s.len(),
{
    if s.len() > 0 {
        let n = s.len();
        let last = (n - 1) as int;
        assert(covers(perm, last));
        let k = choose|i: int| 0 <= i < perm.len() && perm[i] as int == last;
        let p2 = perm.remove(k);
        let m = (n - 1) as nat;
        assert forall|i: int| 0 <= i < m implies #[trigger] p2[i] < m by {
            if i < k {
                assert(p2[i] == perm[i]);
                assert(perm[i] != perm[k]);
            } else {
                assert(p2[i] == perm[i + 1]);
                assert(perm[i + 1] != perm[k]);
            }
        }
        assert forall|i: int, j: int| 0 <= i < m && 0 <= j < m && i != j implies p2[i] != p2[j] by {
            let ii = if i < k { i } else { i + 1 };
            let jj = if j < k { j } else { j + 1 };
            assert(p2[i] == perm[ii]);
            assert(p2[j] == perm[jj]);
        }
        assert forall|q: int| 0 <= q < m implies #[trigger] covers(p2, q) by {
            assert(covers(perm, q));
            let i = choose|i: int| 0 <= i < perm.len() && perm[i] as int == q;
            assert(i != k);
            if i < k {
                assert(p2[i] == perm[i]);
            } else {
                assert(p2[i - 1] == perm[i]);
            }
        }
        let init = s.drop_last();
        lemma_product_permute(init, p2);
        let q = permute_seq(init, p2);
        let x = s.last();
        let ps = permute_seq(s, perm);
        assert forall|i: int| 0 <= i < n implies #[trigger] ps[i] == (q.take(k) + seq![x] + q.skip(
            k,
        ))[i] by {
            if i < k {
                assert(p2[i] == perm[i]);
                assert(perm[i] != perm[k]);
            } else if i > k {
                assert(p2[i - 1] == perm[i]);
                assert(perm[i] != perm[k]);
            }
        }
        assert(ps =~= q.take(k) + seq![x] + q.skip(k));
        assert(q =~= q.take(k) + q.skip(k));
        lemma_product_concat(q.take(k) + seq![x], q.skip(k));
        lemma_product_concat(q.take(k), seq![x]);
        lemma_product_concat(q.take(k), q.skip(k));
        lemma_product_single(x);
        let a = shape_product(q.take(k));
        let b = shape_product(q.skip(k));
        let xn = x as nat;
        assert(a * xn * b == a * b * xn) by (nonlinear_arith);
    }
}

/// Reversing the dimension order keeps the element count.
pub proof fn lemma_product_reverse(s: Seq<usize>)
    requires
        s.len() <= usize::MAX,
    ensures
        shape_product(permute_seq(s, reversed_axes(s.len()))) == shape_product(s),
    decreases s.len(),
{
    if s.len() > 0 {
        let init = s.drop_last();
        lemma_product_reverse(init);
        let r = permute_seq(s, reversed_axes(s.len()));
        let ri = permute_seq(init, reversed_axes(init.len()));
        assert forall|k: int| 0 <= k < r.len() implies #[trigger] r[k] == (seq![s.last()] + ri)[k] by {
            assert(reversed_axes(s.len())[k] as int == s.len() - 1 - k);
            if k > 0 {
                assert(reversed_axes(init.len())[k - 1] as int == init.len() - 1 - (k - 1));
            }
        }
        assert(r =~= seq![s.last()] + ri);
        lemma_product_prepend(s.last(), ri);
        let a = shape_product(init);
        let l = s.last() as nat;
        assert(l * a == a * l) by (nonlinear_arith);
    }
}

/// Exchanging two dimensions keeps the element count.
pub proof fn lemma_product_swap(s: Seq<usize>, a: int, b: int)
    requires
        0 <= a < s.len(),
        0 <= b < s.len(),
        s.len() <= usize::MAX,
    ensures
        shape_product(permute_seq(s, swapped_axes(s.len(), a, b))) == shape_product(s),
{
    let p = permute_seq(s, swapped_axes(s.len(), a, b));
    assert forall|i: int| 0 <= i < s.len() implies #[trigger] p[i] == (if i == a {
        s[b]
    } else if i == b {
        s[a]
    } else {
        s[i]
    }) by {
        let q = swapped_axes(s.len(), a, b);
        if i == a {
            assert(q[i] as int == b);
        } else if i == b {
            assert(q[i] as int == a);
        } else {
            assert(q[i] as int == i);
        }
    }
    if a == b {
        assert(p =~= s);
    } else {
        let (lo, hi) = if a < b { (a, b) } else { (b, a) };
        let x = s[lo];
        let y = s[hi];
        let s1 = s.take(lo);
        let s2 = s.subrange(lo + 1, hi);
        let s3 = s.skip(hi + 1);
        assert(s =~= s1 + seq![x] + s2 + seq![y] + s3);
        assert(p =~= s1 + seq![y] + s2 + seq![x] + s3);
        lemma_product_concat(s1 + seq![x] + s2 + seq![y], s3);
        lemma_product_concat(s1 + seq![x] + s2, seq![y]);
        lemma_product_concat(s1 + seq![x], s2);
        lemma_product_concat(s1, seq![x]);
        lemma_product_concat(s1 + seq![y] + s2 + seq![x], s3);
        lemma_product_concat(s1 + seq![y] + s2, seq![x]);
        lemma_product_concat(s1 + seq![y], s2);
        lemma_product_concat(s1, seq![y]);
        lemma_product_single(x);
        lemma_product_single(y);
        let p1 = shape_product(s1);
        let p2 = shape_product(s2);
        let p3 = shape_product(s3);
        let xn = x as nat;
        let yn = y as nat;
        assert(p1 * xn * p2 * yn * p3 == p1 * yn * p2 * xn * p3) by (nonlinear_arith);
    }
}

/// Removing unit dimensions keeps the element count.
pub proof fn lemma_product_without_unit_dims(s: Seq<usize>)
    ensures
        shape_product(without_unit_dims(s)) == shape_product(s),
    decreases s.len(),
{
    if s.len() > 0 {
        lemma_product_without_unit_dims(s.drop_last());
        let w = without_unit_dims(s.drop_last());
        if s.last() != 1 {
            assert(w.push(s.last()).drop_last() =~= w);
        }
    }
}

/// Inserting a unit dimension keeps the element count.
pub proof fn lemma_product_insert_unit(s: Seq<usize>, axis: int)
    requires
        0 <= axis <= s.len(),
    ensures
        shape_product(s.insert(axis, 1)) == shape_product(s),
{
    assert(s.insert(axis, 1) =~= s.take(axis) + seq![1usize] + s.skip(axis));
    assert(s =~= s.take(axis) + s.skip(axis));
    lemma_product_concat(s.take(axis) + seq![1usize], s.skip(axis));
    lemma_product_concat(s.take(axis), seq![1usize]);
    lemma_product_concat(s.take(axis), s.skip(axis));
    lemma_product_single(1);
}

/// Law: transposing twice gives back the tensor itself.
pub proof fn lemma_transpose_twice<T>(t: Tensor<T>, r1: Tensor<T>, r2: Tensor<T>)
    requires
        t.elems().len() == shape_product(t.dims()),
        t.dims().len() <= usize::MAX,
        is_transpose_of(r1, t),
        is_transpose_of(r2, r1),
    ensures
        r2.dims() == t.dims(),
        r2.elems() == t.elems(),
{
    let n = t.dims().len();
    lemma_reversed_is_involution(n);
    lemma_product_reverse(t.dims());
    assert(r1.dims().len() == n);
    lemma_permute_twice(t, r1, r2, reversed_axes(n));
}

/// Applying an axis reordering that is its own inverse twice gives back the
/// tensor itself.
proof fn lemma_permute_twice<T>(t: Tensor<T>, r1: Tensor<T>, r2: Tensor<T>, perm: Seq<usize>)
    requires
        t.elems().len() == shape_product(t.dims()),
        is_involution(perm, t.dims().len()),
        shape_product(permute_seq(t.dims(), perm)) == shape_product(t.dims()),
        is_axis_permutation_of(r1, t, perm),
        is_axis_permutation_of(r2, r1, perm),
    ensures
        r2.dims() == t.dims(),
        r2.elems() == t.elems(),
{
    let d = t.dims();
    let n = d.len();
    let d1 = r1.dims();
    assert(d1.len() == n);
    assert forall|i: int| 0 <= i < n implies #[trigger] r2.dims()[i] == d[i] by {
        assert(perm[i] < n);
        assert(perm[perm[i] as int] == i);
    }
    assert(r2.dims() =~= d);
    assert forall|k: int| 0 <= k < t.elems().len() implies #[trigger] r2.elems()[k] == t.elems()[k] by {
        let c = coord_of(k as nat, d);
        lemma_flat_index_coord_of(k as nat, d);
        let rc = permute_seq(c, perm);
        assert forall|q: int| 0 <= q < n implies #[trigger] rc[q] < d1[q] by {
            assert(perm[q] < n);
        }
        assert(in_bounds(rc, d1));
        lemma_coord_of_flat_index(rc, d1);
        let j = flat_index(rc, d1);
        crate::shape::lemma_flat_index_bound(rc, d1);
        assert(r1.elems()[j as int] == t.elems()[k]);
        assert forall|q: int| 0 <= q < n implies #[trigger] permute_seq(rc, perm)[q] == c[q] by {
            assert(perm[q] < n);
            assert(perm[perm[q] as int] == q);
        }
        assert(permute_seq(rc, perm) =~= c);
        assert(r1.elems()[j as int] == r1.elems()[j as int]);
        assert(r2.elems()[flat_index(permute_seq(coord_of(j, d1), perm), r2.dims()) as int]
            == r1.elems()[j as int]);
    }
    assert(r2.elems() =~= t.elems());
}

/// Law: transposing reverses the order of the axes. Result axis `i` is
/// source axis `ndim - 1 - i`, and the element at source coordinate
/// `(c0, ..., c_{n-1})` sits at result coordinate `(c_{n-1}, ..., c0)`.
pub proof fn lemma_transpose_reverses_axes<T>(t: Tensor<T>, r: Tensor<T>)
    requires
        t.elems().len() == shape_product(t.dims()),
        t.dims().len() <= usize::MAX,
        is_transpose_of(r, t),
    ensures
        r.dims().len() == t.dims().len(),
        forall|i: int|
            0 <= i < t.dims().len() ==> #[trigger] r.dims()[i] == t.dims()[t.dims().len() - 1 - i],
        forall|k: int|
            0 <= k < t.elems().len() ==> r.elems()[flat_index(
                Seq::new(
                    t.dims().len(),
                    |i: int| coord_of(k as nat, t.dims())[t.dims().len() - 1 - i],
                ),
                r.dims(),
            ) as int] == #[trigger] t.elems()[k],
{
    let d = t.dims();
    let n = d.len();
    let rev = reversed_axes(n);
    assert forall|i: int| 0 <= i < n implies #[trigger] r.dims()[i] == d[n - 1 - i] by {
        assert(rev[i] as int == n - 1 - i);
    }
    assert forall|k: int| 0 <= k < t.elems().len() implies r.elems()[flat_index(
        Seq::new(n, |i: int| coord_of(k as nat, d)[n - 1 - i]),
        r.dims(),
    ) as int] == #[trigger] t.elems()[k] by {
        let c = coord_of(k as nat, d);
        lemma_flat_index_coord_of(k as nat, d);
        assert forall|i: int| 0 <= i < n implies #[trigger] permute_seq(c, rev)[i] == c[n - 1 - i] by {
            assert(rev[i] as int == n - 1 - i);
        }
        assert(permute_seq(c, rev) =~= Seq::new(n, |i: int| c[n - 1 - i]));
    }
}

/// Law: exchanging axes `a` and `b` exchanges those two dimensions and
/// leaves the others in place, and the element at source coordinate `c`
/// sits at the coordinate `c` with its `a` and `b` components exchanged.
pub proof fn lemma_swap_axes_exchanges<T>(t: Tensor<T>, r: Tensor<T>, a: int, b: int)
    requires
        t.elems().len() == shape_product(t.dims()),
        t.dims().len() <= usize::MAX,
        0 <= a < t.dims().len(),
        0 <= b < t.dims().len(),
        is_axis_permutation_of(r, t, swapped_axes(t.dims().len(), a, b)),
    ensures
        r.dims() == t.dims().update(a, t.dims()[b]).update(b, t.dims()[a]),
        forall|k: int|
            0 <= k < t.elems().len() ==> r.elems()[flat_index(
                coord_of(k as nat, t.dims()).update(a, coord_of(k as nat, t.dims())[b]).update(
                    b,
                    coord_of(k as nat, t.dims())[a],
                ),
                r.dims(),
            ) as int] == #[trigger] t.elems()[k],
{
    let d = t.dims();
    let n = d.len();
    let sw = swapped_axes(n, a, b);
    assert forall|i: int| 0 <= i < n implies #[trigger] permute_seq(d, sw)[i] == d.update(
        a,
        d[b],
    ).update(b, d[a])[i] by {
        if i == a {
            assert(sw[i] as int == b);
        } else if i == b {
            assert(sw[i] as int == a);
        } else {
            assert(sw[i] as int == i);
        }
    }
    assert(r.dims() =~= d.update(a, d[b]).update(b, d[a]));
    assert forall|k: int| 0 <= k < t.elems().len() implies r.elems()[flat_index(
        coord_of(k as nat, d).update(a, coord_of(k as nat, d)[b]).update(b, coord_of(k as nat, d)[a]),
        r.dims(),
    ) as int] == #[trigger] t.elems()[k] by {
        let c = coord_of(k as nat, d);
        lemma_flat_index_coord_of(k as nat, d);
        assert forall|i: int| 0 <= i < n implies #[trigger] permute_seq(c, sw)[i] == c.update(
            a,
            c[b],
        ).update(b, c[a])[i] by {
            if i == a {
                assert(sw[i] as int == b);
            } else if i == b {
                assert(sw[i] as int == a);
            } else {
                assert(sw[i] as int == i);
            }
        }
        assert(permute_seq(c, sw) =~= c.update(a, c[b]).update(b, c[a]));
    }
}

/// Law: squeezing keeps exactly the dimensions other than `1`, in their
/// order.
pub proof fn lemma_squeeze_keeps_non_unit_dims(s: Seq<usize>)
    ensures
        without_unit_dims(s) == s.filter(|d: usize| d != 1),
    decreases s.len(),
{
    reveal(Seq::filter);
    if s.len() > 0 {
        lemma_squeeze_keeps_non_unit_dims(s.drop_last());
    }
}

/// Law: exchanging the same two axes twice gives back the tensor itself.
pub proof fn lemma_swap_axes_twice<T>(t: Tensor<T>, r1: Tensor<T>, r2: Tensor<T>, a: int, b: int)
    requires
        t.elems().len() == shape_product(t.dims()),
        t.dims().len() <= usize::MAX,
        0 <= a < t.dims().len(),
        0 <= b < t.dims().len(),
        is_axis_permutation_of(r1, t, swapped_axes(t.dims().len(), a, b)),
        is_axis_permutation_of(r2, r1, swapped_axes(r1.dims().len(), a, b)),
    ensures
        r2.dims() == t.dims(),
        r2.elems() == t.elems(),
{
    let n = t.dims().len();
    lemma_swapped_is_involution(n, a, b);
    lemma_product_swap(t.dims(), a, b);
    assert(r1.dims().len() == n);
    lemma_permute_twice(t, r1, r2, swapped_axes(n, a, b));
}

/// Removing unit dimensions from a shape with one unit dimension inserted
/// gives the same as removing them from the shape itself.
proof fn lemma_without_unit_dims_insert(s: Seq<usize>, axis: int)
    requires
        0 <= axis <= s.len(),
    ensures
        without_unit_dims(s.insert(axis, 1usize)) == without_unit_dims(s),
    decreases s.len(),
{
    let t = s.insert(axis, 1usize);
    if axis == s.len() {
        assert(t.drop_last() =~= s);
    } else {
        lemma_without_unit_dims_insert(s.drop_last(), axis);
        assert(t.drop_last() =~= s.drop_last().insert(axis, 1usize));
        assert(t.last() == s.last());
    }
}

/// Law: squeezing after inserting a unit axis gives the same tensor as
/// squeezing the tensor itself: same shape and same elements.
pub proof fn lemma_squeeze_after_expand_dims<T>(
    t: Tensor<T>,
    expanded: Tensor<T>,
    squeezed: Tensor<T>,
    direct: Tensor<T>,
    axis: int,
)
    requires
        0 <= axis <= t.dims().len(),
        expanded.dims() == t.dims().insert(axis, 1usize),
        expanded.elems() == t.elems(),
        squeezed.dims() == without_unit_dims(expanded.dims()),
        squeezed.elems() == expanded.elems(),
        direct.dims() == without_unit_dims(t.dims()),
        direct.elems() == t.elems(),
    ensures
        squeezed.dims() == direct.dims(),
        squeezed.elems() == direct.elems(),
{
    lemma_without_unit_dims_insert(t.dims(), axis);
}

/// [`Tensor::try_reshape`] accepts reshaping `t` to `s`: `s` is a valid
/// shape with as many elements as `t`'s.
pub open spec fn reshape_accepts<T>(t: Tensor<T>, s: Seq<usize>) -> bool {
    valid_shape(s) && shape_product(s) == shape_product(t.dims())
}

/// `r` is `t` reshaped to `s`: shape `s`, the same row-major elements.
pub open spec fn is_reshape_of<T>(r: Tensor<T>, t: Tensor<T>, s: Seq<usize>) -> bool {
    r.dims() == s && r.elems() == t.elems()
}

/// Law: a reshape of a tensor of valid shape can be undone. Reshaping the
/// result back to the starting shape is accepted, and gives back the tensor
/// itself.
pub proof fn lemma_reshape_round_trip<T>(
    t: Tensor<T>,
    s: Seq<usize>,
    there: Tensor<T>,
    back: Tensor<T>,
)
    requires
        valid_shape(t.dims()),
        reshape_accepts(t, s),
        is_reshape_of(there, t, s),
        is_reshape_of(back, there, t.dims()),
    ensures
        reshape_accepts(there, t.dims()),
        back.dims() == t.dims(),
        back.elems() == t.elems(),
{
}

// ---------------------------------------------------------------------------
// Executable operations
// ---------------------------------------------------------------------------

/// The error of a reshape of `len` elements into `s` that
/// [`validate_reshape`] refuses.
pub open spec fn reshape_error(len: nat, s: Seq<usize>, operation: Seq<char>) -> ErrorView {
    if !valid_shape(s) {
        shape_validation_error(s, operation)
    } else {
        ErrorView::Shape {
            operation,
            message: "cannot reshape tensor with "@ + decimal_text(len) + " elements into shape "@
                + shape_text_spec(s) + " requiring "@ + decimal_text(shape_product(s))
                + " elements"@,
        }
    }
}

/// The error of an `axis` that a rank-`ndim` tensor does not have, as the
/// axis swaps word it.
pub open spec fn swap_axis_error(axis: nat, ndim: nat, operation: Seq<char>) -> ErrorView {
    ErrorView::Shape {
        operation,
        message: "axis "@ + decimal_text(axis) + " is out of range for rank-"@ + decimal_text(ndim)
            + " tensor"@,
    }
}

/// Validates that `new_shape` is a valid shape holding exactly `len`
/// elements, and returns that count.
pub fn validate_reshape(len: usize, new_shape: &[usize], operation: &'static str) -> (r: Result<
    usize,
    MattenError,
>)
    ensures
        r is Ok <==> valid_shape(new_shape@) && shape_product(new_shape@) == len,
        r matches Ok(n) ==> n == len,
        r matches Err(e) ==> e@ == reshape_error(len as nat, new_shape@, operation@),
{
    let new_len = match validate_shape(new_shape, operation) {
        Ok(n) => n,
        Err(e) => return Err(e),
    };
    if new_len != len {
        let mut message = concat2("cannot reshape tensor with ", decimal(len).as_str());
        message.append(" elements into shape ");
        message.append(shape_text(new_shape).as_str());
        message.append(" requiring ");
        message.append(decimal(new_len).as_str());
        message.append(" elements");
        return Err(MattenError::Shape { operation, message });
    }
    Ok(new_len)
}

/// Checks that `axis1` and `axis2` are both axes of a rank-`ndim` tensor,
/// returning [`MattenError::Shape`] otherwise.
pub fn validate_axes(axis1: usize, axis2: usize, ndim: usize, operation: &'static str) -> (r:
    Result<(), MattenError>)
    ensures
        r is Ok <==> axis1 < ndim && axis2 < ndim,
        r matches Err(e) ==> e@ == swap_axis_error(
            (if axis1 >= ndim {
                axis1
            } else {
                axis2
            }) as nat,
            ndim as nat,
            operation@,
        ),
{
    if axis1 >= ndim {
        return Err(axis_error(axis1, ndim, operation));
    }
    if axis2 >= ndim {
        return Err(axis_error(axis2, ndim, operation));
    }
    Ok(())
}

/// The "axis out of range" error.
pub fn axis_error(axis: usize, ndim: usize, operation: &'static str) -> (e: MattenError)
    ensures
        e@ == swap_axis_error(axis as nat, ndim as nat, operation@),
{
    let mut message = concat2("axis ", decimal(axis).as_str());
    message.append(" is out of range for rank-");
    message.append(decimal(ndim).as_str());
    message.append(" tensor");
    MattenError::Shape { operation, message }
}

/// Applies an axis permutation, producing a new owned row-major tensor:
/// result axis `i` is source axis `perm[i]`, and the element at source
/// coordinate `c` moves to result coordinate `permute_seq(c, perm)`.
pub fn permute_axes<T: Copy>(t: &Tensor<T>, perm: &[usize]) -> (r: Tensor<T>)
    requires
        is_permutation(perm@, t.dims().len()),
    ensures
        is_axis_permutation_of(r, *t, perm@),
{
    let src_shape = t.shape();
    let data = t.as_slice();
    let n = perm.len();
    let mut result_shape: Vec<usize> = Vec::new();
    let mut i: usize = 0;
    while i < n
        invariant
            i <= n,
            n == perm@.len(),
            is_permutation(perm@, src_shape@.len()),
            result_shape@ == permute_seq(src_shape@, perm@).take(i as int),
        decreases n - i,
    {
        result_shape.push(src_shape[perm[i]]);
        i = i + 1;
        proof {
            assert(result_shape@ =~= permute_seq(src_shape@, perm@).take(i as int));
        }
    }
    proof {
        assert(permute_seq(src_shape@, perm@).take(n as int) =~= permute_seq(src_shape@, perm@));
        lemma_product_permute(src_shape@, perm@);
    }
    // The inverse permutation: `inv[perm[i]] == i`.
    let mut inv: Vec<usize> = Vec::new();
    let mut z: usize = 0;
    while z < n
        invariant
            z <= n,
            inv@.len() == z,
        decreases n - z,
    {
        inv.push(0);
        z = z + 1;
    }
    let mut b: usize = 0;
    while b < n
        invariant
            b <= n,
            n == perm@.len(),
            inv@.len() == n,
            is_permutation(perm@, n as nat),
            forall|a: int| 0 <= a < b ==> #[trigger] inv@[perm@[a] as int] == a,
        decreases n - b,
    {
        let ghost before = inv@;
        inv.set(perm[b], b);
        proof {
            assert forall|a: int| 0 <= a < b + 1 implies #[trigger] inv@[perm@[a] as int] == a by {
                if a < b {
                    assert(perm@[a] != perm@[b as int]);
                    assert(inv@[perm@[a] as int] == before[perm@[a] as int]);
                }
            }
        }
        b = b + 1;
    }
    proof {
        assert forall|q: int| 0 <= q < n implies #[trigger] inv@[q] < n && perm@[inv@[q] as int] == q by {
            assert(covers(perm@, q));
            let w = choose|w: int| 0 <= w < perm@.len() && perm@[w] as int == q;
            assert(inv@[perm@[w] as int] == w);
        }
    }
    let len = t.len();
    let mut out: Vec<T> = Vec::new();
    let mut j: usize = 0;
    while j < len
        invariant
            j <= len,
            len as nat == shape_product(src_shape@),
            len == data@.len(),
            n == perm@.len(),
            n == inv@.len(),
            src_shape@ == t.dims(),
            data@ == t.elems(),
            is_permutation(perm@, src_shape@.len()),
            forall|q: int| 0 <= q < n ==> #[trigger] inv@[q] < n && perm@[inv@[q] as int] == q,
            result_shape@ == permute_seq(src_shape@, perm@),
            shape_product(result_shape@) == shape_product(src_shape@),
            out@.len() == j,
            forall|k: int|
                0 <= k < j ==> #[trigger] out@[k] == data@[flat_index(
                    permute_seq(coord_of(k as nat, result_shape@), inv@),
                    src_shape@,
                ) as int],
        decreases len - j,
    {
        let rc = flat_to_coord(j, result_shape.as_slice());
        let mut sc: Vec<usize> = Vec::new();
        let mut a: usize = 0;
        while a < n
            invariant
                a <= n,
                n == inv@.len(),
                rc@.len() == n,
                forall|q: int| 0 <= q < n ==> #[trigger] inv@[q] < n && perm@[inv@[q] as int] == q,
                sc@ == permute_seq(rc@, inv@).take(a as int),
            decreases n - a,
        {
            sc.push(rc[inv[a]]);
            a = a + 1;
            proof {
                assert(sc@ =~= permute_seq(rc@, inv@).take(a as int));
            }
        }
        proof {
            assert(permute_seq(rc@, inv@).take(n as int) =~= permute_seq(rc@, inv@));
            assert forall|q: int| 0 <= q < n implies #[trigger] sc@[q] < src_shape@[q] by {
                let p = inv@[q] as int;
                assert(rc@[p] < result_shape@[p]);
                assert(perm@[p] == q);
            }
        }
        let f = match coord_to_flat(sc.as_slice(), src_shape) {
            Some(f) => f,
            None => {
                proof {
                    assert(false);
                }
                0
            },
        };
        out.push(data[f]);
        j = j + 1;
    }
    proof {
        let d = src_shape@;
        let rd = result_shape@;
        assert forall|k: int| 0 <= k < data@.len() implies out@[flat_index(
            permute_seq(coord_of(k as nat, d), perm@),
            rd,
        ) as int] == #[trigger] data@[k] by {
            let c = coord_of(k as nat, d);
            lemma_flat_index_coord_of(k as nat, d);
            let rc = permute_seq(c, perm@);
            assert forall|q: int| 0 <= q < n implies #[trigger] rc[q] < rd[q] by {
                assert(perm@[q] < n);
            }
            assert(in_bounds(rc, rd));
            lemma_coord_of_flat_index(rc, rd);
            crate::shape::lemma_flat_index_bound(rc, rd);
            let jj = flat_index(rc, rd);
            assert forall|q: int| 0 <= q < n implies #[trigger] permute_seq(rc, inv@)[q] == c[q] by {
                assert(inv@[q] < n);
                assert(perm@[inv@[q] as int] == q);
            }
            assert(permute_seq(rc, inv@) =~= c);
            assert(out@[jj as int] == data@[flat_index(permute_seq(coord_of(jj, rd), inv@), d) as int]);
        }
    }
    Tensor::from_parts_checked(out, result_shape)
}

impl<T: Copy> Tensor<T> {
    /// Reshapes to `new_shape`, returning a new owned tensor with the same
    /// row-major elements. Errors are those of [`validate_reshape`]:
    /// [`MattenError::Shape`] on an element-count mismatch or a rank above
    /// the limit, [`MattenError::Allocation`] on an oversized shape.
    pub fn try_reshape(&self, new_shape: &[usize]) -> (r: Result<Tensor<T>, MattenError>)
        ensures
            r is Ok <==> reshape_accepts(*self, new_shape@),
            r matches Ok(t) ==> is_reshape_of(t, *self, new_shape@),
            r matches Err(e) ==> e@ == reshape_error(shape_product(self.dims()), new_shape@, "reshape"@),
    {
        let len = self.len();
        if let Err(e) = validate_reshape(len, new_shape, "reshape") {
            return Err(e);
        }
        Ok(Tensor::from_parts_checked(self.to_vec(), shape_to_vec(new_shape)))
    }

    /// Reshapes to `new_shape`, which must be valid and hold the same number
    /// of elements ([`Tensor::try_reshape`] is the recoverable form).
    pub fn reshape(&self, new_shape: &[usize]) -> (r: Tensor<T>)
        requires
            valid_shape(new_shape@),
            shape_product(new_shape@) == shape_product(self.dims()),
        ensures
            r.dims() == new_shape@,
            r.elems() == self.elems(),
    {
        let _len = self.len();
        Tensor::from_parts_checked(self.to_vec(), shape_to_vec(new_shape))
    }

    /// Flattens to a 1-D tensor in row-major order; a scalar becomes shape
    /// `[1]`.
    pub fn flatten(&self) -> (r: Tensor<T>)
        ensures
            r.dims() == seq![self.elems().len() as usize],
            r.elems() == self.elems(),
    {
        let len = self.len();
        let mut shape: Vec<usize> = Vec::new();
        shape.push(len);
        proof {
            assert(shape@ =~= seq![len]);
            lemma_product_single(len);
        }
        Tensor::from_parts_checked(self.to_vec(), shape)
    }

    /// Reverses the axis order: `[d0, d1, d2] -> [d2, d1, d0]`; for a matrix
    /// this swaps rows and columns. The tensor must have at least one axis.
    pub fn transpose(&self) -> (r: Tensor<T>)
        requires
            self.dims().len() > 0,
        ensures
            is_transpose_of(r, *self),
            r.dims() == permute_seq(self.dims(), reversed_axes(self.dims().len())),
            r.dims().len() == self.dims().len(),
            forall|i: int|
                0 <= i < self.dims().len() ==> #[trigger] r.dims()[i] == self.dims()[self.dims().len()
                    - 1 - i],
    {
        let n = self.ndim();
        let mut perm: Vec<usize> = Vec::new();
        let mut i: usize = 0;
        while i < n
            invariant
                i <= n,
                perm@ == reversed_axes(n as nat).take(i as int),
            decreases n - i,
        {
            perm.push(n - 1 - i);
            i = i + 1;
            proof {
                assert(perm@ =~= reversed_axes(n as nat).take(i as int));
            }
        }
        proof {
            assert(reversed_axes(n as nat).take(n as int) =~= reversed_axes(n as nat));
            assert(self.dims().len() <= usize::MAX);
            lemma_reversed_is_involution(n as nat);
            lemma_involution_is_permutation(perm@, n as nat);
        }
        let _len = self.len();
        let r = permute_axes(self, perm.as_slice());
        proof {
            lemma_transpose_reverses_axes(*self, r);
        }
        r
    }

    /// Alias for [`Tensor::transpose`].
    pub fn t(&self) -> (r: Tensor<T>)
        requires
            self.dims().len() > 0,
        ensures
            is_transpose_of(r, *self),
    {
        self.transpose()
    }

    /// Exchanges axes `axis1` and `axis2`, which must both be axes of the
    /// tensor.
    pub fn swap_axes(&self, axis1: usize, axis2: usize) -> (r: Tensor<T>)
        requires
            axis1 < self.dims().len(),
            axis2 < self.dims().len(),
        ensures
            is_axis_permutation_of(r, *self, swapped_axes(self.dims().len(), axis1 as int, axis2 as int)),
            r.dims() == self.dims().update(axis1 as int, self.dims()[axis2 as int]).update(
                axis2 as int,
                self.dims()[axis1 as int],
            ),
    {
        let n = self.ndim();
        let mut perm: Vec<usize> = Vec::new();
        let mut i: usize = 0;
        while i < n
            invariant
                i <= n,
                axis1 < n,
                axis2 < n,
                perm@ == swapped_axes(n as nat, axis1 as int, axis2 as int).take(i as int),
            decreases n - i,
        {
            if i == axis1 {
                perm.push(axis2);
            } else if i == axis2 {
                perm.push(axis1);
            } else {
                perm.push(i);
            }
            i = i + 1;
            proof {
                assert(perm@ =~= swapped_axes(n as nat, axis1 as int, axis2 as int).take(i as int));
            }
        }
        proof {
            assert(swapped_axes(n as nat, axis1 as int, axis2 as int).take(n as int) =~= swapped_axes(
                n as nat,
                axis1 as int,
                axis2 as int,
            ));
            lemma_swapped_is_involution(n as nat, axis1 as int, axis2 as int);
            lemma_involution_is_permutation(perm@, n as nat);
        }
        let _len = self.len();
        let r = permute_axes(self, perm.as_slice());
        proof {
            lemma_swap_axes_exchanges(*self, r, axis1 as int, axis2 as int);
        }
        r
    }

    /// Removes every axis of length `1`; the data order is unchanged. A
    /// tensor whose every axis is `1` becomes a scalar.
    pub fn squeeze(&self) -> (r: Tensor<T>)
        ensures
            r.dims() == without_unit_dims(self.dims()),
            r.dims() == self.dims().filter(|d: usize| d != 1),
            r.elems() == self.elems(),
    {
        proof {
            lemma_squeeze_keeps_non_unit_dims(self.dims());
        }
        let src = self.shape();
        let n = src.len();
        let mut shape: Vec<usize> = Vec::new();
        let mut i: usize = 0;
        proof {
            assert(src@.take(0) =~= Seq::<usize>::empty());
        }
        while i < n
            invariant
                i <= n,
                n == src@.len(),
                shape@ == without_unit_dims(src@.take(i as int)),
            decreases n - i,
        {
            proof {
                let t = src@.take(i + 1);
                assert(t.drop_last() =~= src@.take(i as int));
            }
            if src[i] != 1 {
                shape.push(src[i]);
            }
            i = i + 1;
        }
        proof {
            assert(src@.take(n as int) =~= src@);
            lemma_product_without_unit_dims(src@);
        }
        Tensor::from_parts_checked(self.to_vec(), shape)
    }

    /// Inserts a new axis of length `1` at `axis` (`0..=ndim`), or
    /// [`MattenError::InvalidArgument`] if `axis > ndim`. Data order is
    /// unchanged.
    pub fn try_expand_dims(&self, axis: usize) -> (r: Result<Tensor<T>, MattenError>)
        ensures
            r is Ok <==> axis <= self.dims().len(),
            r matches Ok(t) ==> t.dims() == self.dims().insert(axis as int, 1usize) && t.elems()
                == self.elems(),
            r matches Err(e) ==> e@ == (ErrorView::InvalidArgument {
                operation: "expand_dims"@,
                argument: "axis"@,
                message: "axis "@ + decimal_text(axis as nat) + " is out of range for a rank-"@
                    + decimal_text(self.dims().len()) + " tensor (valid 0..="@ + decimal_text(
                    self.dims().len(),
                ) + ")"@,
            }),
    {
        let ndim = self.ndim();
        if axis > ndim {
            let mut message = concat2("axis ", decimal(axis).as_str());
            message.append(" is out of range for a rank-");
            message.append(decimal(ndim).as_str());
            message.append(" tensor (valid 0..=");
            message.append(decimal(ndim).as_str());
            message.append(")");
            return Err(MattenError::InvalidArgument {
                operation: "expand_dims",
                argument: "axis",
                message,
            });
        }
        let mut shape = shape_to_vec(self.shape());
        shape.insert(axis, 1);
        proof {
            lemma_product_insert_unit(self.dims(), axis as int);
        }
        Ok(Tensor::from_parts_checked(self.to_vec(), shape))
    }

    /// Inserts a new axis of length `1` at `axis`, which must be at most
    /// the rank ([`Tensor::try_expand_dims`] is the recoverable form).
    pub fn expand_dims(&self, axis: usize) -> (r: Tensor<T>)
        requires
            axis <= self.dims().len(),
        ensures
            r.dims() == self.dims().insert(axis as int, 1usize),
            r.elems() == self.elems(),
    {
        match self.try_expand_dims(axis) {
            Ok(t) => t,
            Err(_) => {
                proof {
                    assert(false);
                }
                self.flatten()
            },
        }
    }
}

} // verus!
