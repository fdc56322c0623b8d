//! Row-major block layouts shared by the composition operations.
//!
//! Around an axis `k`, a row-major tensor of shape `s` is a sequence of
//! `outer = product(s[..k])` slabs; each slab is `s[k]` consecutive blocks of
//! `inner = product(s[k+1..])` elements. Joining tensors along an axis
//! interleaves their slabs; repeating along an axis repeats blocks.

use vstd::prelude::*;
use crate::shape::{lemma_prefix_le_product, lemma_product_concat, lemma_product_split, shape_product};

verus! {

/// Block `o` of size `size` of `s`: `s[o*size .. (o+1)*size]`.
pub open spec fn block<T>(s: Seq<T>, size: nat, o: nat) -> Seq<T> {
    s.subrange((o * size) as int, ((o + 1) * size) as int)
}

/// The `o`-th blocks of every sequence in `ts` (block sizes `sizes`),
/// concatenated in order.
pub open spec fn interleave_blocks<T>(ts: Seq<Seq<T>>, sizes: Seq<nat>, o: nat) -> Seq<T>
    decreases ts.len(),
{
    if ts.len() == 0 {
        Seq::empty()
    } else {
        interleave_blocks(ts.drop_last(), sizes.drop_last(), o) + block(ts.last(), sizes.last(), o)
    }
}

/// For `o` in `0..outer`, the interleaved `o`-th blocks of all sequences.
pub open spec fn join_layout<T>(ts: Seq<Seq<T>>, sizes: Seq<nat>, outer: nat) -> Seq<T>
    decreases outer,
{
    if outer == 0 {
        Seq::empty()
    } else {
        join_layout(ts, sizes, (outer - 1) as nat) + interleave_blocks(ts, sizes, (outer - 1) as nat)
    }
}

/// `s` repeated `n` times.
pub open spec fn repeat_seq<T>(s: Seq<T>, n: nat) -> Seq<T>
    decreases n,
{
    if n == 0 {
        Seq::empty()
    } else {
        repeat_seq(s, (n - 1) as nat) + s
    }
}

/// Every block of `s` (blocks of size `size`, `count` of them) repeated `n`
/// times in place.
pub open spec fn repeat_blocks<T>(s: Seq<T>, size: nat, count: nat, n: nat) -> Seq<T>
    decreases count,
{
    if count == 0 {
        Seq::empty()
    } else {
        repeat_blocks(s, size, (count - 1) as nat, n) + repeat_seq(block(s, size, (count - 1) as nat), n)
    }
}

/// The sum of a sequence of naturals.
pub open spec fn nat_sum(s: Seq<nat>) -> nat
    decreases s.len(),
{
    if s.len() == 0 {
        0
    } else {
        nat_sum(s.drop_last()) + s.last()
    }
}

/// A prefix sum is at most the whole sum.
pub proof fn lemma_nat_sum_prefix_le(s: Seq<nat>, k: int)
    requires
        0 <= k <= s.len(),
    ensures
        nat_sum(s.take(k)) <= nat_sum(s),
    decreases s.len() - k,
{
    if k < s.len() {
        lemma_nat_sum_prefix_le(s, k + 1);
        assert(s.take(k + 1).drop_last() =~= s.take(k));
    } else {
        assert(s.take(k) =~= s);
    }
}

/// Each sequence in `ts` holds at least `outer` blocks of its size.
pub open spec fn blocks_available<T>(ts: Seq<Seq<T>>, sizes: Seq<nat>, outer: nat) -> bool {
    &&& ts.len() == sizes.len()
    &&& forall|k: int| 0 <= k < ts.len() ==> #[trigger] ts[k].len() >= outer * sizes[k]
}

pub proof fn lemma_block_len<T>(s: Seq<T>, size: nat, o: nat, outer: nat)
    requires
        o < outer,
        s.len() >= outer * size,
    ensures
        block(s, size, o).len() == size,
        (o + 1) * size <= s.len(),
{
    assert((o + 1) * size <= outer * size) by (nonlinear_arith)
        requires
            o < outer,
    ;
    assert(o * size <= (o + 1) * size) by (nonlinear_arith);
    assert((o + 1) * size == o * size + size) by (nonlinear_arith);
}

pub proof fn lemma_interleave_len<T>(ts: Seq<Seq<T>>, sizes: Seq<nat>, o: nat, outer: nat)
    requires
        o < outer,
        blocks_available(ts, sizes, outer),
    ensures
        interleave_blocks(ts, sizes, o).len() == nat_sum(sizes),
    decreases ts.len(),
{
    if ts.len() > 0 {
        let k = ts.len() - 1;
        assert(blocks_available(ts.drop_last(), sizes.drop_last(), outer)) by {
            assert forall|j: int| 0 <= j < ts.drop_last().len() implies #[trigger] ts.drop_last()[j].len()
                >= outer * sizes.drop_last()[j] by {
                assert(ts[j].len() >= outer * sizes[j]);
            }
        }
        lemma_interleave_len(ts.drop_last(), sizes.drop_last(), o, outer);
        assert(ts[k].len() >= outer * sizes[k]);
        lemma_block_len(ts.last(), sizes.last(), o, outer);
    }
}

pub proof fn lemma_join_len<T>(ts: Seq<Seq<T>>, sizes: Seq<nat>, outer: nat, done: nat)
    requires
        done <= outer,
        blocks_available(ts, sizes, outer),
    ensures
        join_layout(ts, sizes, done).len() == done * nat_sum(sizes),
    decreases done,
{
    if done > 0 {
        lemma_join_len(ts, sizes, outer, (done - 1) as nat);
        lemma_interleave_len(ts, sizes, (done - 1) as nat, outer);
        let s = nat_sum(sizes);
        assert(((done - 1) as nat) * s + s == done * s) by (nonlinear_arith)
            requires
                done > 0,
        ;
    } else {
        assert(0 * nat_sum(sizes) == 0) by (nonlinear_arith);
    }
}

pub proof fn lemma_repeat_seq_len<T>(s: Seq<T>, n: nat)
    ensures
        repeat_seq(s, n).len() == n * s.len(),
    decreases n,
{
    if n > 0 {
        lemma_repeat_seq_len(s, (n - 1) as nat);
        assert(((n - 1) as nat) * s.len() + s.len() == n * s.len()) by (nonlinear_arith)
            requires
                n > 0,
        ;
    } else {
        assert(0 * s.len() == 0) by (nonlinear_arith);
    }
}

pub proof fn lemma_repeat_blocks_len<T>(s: Seq<T>, size: nat, count: nat, n: nat, total: nat)
    requires
        count <= total,
        s.len() >= total * size,
    ensures
        repeat_blocks(s, size, count, n).len() == count * (n * size),
    decreases count,
{
    if count > 0 {
        lemma_repeat_blocks_len(s, size, (count - 1) as nat, n, total);
        lemma_block_len(s, size, (count - 1) as nat, total);
        lemma_repeat_seq_len(block(s, size, (count - 1) as nat), n);
        let b = n * size;
        assert(((count - 1) as nat) * b + b == count * b) by (nonlinear_arith)
            requires
                count > 0,
        ;
    } else {
        assert(0 * (n * size) == 0) by (nonlinear_arith);
    }
}

/// The product of a middle range of a shape with positive dimensions is at
/// most the product of the whole shape.
pub proof fn lemma_range_le_product(s: Seq<usize>, lo: int, hi: int)
    requires
        0 <= lo <= hi <= s.len(),
        forall|k: int| 0 <= k < s.len() ==> #[trigger] s[k] > 0,
    ensures
        shape_product(s.subrange(lo, hi)) <= shape_product(s),
{
    let t = s.skip(lo);
    assert forall|k: int| 0 <= k < t.len() implies #[trigger] t[k] > 0 by {
        assert(t[k] == s[lo + k]);
    }
    lemma_prefix_le_product(t, hi - lo);
    assert(t.take(hi - lo) =~= s.subrange(lo, hi));
    lemma_product_split(s, lo);
    lemma_prefix_le_product(s, lo);
    let a = shape_product(s.take(lo));
    let b = shape_product(t);
    assert(a >= 1 ==> b <= a * b) by (nonlinear_arith);
    crate::shape::lemma_product_zero_iff(s.take(lo));
    if a == 0 {
        let k = choose|k: int| 0 <= k < s.take(lo).len() && s.take(lo)[k] == 0;
        assert(s[k] > 0);
    }
}

/// A shape's product splits around axis `k` as
/// `product(s[..k]) * s[k] * product(s[k+1..])`.
pub proof fn lemma_product_around_axis(s: Seq<usize>, k: int)
    requires
        0 <= k < s.len(),
    ensures
        shape_product(s) == shape_product(s.take(k)) * (s[k] as nat) * shape_product(s.skip(k + 1)),
        shape_product(s.skip(k)) == (s[k] as nat) * shape_product(s.skip(k + 1)),
{
    lemma_product_split(s, k);
    let t = s.skip(k);
    assert(t =~= seq![s[k]] + s.skip(k + 1));
    crate::shape::lemma_product_prepend(s[k], s.skip(k + 1));
    let a = shape_product(s.take(k));
    let d = s[k] as nat;
    let b = shape_product(s.skip(k + 1));
    assert(a * (d * b) == a * d * b) by (nonlinear_arith);
}

/// Computes `product(s[lo..hi])` for a shape whose dimensions are all
/// positive and whose product fits in `usize`.
pub fn range_product(s: &[usize], lo: usize, hi: usize) -> (r: usize)
    requires
        lo <= hi <= s@.len(),
        forall|k: int| 0 <= k < s@.len() ==> #[trigger] s@[k] > 0,
        shape_product(s@) <= usize::MAX,
    ensures
        r as nat == shape_product(s@.subrange(lo as int, hi as int)),
{
    let mut acc: usize = 1;
    let mut k: usize = lo;
    proof {
        assert(s@.subrange(lo as int, lo as int) =~= Seq::<usize>::empty());
    }
    while k < hi
        invariant
            lo <= k <= hi,
            hi <= s@.len(),
            forall|j: int| 0 <= j < s@.len() ==> #[trigger] s@[j] > 0,
            shape_product(s@) <= usize::MAX,
            acc as nat == shape_product(s@.subrange(lo as int, k as int)),
        decreases hi - k,
    {
        proof {
            let t = s@.subrange(lo as int, k + 1);
            assert(t.drop_last() =~= s@.subrange(lo as int, k as int));
            assert(t.last() == s@[k as int]);
            lemma_range_le_product(s@, lo as int, k + 1);
        }
        acc = acc * s[k];
        k = k + 1;
    }
    acc
}

/// Appends `src[start .. start + size]` to `out`.
pub fn push_block<T: Copy>(out: &mut Vec<T>, src: &[T], start: usize, size: usize)
    requires
        start + size <= src@.len(),
    ensures
        final(out)@ == old(out)@ + src@.subrange(start as int, start + size),
{
    let mut e: usize = 0;
    let ghost before = out@;
    let _n = src.len();
    while e < size
        invariant
            e <= size,
            src@.len() <= usize::MAX,
            start + size <= src@.len(),
            out@ == before + src@.subrange(start as int, start + e),
        decreases size - e,
    {
        out.push(src[start + e]);
        e = e + 1;
        proof {
            assert(out@ =~= before + src@.subrange(start as int, start + e));
        }
    }
}

} // verus!
