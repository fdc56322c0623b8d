//! Slicing: selecting an index or a (strided) range on every axis.
//!
//! A slice has one specification per axis. An index keeps one position and
//! drops the axis; a range keeps `start, start + step, ...` below `end` and
//! keeps the axis. The result is a new owned row-major tensor. Every
//! specification is checked against its axis: out-of-range positions are
//! errors, never clamped.

use vstd::prelude::*;
use crate::broadcast::shape_to_vec;
use crate::error::MattenError;
use crate::shape::{
    coord_of, coord_to_flat, flat_index, flat_to_coord, in_bounds, lemma_flat_index_bound,
    lemma_flat_index_coord_of, shape_product,
};
use crate::tensor::Tensor;
use crate::limits::MAX_SLICE_STR_BYTES;
use vstd::utf8::encode_utf8;
use crate::slice_text::{parse_slice_bytes, parse_slice_text};
use crate::text::{concat2, decimal, decimal_text};

verus! {

/// One axis of a slice, resolved against the axis size.
#[derive(Debug, Clone, Copy, PartialEq, Eq, Structural)]
pub enum Resolved {
    /// Keep position `i`; the axis is dropped.
    Index(usize),
    /// Keep `len` positions `start, start + step, ...`; the axis is kept.
    Range { start: usize, len: usize, step: usize },
}

/// Every position `r` keeps lies inside an axis of size `dim`.
pub open spec fn resolved_fits(r: Resolved, dim: usize) -> bool {
    match r {
        Resolved::Index(i) => i < dim,
        Resolved::Range { start, len, step } => step > 0 && (len == 0 || start + (len - 1) * step
            < dim),
    }
}

/// Each resolved axis fits the matching dimension of `dims`.
pub open spec fn all_fit(rs: Seq<Resolved>, dims: Seq<usize>) -> bool {
    &&& rs.len() == dims.len()
    &&& forall|k: int| 0 <= k < rs.len() ==> #[trigger] resolved_fits(rs[k], dims[k])
}

/// The result shape: the lengths of the range axes, in order.
pub open spec fn out_dims(rs: Seq<Resolved>) -> Seq<usize>
    decreases rs.len(),
{
    if rs.len() == 0 {
        Seq::empty()
    } else {
        match rs.last() {
            Resolved::Index(_) => out_dims(rs.drop_last()),
            Resolved::Range { len, .. } => out_dims(rs.drop_last()).push(len),
        }
    }
}

/// The source coordinate read for result coordinate `oc`.
pub open spec fn source_coord(oc: Seq<usize>, rs: Seq<Resolved>) -> Seq<usize>
    decreases rs.len(),
{
    if rs.len() == 0 {
        Seq::empty()
    } else {
        match rs.last() {
            Resolved::Index(i) => source_coord(oc, rs.drop_last()).push(i),
            Resolved::Range { start, step, .. } => source_coord(oc.drop_last(), rs.drop_last()).push(
                (start + oc.last() * step) as usize,
            ),
        }
    }
}

/// The elements of the slice of a tensor with shape `dims` and elements
/// `elems`: result position `j` reads the source at `source_coord`.
pub open spec fn slice_elems<T>(elems: Seq<T>, dims: Seq<usize>, rs: Seq<Resolved>) -> Seq<T> {
    Seq::new(
        shape_product(out_dims(rs)),
        |j: int| elems[flat_index(source_coord(coord_of(j as nat, out_dims(rs)), rs), dims) as int],
    )
}

proof fn lemma_out_dims_step(rs: Seq<Resolved>, k: int)
    requires
        0 <= k < rs.len(),
    ensures
        out_dims(rs.take(k + 1)) == match rs[k] {
            Resolved::Index(_) => out_dims(rs.take(k)),
            Resolved::Range { len, .. } => out_dims(rs.take(k)).push(len),
        },
{
    assert(rs.take(k + 1).drop_last() =~= rs.take(k));
}

proof fn lemma_source_coord_step(oc: Seq<usize>, rs: Seq<Resolved>, k: int, p: int)
    requires
        0 <= k < rs.len(),
        p == out_dims(rs.take(k)).len(),
        p < oc.len() || rs[k] is Index,
    ensures
        source_coord(oc.take(out_dims(rs.take(k + 1)).len() as int), rs.take(k + 1)) == match rs[k] {
            Resolved::Index(i) => source_coord(oc.take(p), rs.take(k)).push(i),
            Resolved::Range { start, step, .. } => source_coord(oc.take(p), rs.take(k)).push(
                (start + oc[p] * step) as usize,
            ),
        },
{
    lemma_out_dims_step(rs, k);
    assert(rs.take(k + 1).drop_last() =~= rs.take(k));
    match rs[k] {
        Resolved::Index(_) => {},
        Resolved::Range { .. } => {
            assert(oc.take(p + 1).drop_last() =~= oc.take(p));
        },
    }
}

proof fn lemma_out_dims_len(rs: Seq<Resolved>)
    ensures
        out_dims(rs).len() <= rs.len(),
    decreases rs.len(),
{
    if rs.len() > 0 {
        lemma_out_dims_len(rs.drop_last());
    }
}

/// The result of a fitting slice has no more elements than its source.
proof fn lemma_out_product_le(rs: Seq<Resolved>, dims: Seq<usize>)
    requires
        all_fit(rs, dims),
    ensures
        shape_product(out_dims(rs)) <= shape_product(dims),
    decreases rs.len(),
{
    if rs.len() > 0 {
        let r0 = rs.drop_last();
        let d0 = dims.drop_last();
        assert(all_fit(r0, d0)) by {
            assert forall|k: int| 0 <= k < r0.len() implies #[trigger] resolved_fits(r0[k], d0[k]) by {
                assert(resolved_fits(rs[k], dims[k]));
            }
        }
        lemma_out_product_le(r0, d0);
        let a = shape_product(out_dims(r0));
        let b = shape_product(d0);
        let d = dims.last() as nat;
        assert(resolved_fits(rs[rs.len() - 1], dims[dims.len() - 1]));
        match rs.last() {
            Resolved::Index(i) => {
                assert(d >= 1);
                assert(a <= b && d >= 1 ==> a <= b * d) by (nonlinear_arith);
            },
            Resolved::Range { start, len, step } => {
                let o = out_dims(r0).push(len);
                assert(o.drop_last() =~= out_dims(r0));
                if len > 0 {
                    assert((len - 1) * step >= len - 1) by (nonlinear_arith)
                        requires
                            step > 0,
                            len > 0,
                    ;
                }
                assert(len as nat <= d);
                assert(a <= b && (len as nat) <= d ==> a * (len as nat) <= b * d) by (nonlinear_arith);
            },
        }
    }
}

/// A kept range position lies inside the axis.
proof fn lemma_range_position(start: usize, len: usize, step: usize, dim: usize, c: usize)
    requires
        resolved_fits(Resolved::Range { start, len, step }, dim),
        c < len,
    ensures
        start + c * step < dim,
{
    assert(c * step <= (len - 1) * step) by (nonlinear_arith)
        requires
            c <= len - 1,
    ;
}

/// Gathers the slice of `t` described by `rs` (one resolved axis per axis
/// of `t`, each fitting its dimension) into a new tensor.
pub fn gather<T: Copy>(t: &Tensor<T>, rs: &Vec<Resolved>) -> (r: Tensor<T>)
    requires
        all_fit(rs@, t.dims()),
    ensures
        r.dims() == out_dims(rs@),
        r.elems() == slice_elems(t.elems(), t.dims(), rs@),
{
    let src_shape = t.shape();
    let data = t.as_slice();
    let n = rs.len();
    let mut shape: Vec<usize> = Vec::new();
    let mut k: usize = 0;
    while k < n
        invariant
            k <= n,
            n == rs@.len(),
            shape@ == out_dims(rs@.take(k as int)),
        decreases n - k,
    {
        proof {
            lemma_out_dims_step(rs@, k as int);
        }
        match rs[k] {
            Resolved::Index(_) => {},
            Resolved::Range { len, .. } => {
                shape.push(len);
            },
        }
        k = k + 1;
    }
    proof {
        assert(rs@.take(n as int) =~= rs@);
        lemma_out_product_le(rs@, t.dims());
        lemma_out_dims_len(rs@);
    }
    let ghost od = out_dims(rs@);
    let dlen = data.len();
    let mut has_zero = false;
    let mut z: usize = 0;
    while z < shape.len()
        invariant
            z <= shape@.len(),
            has_zero <==> exists|q: int| 0 <= q < z && shape@[q] == 0,
        decreases shape@.len() - z,
    {
        if shape[z] == 0 {
            has_zero = true;
        }
        z = z + 1;
    }
    let total: usize = if has_zero {
        proof {
            crate::shape::lemma_product_zero_iff(shape@);
        }
        0
    } else {
        proof {
            assert forall|q: int| 0 <= q < shape@.len() implies #[trigger] shape@[q] > 0 by {
                if shape@[q] == 0 {
                    assert(exists|w: int| 0 <= w < z && shape@[w] == 0);
                }
            }
            assert forall|q: int| 0 <= q <= shape@.len() implies #[trigger] shape_product(
                shape@.take(q),
            ) <= usize::MAX by {
                crate::shape::lemma_prefix_le_product(shape@, q);
            }
        }
        match crate::broadcast::shape_len(shape.as_slice()) {
            Some(v) => v,
            None => {
                proof {
                    assert(false);
                }
                0
            },
        }
    };
    let mut out: Vec<T> = Vec::new();
    let mut j: usize = 0;
    while j < total
        invariant
            j <= total,
            total as nat == shape_product(od),
            shape@ == od,
            od == out_dims(rs@),
            all_fit(rs@, t.dims()),
            src_shape@ == t.dims(),
            data@ == t.elems(),
            data@.len() == shape_product(t.dims()),
            dlen as nat == data@.len(),
            n == rs@.len(),
            out@.len() == j,
            forall|q: int| 0 <= q < j ==> #[trigger] out@[q] == slice_elems(t.elems(), t.dims(), rs@)[q],
        decreases total - j,
    {
        let oc = flat_to_coord(j, shape.as_slice());
        let mut sc: Vec<usize> = Vec::new();
        let mut p: usize = 0;
        let mut k: usize = 0;
        proof {
            assert(oc@.take(0) =~= Seq::<usize>::empty());
            assert(rs@.take(0) =~= Seq::<Resolved>::empty());
        }
        while k < n
            invariant
                k <= n,
                n == rs@.len(),
                all_fit(rs@, t.dims()),
                src_shape@ == t.dims(),
                oc@ == coord_of(j as nat, od),
                in_bounds(oc@, od),
                od == out_dims(rs@),
                p == out_dims(rs@.take(k as int)).len(),
                p <= oc@.len(),
                sc@ == source_coord(oc@.take(p as int), rs@.take(k as int)),
                sc@.len() == k,
                forall|q: int| 0 <= q < k ==> #[trigger] sc@[q] < src_shape@[q],
            decreases n - k,
        {
            proof {
                lemma_out_dims_step(rs@, k as int);
                assert(resolved_fits(rs@[k as int], t.dims()[k as int]));
            }
            match rs[k] {
                Resolved::Index(i) => {
                    proof {
                        lemma_source_coord_step(oc@, rs@, k as int, p as int);
                    }
                    sc.push(i);
                },
                Resolved::Range { start, len, step } => {
                    proof {
                        lemma_out_dims_len(rs@.take(k as int));
                        lemma_out_dims_prefix_index(rs@, k as int);
                        assert(p < od.len());
                        assert(od[p as int] == len);
                        assert(oc@[p as int] < len);
                        lemma_range_position(start, len, step, src_shape[k as int], oc@[p as int]);
                        lemma_source_coord_step(oc@, rs@, k as int, p as int);
                    }
                    sc.push(start + oc[p] * step);
                    p = p + 1;
                },
            }
            k = k + 1;
        }
        proof {
            assert(rs@.take(n as int) =~= rs@);
            lemma_out_dims_len(rs@);
            assert(oc@.take(p as int) =~= oc@);
            assert(in_bounds(sc@, src_shape@));
            lemma_flat_index_bound(sc@, src_shape@);
        }
        let f = match coord_to_flat(sc.as_slice(), src_shape) {
            Some(f) => f,
            None => {
                proof {
                    assert(false);
                }
                0
            },
        };
        out.push(data[f]);
        j = j + 1;
    }
    proof {
        assert(out@ =~= slice_elems(t.elems(), t.dims(), rs@));
    }
    Tensor::from_parts_checked(out, shape)
}

/// The range axes before axis `k` take the first positions of the result
/// shape, so the result dimension of a range axis `k` is its length.
proof fn lemma_out_dims_prefix_index(rs: Seq<Resolved>, k: int)
    requires
        0 <= k < rs.len(),
        rs[k] is Range,
    ensures
        out_dims(rs.take(k)).len() < out_dims(rs).len(),
        out_dims(rs)[out_dims(rs.take(k)).len() as int] == rs[k]->len,
    decreases rs.len(),
{
    if k == rs.len() - 1 {
        assert(rs.take(k) =~= rs.drop_last());
    } else {
        lemma_out_dims_prefix_index(rs.drop_last(), k);
        assert(rs.drop_last().take(k) =~= rs.take(k));
        match rs.last() {
            Resolved::Index(_) => {},
            Resolved::Range { .. } => {},
        }
    }
}

/// A position as written: a magnitude, counted from the end of the axis
/// when `negative` (`-1` is the last position; `-0` is position `0`).
#[derive(Debug, Clone, Copy, PartialEq, Eq, Structural)]
pub struct SignedIndex {
    /// Whether the position counts from the end.
    pub negative: bool,
    /// The written magnitude.
    pub magnitude: usize,
}

/// One axis of a slice as specified.
#[derive(Debug, Clone, Copy, PartialEq, Eq, Structural)]
pub enum AxisSpec {
    /// A single position; the axis is dropped.
    Index(SignedIndex),
    /// Positions `start, start + step, ...` below `end`; the axis is kept.
    /// Absent bounds mean the ends of the axis; an absent step is `1`.
    Range { start: Option<SignedIndex>, end: Option<SignedIndex>, step: Option<usize> },
    /// The whole axis.
    All,
}

/// The position a written index denotes on an axis of size `dim`, if any.
pub open spec fn resolve_signed(v: SignedIndex, dim: usize) -> Option<usize> {
    if v.negative && v.magnitude > 0 {
        if v.magnitude <= dim {
            Some((dim - v.magnitude) as usize)
        } else {
            None
        }
    } else {
        Some(v.magnitude)
    }
}

/// The number of positions `0, step, 2 * step, ...` below `span`.
pub open spec fn range_len(span: nat, step: nat) -> nat {
    span / step + if span % step == 0 {
        0nat
    } else {
        1nat
    }
}

/// The step of a range specification.
pub open spec fn spec_step(step: Option<usize>) -> usize {
    match step {
        Some(x) => x,
        None => 1,
    }
}

/// The resolved start of a range specification.
pub open spec fn range_start(start: Option<SignedIndex>, dim: usize) -> Option<usize> {
    match start {
        Some(v) => resolve_signed(v, dim),
        None => Some(0),
    }
}

/// The resolved end of a range specification.
pub open spec fn range_end(end: Option<SignedIndex>, dim: usize) -> Option<usize> {
    match end {
        Some(v) => resolve_signed(v, dim),
        None => Some(dim),
    }
}

/// What `spec` selects on an axis of size `dim`, or `None` when it does not
/// fit the axis.
pub open spec fn resolve_axis(spec: AxisSpec, dim: usize) -> Option<Resolved> {
    match spec {
        AxisSpec::Index(v) => match resolve_signed(v, dim) {
            Some(i) => if i < dim {
                Some(Resolved::Index(i))
            } else {
                None
            },
            None => None,
        },
        AxisSpec::All => Some(Resolved::Range { start: 0, len: dim, step: 1 }),
        AxisSpec::Range { start, end, step } => {
            let st = spec_step(step);
            let s = range_start(start, dim);
            let e = range_end(end, dim);
            if st == 0 || s is None || e is None || e->0 > dim || s->0 > e->0 {
                None
            } else {
                Some(
                    Resolved::Range {
                        start: s->0,
                        len: range_len((e->0 - s->0) as nat, st as nat) as usize,
                        step: st,
                    },
                )
            }
        },
    }
}

/// The text of a negative position past the start of the axis.
pub open spec fn negative_text(label: Seq<char>, m: usize, dim: usize, axis: nat, op: Seq<char>) -> Seq<
    char,
> {
    label + " -"@ + decimal_text(m as nat) + " (resolves to -"@ + decimal_text((m - dim) as nat)
        + ") is out of range for axis "@ + decimal_text(axis) + " with size "@ + decimal_text(
        dim as nat,
    ) + " in "@ + op
}

/// A range bound as written, with what it resolves to when it counts from
/// the end.
pub open spec fn bound_text(v: Option<SignedIndex>, resolved: usize) -> Seq<char> {
    match v {
        Some(w) => if w.negative && w.magnitude > 0 {
            "-"@ + decimal_text(w.magnitude as nat) + " (resolves to "@ + decimal_text(
                resolved as nat,
            ) + ")"@
        } else {
            decimal_text(resolved as nat)
        },
        None => decimal_text(resolved as nat),
    }
}

/// The message for `spec` not fitting axis `axis` of size `dim`.
pub open spec fn axis_error_text(spec: AxisSpec, dim: usize, axis: nat, op: Seq<char>) -> Seq<char> {
    match spec {
        AxisSpec::Index(v) => match resolve_signed(v, dim) {
            None => negative_text("index"@, v.magnitude, dim, axis, op),
            Some(i) => "index "@ + decimal_text(i as nat) + " is out of bounds for axis "@
                + decimal_text(axis) + " with size "@ + decimal_text(dim as nat),
        },
        AxisSpec::All => Seq::empty(),
        AxisSpec::Range { start, end, step } => {
            let s = range_start(start, dim);
            let e = range_end(end, dim);
            if spec_step(step) == 0 {
                "step must be greater than zero for axis "@ + decimal_text(axis)
            } else if s is None {
                negative_text("range start"@, start->0.magnitude, dim, axis, op)
            } else if e is None {
                negative_text("range end"@, end->0.magnitude, dim, axis, op)
            } else if e->0 > dim {
                "range end "@ + decimal_text(e->0 as nat) + " exceeds size "@ + decimal_text(
                    dim as nat,
                ) + " of axis "@ + decimal_text(axis)
            } else {
                "range start "@ + bound_text(start, s->0) + " > end "@ + bound_text(end, e->0)
                    + " for axis "@ + decimal_text(axis) + " in "@ + op
            }
        },
    }
}

/// A resolved axis fits the axis it was resolved against.
proof fn lemma_resolved_fits(spec: AxisSpec, dim: usize)
    requires
        resolve_axis(spec, dim) is Some,
    ensures
        resolved_fits(resolve_axis(spec, dim)->0, dim),
{
    match spec {
        AxisSpec::Range { start, end, step } => {
            let st = spec_step(step) as nat;
            let s = range_start(start, dim)->0 as nat;
            let e = range_end(end, dim)->0 as nat;
            let a = (e - s) as nat;
            let len = range_len(a, st);
            if st > 0 {
                vstd::arithmetic::div_mod::lemma_fundamental_div_mod(a as int, st as int);
                vstd::arithmetic::div_mod::lemma_mod_pos_bound(a as int, st as int);
            }
            if len > 0 && st > 0 {
                assert((len - 1) * st <= a - 1) by (nonlinear_arith)
                    requires
                        st > 0,
                        len == a / st + if a % st == 0 {
                            0nat
                        } else {
                            1nat
                        },
                        len > 0,
                        a == st * (a / st) + a % st,
                        a % st < st,
                ;
                assert(len <= a) by (nonlinear_arith)
                    requires
                        st > 0,
                        len > 0,
                        (len - 1) * st <= a - 1,
                ;
            }
        },
        _ => {},
    }
}

fn signed_text(v: &Option<SignedIndex>, resolved: usize) -> (r: String)
    ensures
        r@ == bound_text(*v, resolved),
{
    match v {
        Some(w) => {
            if w.negative && w.magnitude > 0 {
                let mut r = concat2("-", decimal(w.magnitude).as_str());
                r.append(" (resolves to ");
                r.append(decimal(resolved).as_str());
                r.append(")");
                r
            } else {
                decimal(resolved)
            }
        },
        None => decimal(resolved),
    }
}

fn negative_message(label: &str, m: usize, dim: usize, axis: usize, op: &str) -> (r: String)
    requires
        m > dim,
    ensures
        r@ == negative_text(label@, m, dim, axis as nat, op@),
{
    let mut r = concat2(label, " -");
    r.append(decimal(m).as_str());
    r.append(" (resolves to -");
    r.append(decimal(m - dim).as_str());
    r.append(") is out of range for axis ");
    r.append(decimal(axis).as_str());
    r.append(" with size ");
    r.append(decimal(dim).as_str());
    r.append(" in ");
    r.append(op);
    r
}

fn resolve_signed_exec(v: SignedIndex, dim: usize) -> (r: Option<usize>)
    ensures
        r == resolve_signed(v, dim),
{
    if v.negative && v.magnitude > 0 {
        if v.magnitude <= dim {
            Some(dim - v.magnitude)
        } else {
            None
        }
    } else {
        Some(v.magnitude)
    }
}

/// Resolves one axis specification against an axis of size `dim`; the
/// error is the message for it.
pub fn resolve_one(spec: &AxisSpec, dim: usize, axis: usize, op: &str) -> (r: Result<
    Resolved,
    String,
>)
    ensures
        r is Ok <==> resolve_axis(*spec, dim) is Some,
        r matches Ok(v) ==> resolve_axis(*spec, dim) == Some(v),
        r matches Err(m) ==> m@ == axis_error_text(*spec, dim, axis as nat, op@),
{
    match spec {
        AxisSpec::Index(v) => match resolve_signed_exec(*v, dim) {
            Some(i) => {
                if i < dim {
                    Ok(Resolved::Index(i))
                } else {
                    let mut m = concat2("index ", decimal(i).as_str());
                    m.append(" is out of bounds for axis ");
                    m.append(decimal(axis).as_str());
                    m.append(" with size ");
                    m.append(decimal(dim).as_str());
                    Err(m)
                }
            },
            None => Err(negative_message("index", v.magnitude, dim, axis, op)),
        },
        AxisSpec::All => Ok(Resolved::Range { start: 0, len: dim, step: 1 }),
        AxisSpec::Range { start, end, step } => {
            let st = match step {
                Some(x) => *x,
                None => 1,
            };
            if st == 0 {
                return Err(concat2("step must be greater than zero for axis ", decimal(axis).as_str()));
            }
            let s = match start {
                Some(v) => match resolve_signed_exec(*v, dim) {
                    Some(x) => x,
                    None => {
                        return Err(negative_message("range start", v.magnitude, dim, axis, op));
                    },
                },
                None => 0,
            };
            let e = match end {
                Some(v) => match resolve_signed_exec(*v, dim) {
                    Some(x) => x,
                    None => {
                        return Err(negative_message("range end", v.magnitude, dim, axis, op));
                    },
                },
                None => dim,
            };
            if e > dim {
                let mut m = concat2("range end ", decimal(e).as_str());
                m.append(" exceeds size ");
                m.append(decimal(dim).as_str());
                m.append(" of axis ");
                m.append(decimal(axis).as_str());
                return Err(m);
            }
            if s > e {
                let mut m = concat2("range start ", signed_text(start, s).as_str());
                m.append(" > end ");
                m.append(signed_text(end, e).as_str());
                m.append(" for axis ");
                m.append(decimal(axis).as_str());
                m.append(" in ");
                m.append(op);
                return Err(m);
            }
            let span = e - s;
            proof {
                vstd::arithmetic::div_mod::lemma_fundamental_div_mod(span as int, st as int);
                vstd::arithmetic::div_mod::lemma_mod_pos_bound(span as int, st as int);
                if span % st != 0 {
                    let q = span / st;
                    let rr = span % st;
                    assert(q + 1 <= span) by (nonlinear_arith)
                        requires
                            span == st * q + rr,
                            0 < rr < st,
                            q >= 0,
                    ;
                }
            }
            let len = span / st + if span % st == 0 {
                0
            } else {
                1
            };
            Ok(Resolved::Range { start: s, len, step: st })
        },
    }
}

/// The resolved axes of `specs` against `dims`, when there is one per axis
/// and every one fits.
pub open spec fn resolve_all(specs: Seq<AxisSpec>, dims: Seq<usize>) -> Option<Seq<Resolved>> {
    if specs.len() == dims.len() && forall|k: int|
        0 <= k < specs.len() ==> #[trigger] resolve_axis(specs[k], dims[k]) is Some {
        Some(Seq::new(specs.len(), |k: int| resolve_axis(specs[k], dims[k])->0))
    } else {
        None
    }
}

/// The message for a slice with `n` axis specifications on a tensor of
/// rank `rank`.
pub open spec fn rank_error_text(n: nat, rank: nat) -> Seq<char> {
    "slice has "@ + decimal_text(n) + " axis specifications but the tensor has rank "@
        + decimal_text(rank)
}

/// `message` reports why `specs` does not slice a tensor of shape `dims`:
/// a rank mismatch, or the first axis that does not fit.
pub open spec fn slice_failure(
    specs: Seq<AxisSpec>,
    dims: Seq<usize>,
    op: Seq<char>,
    message: Seq<char>,
) -> bool {
    ||| specs.len() != dims.len() && message == rank_error_text(specs.len(), dims.len())
    ||| specs.len() == dims.len() && exists|k: int|
        0 <= k < specs.len() && (forall|q: int|
            0 <= q < k ==> #[trigger] resolve_axis(specs[q], dims[q]) is Some) && resolve_axis(
            specs[k],
            dims[k],
        ) is None && message == #[trigger] axis_error_text(specs[k], dims[k], k as nat, op)
}

/// Slices `t` by `specs`, one per axis; `operation` names the caller in
/// messages. A rank mismatch or an axis that does not fit is a
/// [`MattenError::Slice`] carrying no input text.
pub fn execute_slice<T: Copy>(t: &Tensor<T>, specs: &[AxisSpec], operation: &str) -> (r: Result<
    Tensor<T>,
    MattenError,
>)
    ensures
        r is Ok <==> resolve_all(specs@, t.dims()) is Some,
        r matches Ok(s) ==> s.dims() == out_dims(resolve_all(specs@, t.dims())->0) && s.elems()
            == slice_elems(t.elems(), t.dims(), resolve_all(specs@, t.dims())->0),
        r matches Err(e) ==> (e matches MattenError::Slice { input, message } && input is None
            && slice_failure(specs@, t.dims(), operation@, message@)),
{
    let shape = t.shape();
    let n = specs.len();
    if n != shape.len() {
        let mut message = concat2("slice has ", decimal(n).as_str());
        message.append(" axis specifications but the tensor has rank ");
        message.append(decimal(shape.len()).as_str());
        return Err(MattenError::Slice { input: None, message });
    }
    let mut rs: Vec<Resolved> = Vec::new();
    let mut k: usize = 0;
    while k < n
        invariant
            k <= n,
            n == specs@.len(),
            n == shape@.len(),
            shape@ == t.dims(),
            rs@.len() == k,
            forall|q: int| 0 <= q < k ==> #[trigger] resolve_axis(specs@[q], shape@[q]) is Some,
            forall|q: int| 0 <= q < k ==> Some(#[trigger] rs@[q]) == resolve_axis(specs@[q], shape@[q]),
        decreases n - k,
    {
        match resolve_one(&specs[k], shape[k], k, operation) {
            Ok(v) => {
                rs.push(v);
            },
            Err(message) => {
                proof {
                    let ki = k as int;
                    assert(resolve_axis(specs@[ki], t.dims()[ki]) is None);
                    assert(message@ == axis_error_text(specs@[ki], t.dims()[ki], ki as nat, operation@));
                    assert(slice_failure(specs@, t.dims(), operation@, message@));
                }
                return Err(MattenError::Slice { input: None, message });
            },
        }
        k = k + 1;
    }
    proof {
        let all = resolve_all(specs@, t.dims());
        assert(all is Some);
        assert(rs@ =~= all->0);
        assert forall|q: int| 0 <= q < rs@.len() implies #[trigger] resolved_fits(rs@[q], t.dims()[q]) by {
            lemma_resolved_fits(specs@[q], shape@[q]);
        }
    }
    Ok(gather(t, &rs))
}

/// The message for a slice text longer than the limit.
pub open spec fn too_long_text(n: nat) -> Seq<char> {
    "slice specification is "@ + decimal_text(n) + " bytes, exceeding the maximum length of "@
        + decimal_text(MAX_SLICE_STR_BYTES as nat) + " bytes"@
}

/// The message for a slice text outside the grammar.
pub open spec fn malformed_text() -> Seq<char> {
    "expected ':', an index, or a range start:end or start:end:step for every comma-separated axis"@
}

/// The axis specifications a slice text denotes, if it is within the
/// length limit and the grammar.
pub open spec fn parsed_slice(spec: &str) -> Option<Seq<AxisSpec>> {
    if encode_utf8(spec@).len() <= MAX_SLICE_STR_BYTES {
        parse_slice_text(encode_utf8(spec@))
    } else {
        None
    }
}

/// Parses a slice text. A text longer than [`MAX_SLICE_STR_BYTES`] bytes or
/// outside the grammar is a [`MattenError::Slice`] carrying the text.
pub fn parse_slice_str(spec: &str) -> (r: Result<Vec<AxisSpec>, MattenError>)
    ensures
        r is Ok <==> parsed_slice(spec) is Some,
        r matches Ok(v) ==> v@ == parsed_slice(spec)->0,
        r matches Err(e) ==> (e matches MattenError::Slice { input, message } && input matches Some(
            i,
        ) && i@ == spec@ && message@ == if encode_utf8(spec@).len() > MAX_SLICE_STR_BYTES {
            too_long_text(encode_utf8(spec@).len())
        } else {
            malformed_text()
        }),
{
    let bytes = spec.as_bytes();
    let n = bytes.len();
    if n > MAX_SLICE_STR_BYTES {
        let mut message = concat2("slice specification is ", decimal(n).as_str());
        message.append(" bytes, exceeding the maximum length of ");
        message.append(decimal(MAX_SLICE_STR_BYTES).as_str());
        message.append(" bytes");
        return Err(MattenError::Slice { input: Some(String::from_str(spec)), message });
    }
    match parse_slice_bytes(bytes) {
        Some(v) => Ok(v),
        None => Err(
            MattenError::Slice {
                input: Some(String::from_str(spec)),
                message: String::from_str(
                    "expected ':', an index, or a range start:end or start:end:step for every comma-separated axis",
                ),
            },
        ),
    }
}

/// A slice under construction: the source tensor and the axis
/// specifications given so far, in axis order.
pub struct SliceBuilder<'a, T> {
    tensor: &'a Tensor<T>,
    specs: Vec<AxisSpec>,
}

/// A non-negative written position.
pub open spec fn plain(i: usize) -> SignedIndex {
    SignedIndex { negative: false, magnitude: i }
}

impl<'a, T: Copy> SliceBuilder<'a, T> {
    /// The tensor being sliced.
    pub closed spec fn source(&self) -> Tensor<T> {
        *self.tensor
    }

    /// The axis specifications given so far.
    pub closed spec fn specs(&self) -> Seq<AxisSpec> {
        self.specs@
    }

    /// Selects position `i` on the next axis (dropping it).
    pub fn index(self, i: usize) -> (r: Self)
        ensures
            r.source() == self.source(),
            r.specs() == self.specs().push(AxisSpec::Index(plain(i))),
    {
        let mut specs = self.specs;
        specs.push(AxisSpec::Index(SignedIndex { negative: false, magnitude: i }));
        SliceBuilder { tensor: self.tensor, specs }
    }

    /// Keeps the whole next axis.
    pub fn all(self) -> (r: Self)
        ensures
            r.source() == self.source(),
            r.specs() == self.specs().push(AxisSpec::All),
    {
        let mut specs = self.specs;
        specs.push(AxisSpec::All);
        SliceBuilder { tensor: self.tensor, specs }
    }

    /// Keeps positions `bounds.start .. bounds.end` of the next axis.
    pub fn range(self, bounds: std::ops::Range<usize>) -> (r: Self)
        ensures
            r.source() == self.source(),
            r.specs() == self.specs().push(
                AxisSpec::Range {
                    start: Some(plain(bounds.start)),
                    end: Some(plain(bounds.end)),
                    step: None,
                },
            ),
    {
        let mut specs = self.specs;
        specs.push(
            AxisSpec::Range {
                start: Some(SignedIndex { negative: false, magnitude: bounds.start }),
                end: Some(SignedIndex { negative: false, magnitude: bounds.end }),
                step: None,
            },
        );
        SliceBuilder { tensor: self.tensor, specs }
    }

    /// Keeps positions from `start` to the end of the next axis.
    pub fn range_from(self, start: usize) -> (r: Self)
        ensures
            r.source() == self.source(),
            r.specs() == self.specs().push(
                AxisSpec::Range { start: Some(plain(start)), end: None, step: None },
            ),
    {
        let mut specs = self.specs;
        specs.push(
            AxisSpec::Range {
                start: Some(SignedIndex { negative: false, magnitude: start }),
                end: None,
                step: None,
            },
        );
        SliceBuilder { tensor: self.tensor, specs }
    }

    /// Keeps positions below `end` of the next axis.
    pub fn range_to(self, end: usize) -> (r: Self)
        ensures
            r.source() == self.source(),
            r.specs() == self.specs().push(
                AxisSpec::Range { start: None, end: Some(plain(end)), step: None },
            ),
    {
        let mut specs = self.specs;
        specs.push(
            AxisSpec::Range {
                start: None,
                end: Some(SignedIndex { negative: false, magnitude: end }),
                step: None,
            },
        );
        SliceBuilder { tensor: self.tensor, specs }
    }

    /// Builds the slice; see [`execute_slice`] for the errors.
    pub fn build(&self) -> (r: Result<Tensor<T>, MattenError>)
        ensures
            r is Ok <==> resolve_all(self.specs(), self.source().dims()) is Some,
            r matches Ok(s) ==> s.dims() == out_dims(
                resolve_all(self.specs(), self.source().dims())->0,
            ) && s.elems() == slice_elems(
                self.source().elems(),
                self.source().dims(),
                resolve_all(self.specs(), self.source().dims())->0,
            ),
            r matches Err(e) ==> (e matches MattenError::Slice { input, message } && input is None
                && slice_failure(self.specs(), self.source().dims(), "slice"@, message@)),
    {
        execute_slice(self.tensor, self.specs.as_slice(), "slice")
    }
}

impl<T: Copy> Tensor<T> {
    /// Starts a slice of this tensor with no axis specified yet.
    pub fn slice(&self) -> (r: SliceBuilder<'_, T>)
        ensures
            r.source() == *self,
            r.specs() == Seq::<AxisSpec>::empty(),
    {
        SliceBuilder { tensor: self, specs: Vec::new() }
    }

    /// Slices this tensor by a slice text such as `"0, 1:3"` or `"-1, ::2"`.
    /// Errors are [`MattenError::Slice`]: those of [`parse_slice_str`], then
    /// those of [`execute_slice`].
    pub fn slice_str(&self, spec: &str) -> (r: Result<Tensor<T>, MattenError>)
        ensures
            r is Ok <==> parsed_slice(spec) is Some && resolve_all(
                parsed_slice(spec)->0,
                self.dims(),
            ) is Some,
            r matches Ok(s) ==> s.dims() == out_dims(
                resolve_all(parsed_slice(spec)->0, self.dims())->0,
            ) && s.elems() == slice_elems(
                self.elems(),
                self.dims(),
                resolve_all(parsed_slice(spec)->0, self.dims())->0,
            ),
            r matches Err(e) ==> e is Slice,
            parsed_slice(spec) is None ==> (r matches Err(MattenError::Slice { input, message })
                && input matches Some(i) && i@ == spec@ && message@ == if encode_utf8(spec@).len()
                > MAX_SLICE_STR_BYTES {
                too_long_text(encode_utf8(spec@).len())
            } else {
                malformed_text()
            }),
            parsed_slice(spec) is Some ==> (r matches Err(MattenError::Slice { input, message })
                ==> input is None && slice_failure(
                parsed_slice(spec)->0,
                self.dims(),
                "slice_str"@,
                message@,
            )),
    {
        let specs = parse_slice_str(spec)?;
        execute_slice(self, specs.as_slice(), "slice_str")
    }
}

/// Whole-axis ranges over `dims`.
pub open spec fn full_ranges(dims: Seq<usize>) -> Seq<Resolved> {
    Seq::new(dims.len(), |k: int| Resolved::Range { start: 0, len: dims[k], step: 1 })
}

proof fn lemma_full_ranges(dims: Seq<usize>, oc: Seq<usize>)
    requires
        oc.len() == dims.len(),
    ensures
        out_dims(full_ranges(dims)) == dims,
        source_coord(oc, full_ranges(dims)) == oc,
    decreases dims.len(),
{
    if dims.len() > 0 {
        let d0 = dims.drop_last();
        assert(full_ranges(dims).drop_last() =~= full_ranges(d0));
        lemma_full_ranges(d0, oc.drop_last());
        assert(out_dims(full_ranges(dims)) =~= dims);
        assert(source_coord(oc, full_ranges(dims)) =~= oc);
    } else {
        assert(dims =~= Seq::<usize>::empty());
        assert(oc =~= Seq::<usize>::empty());
    }
}

/// Law: keeping every axis whole (`:` on each axis) gives back the tensor.
pub proof fn lemma_slice_all_axes<T>(t: Tensor<T>, specs: Seq<AxisSpec>)
    requires
        t.elems().len() == shape_product(t.dims()),
        specs.len() == t.dims().len(),
        forall|k: int| 0 <= k < specs.len() ==> #[trigger] specs[k] == AxisSpec::All,
    ensures
        resolve_all(specs, t.dims()) is Some,
        out_dims(resolve_all(specs, t.dims())->0) == t.dims(),
        slice_elems(t.elems(), t.dims(), resolve_all(specs, t.dims())->0) == t.elems(),
{
    let d = t.dims();
    assert(forall|k: int| 0 <= k < specs.len() ==> #[trigger] resolve_axis(specs[k], d[k]) is Some);
    let rs = resolve_all(specs, d)->0;
    assert(rs =~= full_ranges(d));
    lemma_full_ranges(d, Seq::new(d.len(), |k: int| 0usize));
    assert forall|j: int| 0 <= j < t.elems().len() implies #[trigger] slice_elems(
        t.elems(),
        d,
        rs,
    )[j] == t.elems()[j] by {
        let c = coord_of(j as nat, d);
        lemma_flat_index_coord_of(j as nat, d);
        lemma_full_ranges(d, c);
    }
    assert(slice_elems(t.elems(), d, rs) =~= t.elems());
}

} // verus!
