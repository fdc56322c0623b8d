//! The text form of a slice: comma-separated axis specifications.
//!
//! Each axis is one of `i` (an index), `start:end` or `start:end:step` (a
//! range; either bound may be left out, the step may not be left out once
//! its colon is written), or `:` (the whole axis). Indices and bounds may
//! carry a leading `-` to count from the end of the axis; a step is a plain
//! unsigned number. ASCII whitespace around each piece is ignored. The text
//! is read as bytes: anything outside this grammar is rejected.

use vstd::prelude::*;
use crate::display::vec_rows;
use crate::slice::{AxisSpec, SignedIndex};

verus! {

/// ASCII whitespace: space, tab, line feed, vertical tab, form feed,
/// carriage return.
pub open spec fn is_ws(b: u8) -> bool {
    b == 32 || (9 <= b && b <= 13)
}

/// An ASCII decimal digit.
pub open spec fn is_digit(b: u8) -> bool {
    48 <= b && b <= 57
}

/// `s` without leading whitespace.
pub open spec fn trim_start(s: Seq<u8>) -> Seq<u8>
    decreases s.len(),
{
    if s.len() > 0 && is_ws(s[0]) {
        trim_start(s.drop_first())
    } else {
        s
    }
}

/// `s` without trailing whitespace.
pub open spec fn trim_end(s: Seq<u8>) -> Seq<u8>
    decreases s.len(),
{
    if s.len() > 0 && is_ws(s.last()) {
        trim_end(s.drop_last())
    } else {
        s
    }
}

/// `s` without surrounding whitespace.
pub open spec fn trim(s: Seq<u8>) -> Seq<u8> {
    trim_end(trim_start(s))
}

/// The pieces of `s` between occurrences of `sep` (one more piece than
/// there are separators).
pub open spec fn split_on(s: Seq<u8>, sep: u8) -> Seq<Seq<u8>>
    decreases s.len(),
{
    if s.len() == 0 {
        seq![Seq::empty()]
    } else {
        let parts = split_on(s.drop_last(), sep);
        if s.last() == sep {
            parts.push(Seq::empty())
        } else {
            parts.update(parts.len() - 1, parts.last().push(s.last()))
        }
    }
}

/// The value of a sequence of decimal digits.
pub open spec fn digits_value(s: Seq<u8>) -> nat
    decreases s.len(),
{
    if s.len() == 0 {
        0
    } else {
        digits_value(s.drop_last()) * 10 + (s.last() - 48) as nat
    }
}

/// A non-empty run of digits whose value fits `usize`.
pub open spec fn parse_unsigned(s: Seq<u8>) -> Option<usize> {
    if s.len() > 0 && (forall|i: int| 0 <= i < s.len() ==> #[trigger] is_digit(s[i]))
        && digits_value(s) <= usize::MAX {
        Some(digits_value(s) as usize)
    } else {
        None
    }
}

/// An unsigned number with an optional leading `-`.
pub open spec fn parse_signed(s: Seq<u8>) -> Option<SignedIndex> {
    if s.len() > 0 && s[0] == 45 {
        match parse_unsigned(s.drop_first()) {
            Some(m) => Some(SignedIndex { negative: true, magnitude: m }),
            None => None,
        }
    } else {
        match parse_unsigned(s) {
            Some(m) => Some(SignedIndex { negative: false, magnitude: m }),
            None => None,
        }
    }
}

/// A range bound: absent when blank, else a signed number.
pub open spec fn parse_bound(s: Seq<u8>) -> Option<Option<SignedIndex>> {
    let t = trim(s);
    if t.len() == 0 {
        Some(None)
    } else {
        match parse_signed(t) {
            Some(v) => Some(Some(v)),
            None => None,
        }
    }
}

/// One axis specification.
pub open spec fn parse_axis(c: Seq<u8>) -> Option<AxisSpec> {
    let parts = split_on(c, 58);
    if parts.len() == 1 {
        match parse_signed(trim(parts[0])) {
            Some(v) => Some(AxisSpec::Index(v)),
            None => None,
        }
    } else if parts.len() == 2 {
        match (parse_bound(parts[0]), parse_bound(parts[1])) {
            (Some(a), Some(b)) => if a is None && b is None {
                Some(AxisSpec::All)
            } else {
                Some(AxisSpec::Range { start: a, end: b, step: None })
            },
            _ => None,
        }
    } else if parts.len() == 3 {
        match (parse_bound(parts[0]), parse_bound(parts[1]), parse_unsigned(trim(parts[2]))) {
            (Some(a), Some(b), Some(st)) => Some(AxisSpec::Range { start: a, end: b, step: Some(st) }),
            _ => None,
        }
    } else {
        None
    }
}

/// The axis specifications of a whole slice text, when every
/// comma-separated piece is one.
pub open spec fn parse_slice_text(s: Seq<u8>) -> Option<Seq<AxisSpec>> {
    let comps = split_on(s, 44);
    if forall|k: int| 0 <= k < comps.len() ==> #[trigger] parse_axis(comps[k]) is Some {
        Some(Seq::new(comps.len(), |k: int| parse_axis(comps[k])->0))
    } else {
        None
    }
}

proof fn lemma_split_nonempty(s: Seq<u8>, sep: u8)
    ensures
        split_on(s, sep).len() >= 1,
    decreases s.len(),
{
    if s.len() > 0 {
        lemma_split_nonempty(s.drop_last(), sep);
    }
}

/// The pieces of `s` between occurrences of `sep`.
pub fn split_bytes(s: &[u8], sep: u8) -> (r: Vec<Vec<u8>>)
    ensures
        vec_rows(r@) == split_on(s@, sep),
{
    let mut parts: Vec<Vec<u8>> = Vec::new();
    parts.push(Vec::new());
    let n = s.len();
    let mut i: usize = 0;
    proof {
        assert(s@.take(0) =~= Seq::<u8>::empty());
        assert(vec_rows(parts@) =~= split_on(Seq::<u8>::empty(), sep));
    }
    while i < n
        invariant
            i <= n,
            n == s@.len(),
            vec_rows(parts@) == split_on(s@.take(i as int), sep),
            parts@.len() >= 1,
        decreases n - i,
    {
        let b = s[i];
        let ghost before = vec_rows(parts@);
        proof {
            assert(s@.take(i + 1).drop_last() =~= s@.take(i as int));
            lemma_split_nonempty(s@.take(i as int), sep);
        }
        if b == sep {
            parts.push(Vec::new());
            proof {
                assert(vec_rows(parts@) =~= before.push(Seq::empty()));
            }
        } else {
            let mut piece = parts.pop().unwrap();
            piece.push(b);
            parts.push(piece);
            proof {
                assert(vec_rows(parts@) =~= before.update(before.len() - 1, before.last().push(b)));
            }
        }
        i = i + 1;
    }
    proof {
        assert(s@.take(n as int) =~= s@);
    }
    parts
}

/// `s` without surrounding whitespace.
pub fn trim_bytes(s: &[u8]) -> (r: Vec<u8>)
    ensures
        r@ == trim(s@),
{
    let n = s.len();
    let mut a: usize = 0;
    assert(s@.skip(0) =~= s@);
    while a < n && (s[a] == 32 || (9 <= s[a] && s[a] <= 13))
        invariant
            a <= n,
            n == s@.len(),
            trim_start(s@) == trim_start(s@.skip(a as int)),
        decreases n - a,
    {
        proof {
            assert(s@.skip(a as int).drop_first() =~= s@.skip(a + 1));
        }
        a = a + 1;
    }
    let mut b: usize = n;
    proof {
        assert(trim_start(s@.skip(a as int)) == s@.skip(a as int));
        assert(s@.skip(a as int) =~= s@.subrange(a as int, b as int));
    }
    while b > a && (s[b - 1] == 32 || (9 <= s[b - 1] && s[b - 1] <= 13))
        invariant
            a <= b <= n,
            n == s@.len(),
            trim(s@) == trim_end(s@.subrange(a as int, b as int)),
        decreases b - a,
    {
        proof {
            assert(s@.subrange(a as int, b as int).drop_last() =~= s@.subrange(a as int, b - 1));
        }
        b = b - 1;
    }
    proof {
        assert(trim_end(s@.subrange(a as int, b as int)) == s@.subrange(a as int, b as int));
    }
    let mut r: Vec<u8> = Vec::new();
    let mut k: usize = a;
    while k < b
        invariant
            a <= k <= b <= n,
            n == s@.len(),
            r@ == s@.subrange(a as int, k as int),
        decreases b - k,
    {
        r.push(s[k]);
        k = k + 1;
        assert(r@ =~= s@.subrange(a as int, k as int));
    }
    r
}

/// A value of a digit prefix is at most the value of the whole run.
proof fn lemma_digits_prefix_le(s: Seq<u8>, i: int)
    requires
        0 <= i <= s.len(),
        forall|k: int| 0 <= k < s.len() ==> #[trigger] is_digit(s[k]),
    ensures
        digits_value(s.take(i)) <= digits_value(s),
    decreases s.len() - i,
{
    if i < s.len() {
        lemma_digits_prefix_le(s, i + 1);
        let t = s.take(i + 1);
        assert(t.drop_last() =~= s.take(i));
        assert(is_digit(s[i]));
    } else {
        assert(s.take(i) =~= s);
    }
}

/// A non-empty run of digits whose value fits `usize`.
pub fn parse_unsigned_bytes(s: &[u8]) -> (r: Option<usize>)
    ensures
        r == parse_unsigned(s@),
{
    let n = s.len();
    if n == 0 {
        return None;
    }
    let mut v: usize = 0;
    let mut i: usize = 0;
    while i < n
        invariant
            i <= n,
            n == s@.len(),
            n > 0,
            forall|k: int| 0 <= k < i ==> #[trigger] is_digit(s@[k]),
            v as nat == digits_value(s@.take(i as int)),
        decreases n - i,
    {
        let b = s[i];
        if b < 48 || b > 57 {
            proof {
                assert(!is_digit(s@[i as int]));
            }
            return None;
        }
        proof {
            assert(s@.take(i + 1).drop_last() =~= s@.take(i as int));
        }
        let d = (b - 48) as usize;
        let next = match v.checked_mul(10) {
            Some(x) => x.checked_add(d),
            None => None,
        };
        match next {
            Some(x) => {
                v = x;
            },
            None => {
                proof {
                    assert(digits_value(s@.take(i + 1)) > usize::MAX);
                    if forall|k: int| 0 <= k < n ==> #[trigger] is_digit(s@[k]) {
                        lemma_digits_prefix_le(s@, i + 1);
                    }
                }
                return None;
            },
        }
        i = i + 1;
    }
    proof {
        assert(s@.take(n as int) =~= s@);
    }
    Some(v)
}

/// An unsigned number with an optional leading `-`.
pub fn parse_signed_bytes(s: &[u8]) -> (r: Option<SignedIndex>)
    ensures
        r == parse_signed(s@),
{
    if s.len() > 0 && s[0] == 45 {
        let mut rest: Vec<u8> = Vec::new();
        let mut i: usize = 1;
        while i < s.len()
            invariant
                1 <= i <= s@.len(),
                rest@ == s@.subrange(1, i as int),
            decreases s@.len() - i,
        {
            rest.push(s[i]);
            i = i + 1;
            assert(rest@ =~= s@.subrange(1, i as int));
        }
        assert(rest@ =~= s@.drop_first());
        match parse_unsigned_bytes(rest.as_slice()) {
            Some(m) => Some(SignedIndex { negative: true, magnitude: m }),
            None => None,
        }
    } else {
        match parse_unsigned_bytes(s) {
            Some(m) => Some(SignedIndex { negative: false, magnitude: m }),
            None => None,
        }
    }
}

/// A range bound: absent when blank, else a signed number.
pub fn parse_bound_bytes(s: &[u8]) -> (r: Option<Option<SignedIndex>>)
    ensures
        r == parse_bound(s@),
{
    let t = trim_bytes(s);
    if t.len() == 0 {
        Some(None)
    } else {
        match parse_signed_bytes(t.as_slice()) {
            Some(v) => Some(Some(v)),
            None => None,
        }
    }
}

/// One axis specification.
pub fn parse_axis_bytes(c: &[u8]) -> (r: Option<AxisSpec>)
    ensures
        r == parse_axis(c@),
{
    let parts = split_bytes(c, 58);
    proof {
        assert(vec_rows(parts@).len() == parts@.len());
    }
    if parts.len() == 1 {
        proof {
            assert(parts@[0]@ == vec_rows(parts@)[0]);
        }
        let t = trim_bytes(parts[0].as_slice());
        match parse_signed_bytes(t.as_slice()) {
            Some(v) => Some(AxisSpec::Index(v)),
            None => None,
        }
    } else if parts.len() == 2 {
        proof {
            assert(parts@[0]@ == vec_rows(parts@)[0]);
            assert(parts@[1]@ == vec_rows(parts@)[1]);
        }
        let a = parse_bound_bytes(parts[0].as_slice());
        let b = parse_bound_bytes(parts[1].as_slice());
        match (a, b) {
            (Some(a), Some(b)) => {
                if a.is_none() && b.is_none() {
                    Some(AxisSpec::All)
                } else {
                    Some(AxisSpec::Range { start: a, end: b, step: None })
                }
            },
            _ => None,
        }
    } else if parts.len() == 3 {
        proof {
            assert(parts@[0]@ == vec_rows(parts@)[0]);
            assert(parts@[1]@ == vec_rows(parts@)[1]);
            assert(parts@[2]@ == vec_rows(parts@)[2]);
        }
        let a = parse_bound_bytes(parts[0].as_slice());
        let b = parse_bound_bytes(parts[1].as_slice());
        let t = trim_bytes(parts[2].as_slice());
        let st = parse_unsigned_bytes(t.as_slice());
        match (a, b, st) {
            (Some(a), Some(b), Some(st)) => Some(AxisSpec::Range { start: a, end: b, step: Some(st) }),
            _ => None,
        }
    } else {
        None
    }
}

/// The axis specifications of a whole slice text.
pub fn parse_slice_bytes(s: &[u8]) -> (r: Option<Vec<AxisSpec>>)
    ensures
        r is Some <==> parse_slice_text(s@) is Some,
        r matches Some(v) ==> v@ == parse_slice_text(s@)->0,
{
    let comps = split_bytes(s, 44);
    let ghost cs = split_on(s@, 44);
    let n = comps.len();
    let mut out: Vec<AxisSpec> = Vec::new();
    let mut k: usize = 0;
    while k < n
        invariant
            k <= n,
            n == comps@.len(),
            vec_rows(comps@) == cs,
            cs == split_on(s@, 44),
            out@.len() == k,
            forall|q: int| 0 <= q < k ==> #[trigger] parse_axis(cs[q]) is Some,
            forall|q: int| 0 <= q < k ==> Some(#[trigger] out@[q]) == parse_axis(cs[q]),
        decreases n - k,
    {
        proof {
            assert(comps@[k as int]@ == cs[k as int]);
        }
        match parse_axis_bytes(comps[k].as_slice()) {
            Some(a) => {
                out.push(a);
            },
            None => {
                proof {
                    assert(parse_axis(cs[k as int]) is None);
                }
                return None;
            },
        }
        k = k + 1;
    }
    proof {
        assert(out@ =~= parse_slice_text(s@)->0);
    }
    Some(out)
}

} // verus!
