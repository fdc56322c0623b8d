//! Small verified text builders used to assemble human-readable error
//! messages: decimal rendering of integers and `[a, b, c]` rendering of shapes.

use vstd::prelude::*;

verus! {

/// The ASCII digit for `d` (`0 <= d < 10`).
pub open spec fn digit_char(d: nat) -> char {
    if d == 0 { '0' }
    else if d == 1 { '1' }
    else if d == 2 { '2' }
    else if d == 3 { '3' }
    else if d == 4 { '4' }
    else if d == 5 { '5' }
    else if d == 6 { '6' }
    else if d == 7 { '7' }
    else if d == 8 { '8' }
    else { '9' }
}

/// The decimal representation of `n`, most significant digit first, with no
/// leading zeros (zero itself is `"0"`).
pub open spec fn decimal_text(n: nat) -> Seq<char>
    decreases n,
{
    if n < 10 {
        seq![digit_char(n)]
    } else {
        decimal_text(n / 10).push(digit_char(n % 10))
    }
}

/// The comma-separated decimal rendering of the items of `s`.
pub open spec fn items_text(s: Seq<usize>) -> Seq<char>
    decreases s.len(),
{
    if s.len() == 0 {
        Seq::empty()
    } else if s.len() == 1 {
        decimal_text(s[0] as nat)
    } else {
        items_text(s.drop_last()) + ", "@ + decimal_text(s.last() as nat)
    }
}

/// `[a, b, c]`, the way a shape is shown in messages.
pub open spec fn shape_text_spec(s: Seq<usize>) -> Seq<char> {
    seq!['['] + items_text(s) + seq![']']
}

fn digit(d: usize) -> (r: &'static str)
    requires
        d < 10,
    ensures
        r@ == seq![digit_char(d as nat)],
{
    proof {
        reveal_strlit("0");
        reveal_strlit("1");
        reveal_strlit("2");
        reveal_strlit("3");
        reveal_strlit("4");
        reveal_strlit("5");
        reveal_strlit("6");
        reveal_strlit("7");
        reveal_strlit("8");
        reveal_strlit("9");
    }
    if d == 0 { "0" }
    else if d == 1 { "1" }
    else if d == 2 { "2" }
    else if d == 3 { "3" }
    else if d == 4 { "4" }
    else if d == 5 { "5" }
    else if d == 6 { "6" }
    else if d == 7 { "7" }
    else if d == 8 { "8" }
    else { "9" }
}

/// Renders `n` in decimal.
pub fn decimal(n: usize) -> (r: String)
    ensures
        r@ == decimal_text(n as nat),
    decreases n,
{
    if n < 10 {
        String::from_str(digit(n))
    } else {
        let mut s = decimal(n / 10);
        s.append(digit(n % 10));
        s
    }
}

/// Renders a 64-bit unsigned integer in decimal.
pub fn decimal_u64(n: u64) -> (r: String)
    ensures
        r@ == decimal_text(n as nat),
    decreases n,
{
    if n < 10 {
        String::from_str(digit(n as usize))
    } else {
        let mut s = decimal_u64(n / 10);
        s.append(digit((n % 10) as usize));
        s
    }
}

/// Renders a shape as `[a, b, c]`.
pub fn shape_text(shape: &[usize]) -> (r: String)
    ensures
        r@ == shape_text_spec(shape@),
{
    proof {
        reveal_strlit("[");
        reveal_strlit("]");
        reveal_strlit(", ");
    }
    let mut r = String::from_str("[");
    let n = shape.len();
    let mut i: usize = 0;
    while i < n
        invariant
            i <= n,
            n == shape@.len(),
            r@ == seq!['['] + items_text(shape@.take(i as int)),
        decreases n - i,
    {
        let ghost prev = shape@.take(i as int);
        if i > 0 {
            r.append(", ");
        }
        let d = decimal(shape[i]);
        r.append(d.as_str());
        proof {
            let next = shape@.take(i + 1);
            assert(next.drop_last() =~= prev);
            if i == 0 {
                assert(prev =~= Seq::<usize>::empty());
            }
            assert(r@ =~= seq!['['] + items_text(next));
        }
        i = i + 1;
    }
    r.append("]");
    proof {
        assert(shape@.take(n as int) =~= shape@);
    }
    r
}

/// Concatenates two pieces of text.
pub fn concat2(a: &str, b: &str) -> (r: String)
    ensures
        r@ == a@ + b@,
{
    let mut r = String::from_str(a);
    r.append(b);
    r
}

/// Concatenates three pieces of text.
pub fn concat3(a: &str, b: &str, c: &str) -> (r: String)
    ensures
        r@ == a@ + b@ + c@,
{
    let mut r = String::from_str(a);
    r.append(b);
    r.append(c);
    r
}

} // verus!
