//! Text building blocks for rendered output: appending, decimal numbers,
//! zero padding and column alignment.

use vstd::prelude::*;
use crate::text::str_to_chars;

verus! {

broadcast use vstd::string::group_string_axioms;

/// `out` with `s` appended.
pub fn push_str(out: &mut String, s: &str)
    ensures
        final(out)@ == old(out)@ + s@,
{
    let v = str_to_chars(s);
    let ghost start = out@;
    let mut i: usize = 0;
    while i < v.len()
        invariant
            0 <= i <= v.len(),
            v@ == s@,
            out@ == start + v@.take(i as int),
        decreases v.len() - i,
    {
        out.push(v[i]);
        i += 1;
        assert(out@ =~= start + v@.take(i as int));
    }
    assert(v@.take(v.len() as int) =~= v@);
}

/// The decimal digits of `n`.
pub open spec fn digits(n: nat) -> Seq<char>
    decreases n,
{
    if n < 10 {
        seq![digit_char(n)]
    } else {
        digits(n / 10).push(digit_char(n % 10))
    }
}

pub open spec fn digit_char(d: nat) -> char {
    if d == 0 { '0' } else if d == 1 { '1' } else if d == 2 { '2' } else if d == 3 { '3' } else if d == 4 { '4' }
    else if d == 5 { '5' } else if d == 6 { '6' } else if d == 7 { '7' } else if d == 8 { '8' } else { '9' }
}

fn digit(d: u64) -> (c: char)
    requires
        d < 10,
    ensures
        c == digit_char(d as nat),
{
    if d == 0 { '0' } else if d == 1 { '1' } else if d == 2 { '2' } else if d == 3 { '3' } else if d == 4 { '4' }
    else if d == 5 { '5' } else if d == 6 { '6' } else if d == 7 { '7' } else if d == 8 { '8' } else { '9' }
}

/// The decimal form of `n`, as `{}` prints it.
pub fn decimal(n: u64) -> (r: Vec<char>)
    ensures
        r@ == digits(n as nat),
    decreases n,
{
    if n < 10 {
        let mut v: Vec<char> = Vec::new();
        v.push(digit(n));
        v
    } else {
        let mut v = decimal(n / 10);
        v.push(digit(n % 10));
        v
    }
}

/// The decimal form of `n` as a `String`.
pub fn decimal_string(n: u64) -> (r: String)
    ensures
        r@ == digits(n as nat),
{
    let v = decimal(n);
    crate::text::chars_to_string(&v)
}

/// `k` copies of `c`.
pub open spec fn repeat(c: char, k: nat) -> Seq<char>
    decreases k,
{
    if k == 0 {
        seq![]
    } else {
        repeat(c, (k - 1) as nat).push(c)
    }
}

pub proof fn lemma_repeat_len(c: char, k: nat)
    ensures
        repeat(c, k).len() == k,
    decreases k,
{
    if k > 0 {
        lemma_repeat_len(c, (k - 1) as nat);
    }
}

fn repeat_chars(c: char, k: usize) -> (r: Vec<char>)
    ensures
        r@ == repeat(c, k as nat),
{
    let mut v: Vec<char> = Vec::new();
    let mut i: usize = 0;
    while i < k
        invariant
            0 <= i <= k,
            v@ == repeat(c, i as nat),
        decreases k - i,
    {
        v.push(c);
        i += 1;
    }
    v
}

/// `s` padded on the left with `c` to at least `w` characters.
pub open spec fn pad_left_spec(s: Seq<char>, w: nat, c: char) -> Seq<char> {
    if s.len() >= w { s } else { repeat(c, (w - s.len()) as nat) + s }
}

/// `s` padded on the right with spaces to at least `w` characters.
pub open spec fn pad_right_spec(s: Seq<char>, w: nat) -> Seq<char> {
    if s.len() >= w { s } else { s + repeat(' ', (w - s.len()) as nat) }
}

/// `s` right-aligned in a column of `w` characters (`{:>w}`).
pub fn pad_left(s: &str, w: usize, c: char) -> (r: String)
    ensures
        r@ == pad_left_spec(s@, w as nat, c),
{
    let v = str_to_chars(s);
    let mut out: Vec<char> = if v.len() >= w { Vec::new() } else { repeat_chars(c, w - v.len()) };
    let ghost pre = out@;
    let mut i: usize = 0;
    while i < v.len()
        invariant
            0 <= i <= v.len(),
            out@ == pre + v@.take(i as int),
        decreases v.len() - i,
    {
        out.push(v[i]);
        i += 1;
        assert(out@ =~= pre + v@.take(i as int));
    }
    assert(v@.take(v.len() as int) =~= v@);
    assert(out@ =~= pad_left_spec(s@, w as nat, c));
    crate::text::chars_to_string(&out)
}

/// `s` left-aligned in a column of `w` characters (`{:<w}`).
pub fn pad_right(s: &str, w: usize) -> (r: String)
    ensures
        r@ == pad_right_spec(s@, w as nat),
{
    let v = str_to_chars(s);
    let mut out = v.clone();
    assert(out@ == v@);
    if v.len() < w {
        let pad = repeat_chars(' ', w - v.len());
        let ghost pre = out@;
        let mut i: usize = 0;
        while i < pad.len()
            invariant
                0 <= i <= pad.len(),
                out@ == pre + pad@.take(i as int),
            decreases pad.len() - i,
        {
            out.push(pad[i]);
            i += 1;
            assert(out@ =~= pre + pad@.take(i as int));
        }
        assert(pad@.take(pad.len() as int) =~= pad@);
    }
    crate::text::chars_to_string(&out)
}

/// `{:0w}` for a signed number: a `-` for a negative value, then the digits
/// zero-padded so the whole is at least `w` characters.
pub open spec fn signed_pad_spec(v: int, w: nat) -> Seq<char> {
    if v < 0 {
        seq!['-'] + pad_left_spec(digits((-v) as nat), if w >= 1 { (w - 1) as nat } else { 0 }, '0')
    } else {
        pad_left_spec(digits(v as nat), w, '0')
    }
}

pub fn signed_pad(v: i64, w: usize) -> (r: String)
    requires
        w >= 1,
    ensures
        r@ == signed_pad_spec(v as int, w as nat),
{
    if v < 0 {
        let mag: u64 = if v == i64::MIN { 9223372036854775808u64 } else { (-v) as u64 };
        let d = decimal_string(mag);
        let p = pad_left(d.as_str(), w - 1, '0');
        let mut out = crate::text::owned("-");
        proof {
            reveal_strlit("-");
        }
        push_str(&mut out, p.as_str());
        assert(out@ =~= signed_pad_spec(v as int, w as nat));
        out
    } else {
        let d = decimal_string(v as u64);
        pad_left(d.as_str(), w, '0')
    }
}

} // verus!
