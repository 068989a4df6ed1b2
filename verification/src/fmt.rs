//! Rendering of tag values as comparison strings.
//!
//! The tag filter of the storage engine compares filter values against tags
//! rendered as text: booleans as `true`/`false`, integers in standard
//! decimal, floats by the default formatter, binary blobs as lowercase hex.

use vstd::prelude::*;

verus! {

use vstd::arithmetic::power::pow;

use crate::ids::hex_digit;

/// The decimal rendering of a non-negative value.
pub open spec fn dec_of_nat(v: int) -> Seq<char>
    decreases v,
{
    if v <= 0 {
        seq!['0']
    } else {
        dec_digits(v)
    }
}

/// The digits of a positive value, empty for zero.
pub open spec fn dec_digits(v: int) -> Seq<char>
    decreases v,
{
    if v <= 0 {
        Seq::empty()
    } else {
        dec_digits(v / 10).push(dec_digit(v % 10))
    }
}

/// The decimal digit char for `v < 10`.
pub open spec fn dec_digit(v: int) -> char {
    if v == 0 { '0' } else if v == 1 { '1' } else if v == 2 { '2' }
    else if v == 3 { '3' } else if v == 4 { '4' } else if v == 5 { '5' }
    else if v == 6 { '6' } else if v == 7 { '7' } else if v == 8 { '8' }
    else { '9' }
}

/// The decimal rendering of a signed value: a `-` sign on negatives.
pub open spec fn dec_of_int(v: int) -> Seq<char> {
    if v < 0 {
        seq!['-'] + dec_of_nat(-v)
    } else {
        dec_of_nat(v)
    }
}

/// The decimal digit char for `v < 10`.
fn dec_digit_exec(v: u8) -> (c: char)
    requires
        v < 10,
    ensures
        c == dec_digit(v as int),
{
    match v {
        0 => '0', 1 => '1', 2 => '2', 3 => '3', 4 => '4',
        5 => '5', 6 => '6', 7 => '7', 8 => '8', _ => '9',
    }
}

/// Relies on `String::push`: appends exactly the one char.
#[verifier::external_body]
pub fn push_char(s: &mut String, c: char)
    ensures
        final(s)@ == old(s)@.push(c),
{
    s.push(c);
}

/// Render an unsigned 64-bit value in standard decimal.
pub fn format_u64(v: u64) -> (r: String)
    ensures
        r@ == dec_of_nat(v as int),
{
    if v == 0 {
        let mut out = String::new();
        push_char(&mut out, '0');
        proof {
            assert(out@ =~= seq!['0']);
        }
        return out;
    }
    let mut digits: Vec<char> = Vec::new();
    let mut x = v;
    while x > 0
        invariant
            dec_digits(v as int) =~= dec_digits(x as int) + digits@.reverse(),
        decreases x,
    {
        let d = dec_digit_exec((x % 10) as u8);
        proof {
            let pre = digits@;
            assert((pre.push(d)).reverse() =~= seq![d] + pre.reverse());
            assert(dec_digits(x as int) =~= dec_digits(x as int / 10) + seq![
                dec_digit(x as int % 10),
            ]);
            assert(dec_digits(x as int / 10) + (seq![d] + pre.reverse()) =~= (dec_digits(
                x as int / 10,
            ) + seq![d]) + pre.reverse());
        }
        digits.push(d);
        x = x / 10;
    }
    let mut out = String::new();
    let n = digits.len();
    let mut k: usize = 0;
    while k < n
        invariant
            k <= n == digits.len(),
            dec_digits(v as int) =~= digits@.reverse(),
            out@ =~= digits@.reverse().subrange(0, k as int),
        decreases n - k,
    {
        let c = digits[n - 1 - k];
        proof {
            assert(digits@.reverse()[k as int] == digits@[n - 1 - k]);
            assert(out@.push(c) =~= digits@.reverse().subrange(0, k + 1));
        }
        push_char(&mut out, c);
        k = k + 1;
    }
    proof {
        assert(out@ =~= digits@.reverse());
        assert(v as int > 0);
    }
    out
}

/// Render a signed 64-bit value in standard decimal.
pub fn format_i64(v: i64) -> (r: String)
    ensures
        r@ == dec_of_int(v as int),
{
    if v >= 0 {
        format_u64(v as u64)
    } else {
        let mag: u64 = if v == i64::MIN {
            0x8000000000000000u64
        } else {
            (-v) as u64
        };
        let rest = format_u64(mag);
        let mut out = String::new();
        push_char(&mut out, '-');
        let mut i: usize = 0;
        let n = rest.unicode_len();
        while i < n
            invariant
                i <= n == rest@.len(),
                out@ =~= seq!['-'] + rest@.subrange(0, i as int),
            decreases n - i,
        {
            let c = rest.get_char(i);
            proof {
                assert(out@.push(c) =~= seq!['-'] + rest@.subrange(0, i + 1));
            }
            push_char(&mut out, c);
            i = i + 1;
        }
        proof {
            assert(rest@.subrange(0, n as int) =~= rest@);
            assert(out@ =~= seq!['-'] + rest@);
        }
        out
    }
}

/// The lowercase hex rendering of a byte string, two digits per byte.
pub open spec fn hex_of_bytes(b: Seq<u8>) -> Seq<char>
    decreases b.len(),
{
    if b.len() == 0 {
        Seq::empty()
    } else {
        hex_of_bytes(b.drop_last()) + seq![
            hex_digit(b.last() as int / 16),
            hex_digit(b.last() as int % 16),
        ]
    }
}

/// Render a byte string as lowercase hex, two digits per byte.
pub fn format_hex_bytes(b: &Vec<u8>) -> (r: String)
    ensures
        r@ == hex_of_bytes(b@),
{
    let mut out = String::new();
    let mut i: usize = 0;
    while i < b.len()
        invariant
            i <= b@.len(),
            out@ =~= hex_of_bytes(b@.subrange(0, i as int)),
        decreases b@.len() - i,
    {
        let hi = crate::ids::hex_digit_exec(b[i] / 16);
        let lo = crate::ids::hex_digit_exec(b[i] % 16);
        proof {
            let pre = b@.subrange(0, i as int);
            let cur = b@.subrange(0, i + 1);
            assert(cur.drop_last() =~= pre);
            assert(cur.last() == b@[i as int]);
            assert(out@.push(hi).push(lo) =~= hex_of_bytes(pre) + seq![hi, lo]);
        }
        push_char(&mut out, hi);
        push_char(&mut out, lo);
        i = i + 1;
    }
    proof {
        assert(b@.subrange(0, b@.len() as int) =~= b@);
    }
    out
}

} // verus!
