//! Trace and span identifiers.
//!
//! A trace id is a 128-bit unsigned integer, a span id a 64-bit one; neither
//! is ever zero. Both render as lowercase zero-padded hex strings (32 and 16
//! characters) and travel on the wire as big-endian bytes (16 and 8).

use vstd::prelude::*;

verus! {

use vstd::arithmetic::power::pow;
use vstd::arithmetic::power::lemma_pow_adds;
use vstd::arithmetic::power::lemma_pow_positive;
use crate::fmt::push_char;

/// Why a hex identifier string was rejected.
#[derive(Clone, Copy, Debug, PartialEq, Eq, Structural)]
pub enum ParseIdError {
    /// The string is not a valid hex integer of the identifier's width.
    ParseInt,
    /// The string encodes the value zero, which identifies nothing.
    Zero,
}

/// Value of one hex digit, upper or lower case; `None` for any other char.
pub open spec fn hex_val(c: char) -> Option<int> {
    if '0' <= c && c <= '9' {
        Some(c as int - '0' as int)
    } else if 'a' <= c && c <= 'f' {
        Some(c as int - 'a' as int + 10)
    } else if 'A' <= c && c <= 'F' {
        Some(c as int - 'A' as int + 10)
    } else {
        None
    }
}

/// The lowercase hex digit for a value in `0..16`.
pub open spec fn hex_digit(v: int) -> char {
    if v == 0 { '0' } else if v == 1 { '1' } else if v == 2 { '2' }
    else if v == 3 { '3' } else if v == 4 { '4' } else if v == 5 { '5' }
    else if v == 6 { '6' } else if v == 7 { '7' } else if v == 8 { '8' }
    else if v == 9 { '9' } else if v == 10 { 'a' } else if v == 11 { 'b' }
    else if v == 12 { 'c' } else if v == 13 { 'd' } else if v == 14 { 'e' }
    else { 'f' }
}

/// `v` written as exactly `len` lowercase hex digits (most significant first,
/// modulo `16^len`).
pub open spec fn hex_of(v: int, len: nat) -> Seq<char>
    decreases len,
{
    if len == 0 {
        Seq::empty()
    } else {
        hex_of(v / 16, (len - 1) as nat).push(hex_digit(v % 16))
    }
}

/// The value of a digit string, or `None` if any char is not a hex digit.
/// The empty string parses as zero; callers reject it separately.
pub open spec fn hex_seq_val(s: Seq<char>) -> Option<int>
    decreases s.len(),
{
    if s.len() == 0 {
        Some(0)
    } else {
        match (hex_seq_val(s.drop_last()), hex_val(s.last())) {
            (Some(h), Some(d)) => Some(h * 16 + d),
            _ => None,
        }
    }
}

/// The handful of power-of-16 and power-of-256 constants the module needs.
proof fn lemma_pow_consts()
    ensures
        pow(16, 0) == 1,
        pow(16, 1) == 16,
        pow(256, 0) == 1,
        pow(256, 1) == 256,
        pow(16, 16) == 0x10000000000000000,
        pow(16, 32) == 0x100000000000000000000000000000000,
        pow(256, 8) == 0x10000000000000000,
{
    reveal_with_fuel(pow, 33);
}

proof fn lemma_hex_digit_val(v: int)
    requires
        0 <= v < 16,
    ensures
        hex_val(hex_digit(v)) == Some(v),
{
}

proof fn lemma_hex_of_len(v: int, len: nat)
    ensures
        hex_of(v, len).len() == len,
    decreases len,
{
    if len > 0 {
        lemma_hex_of_len(v / 16, (len - 1) as nat);
    }
}

/// Parsing a fixed-width hex rendering recovers the value.
proof fn lemma_hex_round_trip(v: int, len: nat)
    requires
        0 <= v < pow(16, len),
    ensures
        hex_seq_val(hex_of(v, len)) == Some(v),
    decreases len,
{
    if len == 0 {
        assert(pow(16, 0) == 1) by { lemma_pow_consts(); };
        assert(v == 0);
    } else {
        let rest = hex_of(v / 16, (len - 1) as nat);
        let whole = rest.push(hex_digit(v % 16));
        lemma_hex_of_len(v / 16, (len - 1) as nat);
        assert(whole.drop_last() =~= rest);
        assert(whole.last() == hex_digit(v % 16));
        assert(pow(16, len) == 16 * pow(16, (len - 1) as nat)) by {
            lemma_pow_adds(16, 1, (len - 1) as nat);
            lemma_pow_consts();
        }
        lemma_pow_positive(16, (len - 1) as nat);
        assert(0 <= v / 16 < pow(16, (len - 1) as nat)) by (nonlinear_arith)
            requires
                0 <= v < 16 * pow(16, (len - 1) as nat),
                pow(16, (len - 1) as nat) > 0,
        {}
        lemma_hex_round_trip(v / 16, (len - 1) as nat);
        lemma_hex_digit_val(v % 16);
        assert(v / 16 * 16 + v % 16 == v) by (nonlinear_arith);
        assert(hex_seq_val(whole) == Some(v / 16 * 16 + v % 16));
    }
}

/// Each position of the fixed-width rendering holds the matching nibble.
proof fn lemma_hex_of_index(v: int, len: nat, k: int)
    requires
        0 <= k < len,
        v >= 0,
    ensures
        hex_of(v, len).len() == len,
        hex_of(v, len)[k] == hex_digit(v / pow(16, (len - 1 - k) as nat) % 16),
    decreases len,
{
    lemma_hex_of_len(v, len);
    lemma_hex_of_len(v / 16, (len - 1) as nat);
    if k == len - 1 {
        assert(pow(16, 0) == 1) by { lemma_pow_consts(); };
    } else {
        lemma_hex_of_index(v / 16, (len - 1) as nat, k);
        let e = (len - 2 - k) as nat;
        assert(pow(16, e + 1) == 16 * pow(16, e)) by {
            lemma_pow_adds(16, 1, e);
            assert(pow(16, 1) == 16) by { lemma_pow_consts(); };
        }
        lemma_pow_positive(16, e);
        assert(v / 16 / pow(16, e) == v / (16 * pow(16, e))) by {
            vstd::arithmetic::div_mod::lemma_div_denominator(v, 16, pow(16, e));
        }
    }
}

/// The lowercase hex digit char for `v < 16`.
pub(crate) fn hex_digit_exec(v: u8) -> (c: char)
    requires
        v < 16,
    ensures
        c == hex_digit(v as int),
{
    match v {
        0 => '0', 1 => '1', 2 => '2', 3 => '3',
        4 => '4', 5 => '5', 6 => '6', 7 => '7',
        8 => '8', 9 => '9', 10 => 'a', 11 => 'b',
        12 => 'c', 13 => 'd', 14 => 'e', _ => 'f',
    }
}

/// Render `v` as exactly `len` lowercase hex digits; `v` must fit.
fn format_hex_u128(v: u128, len: usize) -> (r: String)
    requires
        (v as int) < pow(16, len as nat),
        len <= 32,
    ensures
        r@ == hex_of(v as int, len as nat),
{
    proof {
        lemma_pow_consts();
    }
    let mut digits: Vec<char> = Vec::new();
    let mut x = v;
    let mut i: usize = 0;
    while i < len
        invariant
            i <= len <= 32,
            x as int == v as int / pow(16, i as nat),
            digits.len() == i,
            forall|j: int| 0 <= j < i ==>
                digits[j] == hex_digit(v as int / pow(16, j as nat) % 16),
        decreases len - i,
    {
        proof {
            lemma_pow_positive(16, i as nat);
            lemma_pow_adds(16, i as nat, 1);
            assert(pow(16, 1) == 16) by { lemma_pow_consts(); };
            vstd::arithmetic::div_mod::lemma_div_denominator(
                v as int, pow(16, i as nat), 16);
        }
        digits.push(hex_digit_exec((x % 16) as u8));
        x = x / 16;
        i = i + 1;
    }
    let mut out = String::new();
    let mut k: usize = 0;
    while k < len
        invariant
            k <= len <= 32,
            digits.len() == len,
            (v as int) < pow(16, len as nat),
            forall|j: int| 0 <= j < len ==>
                digits[j] == hex_digit(v as int / pow(16, j as nat) % 16),
            out@.len() == k,
            forall|j: int| 0 <= j < k ==> out@[j] == hex_of(v as int, len as nat)[j],
        decreases len - k,
    {
        let c = digits[len - 1 - k];
        proof {
            lemma_hex_of_index(v as int, len as nat, k as int);
        }
        push_char(&mut out, c);
        k = k + 1;
    }
    proof {
        lemma_hex_of_len(v as int, len as nat);
        assert(out@ =~= hex_of(v as int, len as nat));
    }
    out
}

/// Hex value of one char, rejecting non-digits.
fn hex_val_exec(c: char) -> (r: Option<u8>)
    ensures
        match r {
            Some(d) => hex_val(c) == Some(d as int) && d < 16,
            None => hex_val(c) is None,
        },
{
    let u = c as u32;
    if u >= '0' as u32 && u <= '9' as u32 {
        Some((u - '0' as u32) as u8)
    } else if u >= 'a' as u32 && u <= 'f' as u32 {
        Some((u - 'a' as u32 + 10) as u8)
    } else if u >= 'A' as u32 && u <= 'F' as u32 {
        Some((u - 'A' as u32 + 10) as u8)
    } else {
        None
    }
}

/// Parse a hex digit string into a value.
///
/// Mirrors `from_str_radix` with radix 16 on digit-only inputs: the string
/// must be non-empty and all hex digits (either case), and the value must
/// fit 128 bits.
fn parse_hex_u128(s: &str) -> (r: Option<u128>)
    ensures
        match r {
            Some(v) => hex_seq_val(s@) == Some(v as int) && s@.len() > 0,
            None => s@.len() == 0 || hex_seq_val(s@) is None
                || (hex_seq_val(s@) matches Some(v) && v > u128::MAX),
        },
{
    let n = s.unicode_len();
    if n == 0 {
        return None;
    }
    let mut value: u128 = 0;
    let mut i: usize = 0;
    while i < n
        invariant
            i <= n == s@.len(),
            hex_seq_val(s@.subrange(0, i as int)) == Some(value as int),
        decreases n - i,
    {
        let c = s.get_char(i);
        let d = match hex_val_exec(c) {
            Some(d) => d,
            None => {
                proof {
                    lemma_hex_seq_val_bad(s@, i as int);
                }
                return None;
            }
        };
        if value > (u128::MAX - d as u128) / 16 {
            proof {
                let prefix = s@.subrange(0, i + 1);
                assert(prefix.drop_last() =~= s@.subrange(0, i as int));
                assert(hex_seq_val(prefix) == Some((value as int) * 16 + d as int));
                vstd::arithmetic::div_mod::lemma_fundamental_div_mod(
                    u128::MAX - d as u128, 16);
                assert((value as int) * 16 + d as int > u128::MAX) by (nonlinear_arith)
                    requires
                        value as int >= (u128::MAX - d as u128) / 16 + 1,
                        u128::MAX - d as u128 == 16 * ((u128::MAX - d as u128) / 16)
                            + (u128::MAX - d as u128) % 16,
                        0 <= (u128::MAX - d as u128) % 16 < 16,
                {}
                if hex_seq_val(s@) is Some {
                    lemma_hex_prefix_le(s@, i + 1);
                }
            }
            return None;
        }
        proof {
            assert(s@.subrange(0, i + 1).drop_last() =~= s@.subrange(0, i as int));
        }
        value = value * 16 + (d as u128);
        i = i + 1;
    }
    proof {
        assert(s@.subrange(0, n as int) =~= s@);
    }
    Some(value)
}

/// A digit string is worth at least as much as any of its prefixes.
proof fn lemma_hex_prefix_le(s: Seq<char>, k: int)
    requires
        hex_seq_val(s) is Some,
        0 <= k <= s.len(),
    ensures
        hex_seq_val(s.subrange(0, k)) is Some,
        hex_seq_val(s.subrange(0, k))->Some_0 <= hex_seq_val(s)->Some_0,
    decreases s.len() - k,
{
    if k == s.len() {
        assert(s.subrange(0, k) =~= s);
    } else {
        lemma_hex_prefix_le(s, k + 1);
        let t = s.subrange(0, k + 1);
        assert(t.drop_last() =~= s.subrange(0, k));
        assert(t.last() == s[k]);
        lemma_hex_seq_val_nonneg(s.subrange(0, k));
        let h = hex_seq_val(s.subrange(0, k))->Some_0;
        let d = hex_val(s[k])->Some_0;
        assert(h <= h * 16 + d) by (nonlinear_arith)
            requires
                h >= 0,
                d >= 0,
        {}
    }
}

/// A digit string's value is never negative.
proof fn lemma_hex_seq_val_nonneg(s: Seq<char>)
    ensures
        hex_seq_val(s) matches Some(v) ==> v >= 0,
    decreases s.len(),
{
    if s.len() > 0 {
        lemma_hex_seq_val_nonneg(s.drop_last());
    }
}

/// A non-digit anywhere makes the whole string unparseable.
proof fn lemma_hex_seq_val_bad(s: Seq<char>, i: int)
    requires
        0 <= i < s.len(),
        hex_val(s[i]) is None,
    ensures
        hex_seq_val(s) is None,
    decreases s.len(),
{
    if i < s.len() - 1 {
        lemma_hex_seq_val_bad(s.drop_last(), i);
    }
}

/// Unique identifier of a whole trace: 128 bits, never zero.
#[derive(Clone, Copy, Debug, PartialEq, Eq, Structural)]
pub struct TraceId {
    id: u128,
}

impl TraceId {
    /// The raw identifier value.
    pub closed spec fn spec_get(self) -> u128 {
        self.id
    }

    /// An identifier is well-formed when it is non-zero.
    pub open spec fn wf(self) -> bool {
        self.spec_get() != 0
    }

    /// Wrap a raw non-zero value.
    pub fn new(id: u128) -> (r: TraceId)
        requires
            id != 0,
        ensures
            r.spec_get() == id,
            r.wf(),
    {
        TraceId { id }
    }

    /// The raw 128-bit value.
    pub fn get(&self) -> (r: u128)
        ensures
            r == self.spec_get(),
    {
        self.id
    }

    /// The big-endian byte rendering used on the wire and on disk.
    pub fn to_bytes(&self) -> (r: Vec<u8>)
        ensures
            r@ == be_bytes_16(self.spec_get() as int),
    {
        be_bytes_u128(self.id)
    }

    /// The 32-char zero-padded lowercase hex rendering.
    pub fn format(&self) -> (r: String)
        ensures
            r@ == hex_of(self.spec_get() as int, 32),
    {
        proof {
            assert(pow(16, 32) == 0x100000000000000000000000000000000) by { lemma_pow_consts(); };
        }
        format_hex_u128(self.id, 32)
    }

    /// Parse from hex, rejecting malformed strings and the zero value.
    ///
    /// Exactly the strings of 1 to 32 hex digits parse; the all-zero string
    /// is rejected as [`ParseIdError::Zero`], everything else malformed as
    /// [`ParseIdError::ParseInt`].
    pub fn parse(s: &str) -> (r: Result<TraceId, ParseIdError>)
        ensures
            match r {
                Ok(id) => hex_seq_val(s@) == Some(id.spec_get() as int) && id.wf(),
                Err(ParseIdError::Zero) => hex_seq_val(s@) == Some(0int) && s@.len() > 0,
                Err(ParseIdError::ParseInt) => s@.len() == 0 || hex_seq_val(s@) is None
                    || (hex_seq_val(s@) matches Some(v) && v > u128::MAX),
            },
    {
        match parse_hex_u128(s) {
            Some(0) => Err(ParseIdError::Zero),
            Some(v) => Ok(TraceId { id: v }),
            None => Err(ParseIdError::ParseInt),
        }
    }
}

/// Two trace ids are the same value exactly when they hold the same number.
pub proof fn lemma_trace_id_eq(a: TraceId, b: TraceId)
    ensures
        (a == b) <==> (a.spec_get() == b.spec_get()),
{
}

/// Unique identifier of one span: 64 bits, never zero.
#[derive(Clone, Copy, Debug, PartialEq, Eq, Structural)]
pub struct SpanId {
    id: u64,
}

impl SpanId {
    /// The raw identifier value.
    pub closed spec fn spec_get(self) -> u64 {
        self.id
    }

    /// An identifier is well-formed when it is non-zero.
    pub open spec fn wf(self) -> bool {
        self.spec_get() != 0
    }

    /// Wrap a raw non-zero value.
    pub fn new(id: u64) -> (r: SpanId)
        requires
            id != 0,
        ensures
            r.spec_get() == id,
            r.wf(),
    {
        SpanId { id }
    }

    /// The raw 64-bit value.
    pub fn get(&self) -> (r: u64)
        ensures
            r == self.spec_get(),
    {
        self.id
    }

    /// The big-endian byte rendering used on the wire and on disk.
    pub fn to_bytes(&self) -> (r: Vec<u8>)
        ensures
            r@ == be_bytes_8(self.spec_get() as int),
    {
        let bytes = be_bytes_u128(self.id as u128);
        let mut out: Vec<u8> = Vec::new();
        let mut i: usize = 8;
        while i < 16
            invariant
                8 <= i <= 16,
                bytes@.len() == 16,
                bytes@ == be_bytes_16(self.id as int),
                out@ =~= bytes@.subrange(8, i as int),
            decreases 16 - i,
        {
            out.push(bytes[i]);
            proof {
                assert(out@ =~= bytes@.subrange(8, i + 1));
            }
            i = i + 1;
        }
        proof {
            lemma_be_bytes_16_low(self.id as int);
            assert(out@ =~= bytes@.subrange(8, 16));
        }
        out
    }

    /// The 16-char zero-padded lowercase hex rendering.
    pub fn format(&self) -> (r: String)
        ensures
            r@ == hex_of(self.spec_get() as int, 16),
    {
        proof {
            assert(pow(16, 16) == 0x10000000000000000) by { lemma_pow_consts(); };
        }
        format_hex_u128(self.id as u128, 16)
    }

    /// Parse from hex, rejecting malformed strings and the zero value.
    pub fn parse(s: &str) -> (r: Result<SpanId, ParseIdError>)
        ensures
            match r {
                Ok(id) => hex_seq_val(s@) == Some(id.spec_get() as int) && id.wf(),
                Err(ParseIdError::Zero) => hex_seq_val(s@) == Some(0int) && s@.len() > 0,
                Err(ParseIdError::ParseInt) => s@.len() == 0 || hex_seq_val(s@) is None
                    || (hex_seq_val(s@) matches Some(v) && v > u64::MAX),
            },
    {
        match parse_hex_u128(s) {
            Some(0) => Err(ParseIdError::Zero),
            Some(v) => {
                if v <= u64::MAX as u128 {
                    Ok(SpanId { id: v as u64 })
                } else {
                    Err(ParseIdError::ParseInt)
                }
            }
            None => {
                proof {
                    if hex_seq_val(s@) matches Some(w) {
                        // a value over the 128-bit range is over the 64-bit one
                    }
                }
                Err(ParseIdError::ParseInt)
            }
        }
    }
}

/// Two span ids are the same value exactly when they hold the same number.
pub proof fn lemma_span_id_eq(a: SpanId, b: SpanId)
    ensures
        (a == b) <==> (a.spec_get() == b.spec_get()),
{
}

/// `v` as `len` big-endian bytes (most significant first, modulo `256^len`).
pub open spec fn be_bytes(v: int, len: nat) -> Seq<u8>
    decreases len,
{
    if len == 0 {
        Seq::empty()
    } else {
        be_bytes(v / 256, (len - 1) as nat).push((v % 256) as u8)
    }
}

/// The 16-byte big-endian rendering of a 128-bit value.
pub open spec fn be_bytes_16(v: int) -> Seq<u8> {
    be_bytes(v, 16)
}

/// The 8-byte big-endian rendering of a 64-bit value.
pub open spec fn be_bytes_8(v: int) -> Seq<u8> {
    be_bytes(v, 8)
}

/// The value the bytes stand for, most significant first.
pub open spec fn be_val(s: Seq<u8>) -> int
    decreases s.len(),
{
    if s.len() == 0 {
        0
    } else {
        be_val(s.drop_last()) * 256 + s.last()
    }
}

pub proof fn lemma_be_bytes_len(v: int, len: nat)
    ensures
        be_bytes(v, len).len() == len,
    decreases len,
{
    if len > 0 {
        lemma_be_bytes_len(v / 256, (len - 1) as nat);
    }
}

/// Reading back the big-endian bytes of a value in range recovers it.
pub proof fn lemma_be_round_trip(v: int, len: nat)
    requires
        0 <= v < pow(256, len),
    ensures
        be_bytes(v, len).len() == len,
        be_val(be_bytes(v, len)) == v,
    decreases len,
{
    lemma_be_bytes_len(v, len);
    if len == 0 {
        assert(pow(256, 0) == 1) by { lemma_pow_consts(); };
    } else {
        let rest = be_bytes(v / 256, (len - 1) as nat);
        lemma_be_bytes_len(v / 256, (len - 1) as nat);
        assert(be_bytes(v, len).drop_last() =~= rest);
        assert(pow(256, len) == 256 * pow(256, (len - 1) as nat)) by {
            lemma_pow_adds(256, (len - 1) as nat, 1);
            assert(pow(256, 1) == 256) by { lemma_pow_consts(); };
        }
        lemma_pow_positive(256, (len - 1) as nat);
        assert(0 <= v / 256 < pow(256, (len - 1) as nat)) by (nonlinear_arith)
            requires
                0 <= v < 256 * pow(256, (len - 1) as nat),
                pow(256, (len - 1) as nat) > 0,
        {}
        lemma_be_round_trip(v / 256, (len - 1) as nat);
        assert(v / 256 * 256 + v % 256 == v) by (nonlinear_arith);
    }
}

/// The low half of a 64-bit value's 16-byte rendering is its 8-byte one.
proof fn lemma_be_bytes_low(v: int, len: nat, half: nat)
    requires
        half <= len,
        0 <= v < pow(256, half),
    ensures
        be_bytes(v, len).len() == len,
        be_bytes(v, len).subrange((len - half) as int, len as int) =~= be_bytes(v, half),
    decreases half,
{
    lemma_be_bytes_len(v, len);
    lemma_be_bytes_len(v, half);
    if half == 0 {
        assert(be_bytes(v, len).subrange(len as int, len as int) =~= Seq::<u8>::empty());
    } else {
        lemma_pow_positive(256, (half - 1) as nat);
        assert(pow(256, half) == 256 * pow(256, (half - 1) as nat)) by {
            lemma_pow_adds(256, (half - 1) as nat, 1);
            assert(pow(256, 1) == 256) by { lemma_pow_consts(); };
        }
        assert(0 <= v / 256 < pow(256, (half - 1) as nat)) by (nonlinear_arith)
            requires
                0 <= v < 256 * pow(256, (half - 1) as nat),
                pow(256, (half - 1) as nat) > 0,
        {}
        lemma_be_bytes_low(v / 256, (len - 1) as nat, (half - 1) as nat);
        lemma_be_bytes_len(v / 256, (len - 1) as nat);
        assert(be_bytes(v, len).subrange((len - half) as int, len as int) =~= be_bytes(
            v / 256,
            (len - 1) as nat,
        ).subrange((len - half) as int, (len - 1) as int).push((v % 256) as u8));
        assert(be_bytes(v / 256, (len - 1) as nat).subrange(
            (len - half) as int,
            (len - 1) as int,
        ) =~= be_bytes(v / 256, (half - 1) as nat));
    }
}

proof fn lemma_be_bytes_16_low(v: int)
    requires
        0 <= v < 0x10000000000000000,
    ensures
        be_bytes_16(v).len() == 16,
        be_bytes_16(v).subrange(8, 16) =~= be_bytes_8(v),
{
    assert(pow(256, 8) == 0x10000000000000000) by { lemma_pow_consts(); };
    lemma_be_bytes_low(v, 16, 8);
}

/// The 16 big-endian bytes of a 128-bit value.
fn be_bytes_u128(v: u128) -> (r: Vec<u8>)
    ensures
        r@ == be_bytes_16(v as int),
        r@.len() == 16,
{
    proof {
        lemma_pow_consts();
    }
    let mut digits: Vec<u8> = Vec::new();
    let mut x = v;
    let mut i: usize = 0;
    while i < 16
        invariant
            i <= 16,
            x as int == v as int / pow(256, i as nat),
            digits.len() == i,
            forall|j: int| 0 <= j < i ==>
                digits[j] as int == v as int / pow(256, j as nat) % 256,
        decreases 16 - i,
    {
        proof {
            lemma_pow_positive(256, i as nat);
            lemma_pow_adds(256, i as nat, 1);
            assert(pow(256, 1) == 256) by { lemma_pow_consts(); };
            vstd::arithmetic::div_mod::lemma_div_denominator(
                v as int, pow(256, i as nat), 256);
        }
        digits.push((x % 256) as u8);
        x = x / 256;
        i = i + 1;
    }
    let mut out: Vec<u8> = Vec::new();
    let mut k: usize = 0;
    while k < 16
        invariant
            k <= 16,
            digits.len() == 16,
            forall|j: int| 0 <= j < 16 ==>
                digits[j] as int == v as int / pow(256, j as nat) % 256,
            out@.len() == k,
            forall|j: int| 0 <= j < k ==> out@[j] == be_bytes_16(v as int)[j],
        decreases 16 - k,
    {
        let b = digits[16 - 1 - k];
        proof {
            lemma_be_bytes_index(v as int, 16, k as int);
        }
        out.push(b);
        k = k + 1;
    }
    proof {
        lemma_be_bytes_len(v as int, 16);
        assert(out@ =~= be_bytes_16(v as int));
    }
    out
}

/// Each position of the big-endian rendering holds the matching byte.
pub proof fn lemma_be_bytes_index(v: int, len: nat, k: int)
    requires
        0 <= k < len,
        v >= 0,
    ensures
        be_bytes(v, len).len() == len,
        be_bytes(v, len)[k] as int == v / pow(256, (len - 1 - k) as nat) % 256,
    decreases len,
{
    lemma_be_bytes_len(v, len);
    lemma_be_bytes_len(v / 256, (len - 1) as nat);
    if k == len - 1 {
        assert(pow(256, 0) == 1) by { lemma_pow_consts(); };
    } else {
        lemma_be_bytes_index(v / 256, (len - 1) as nat, k);
        let e = (len - 2 - k) as nat;
        assert(pow(256, e + 1) == 256 * pow(256, e)) by {
            lemma_pow_adds(256, 1, e);
            assert(pow(256, 1) == 256) by { lemma_pow_consts(); };
        }
        lemma_pow_positive(256, e);
        assert(v / 256 / pow(256, e) == v / (256 * pow(256, e))) by {
            vstd::arithmetic::div_mod::lemma_div_denominator(v, 256, pow(256, e));
        }
    }
}

/// Parsing a 32-char zero-padded hex trace id and formatting it back yields
/// the original value; formatting and parsing back does too.
pub proof fn lemma_trace_id_hex_round_trip(id: TraceId)
    requires
        id.wf(),
    ensures
        hex_seq_val(hex_of(id.spec_get() as int, 32)) == Some(id.spec_get() as int),
        hex_of(id.spec_get() as int, 32).len() == 32,
{
    assert(pow(16, 32) == 0x100000000000000000000000000000000) by { lemma_pow_consts(); };
    lemma_hex_round_trip(id.spec_get() as int, 32);
    lemma_hex_of_len(id.spec_get() as int, 32);
}

/// The same law for span ids and their 16-char rendering.
pub proof fn lemma_span_id_hex_round_trip(id: SpanId)
    requires
        id.wf(),
    ensures
        hex_seq_val(hex_of(id.spec_get() as int, 16)) == Some(id.spec_get() as int),
        hex_of(id.spec_get() as int, 16).len() == 16,
{
    assert(pow(16, 16) == 0x10000000000000000) by { lemma_pow_consts(); };
    lemma_hex_round_trip(id.spec_get() as int, 16);
    lemma_hex_of_len(id.spec_get() as int, 16);
}

} // verus!
