//! The stable compact byte serialization of canonical spans.
//!
//! The storage engine persists each span as this encoding (then compressed),
//! and the Quiver transport ships spans in the same style. The format is
//! deliberately plain: fixed-width big-endian integers, one-byte variant
//! tags, and length-prefixed sequences (chars as 32-bit code points).
//! Stability across versions rests on the fixed field order written below:
//! fields are positional, not individually tagged, so any change to the
//! layout is a format change and must come with a new payload version.
//! Decoding is the exact inverse of encoding, proved below.

use vstd::prelude::*;

verus! {

use vstd::arithmetic::power::pow;
use vstd::arithmetic::power::lemma_pow_adds;
use vstd::arithmetic::power::lemma_pow_positive;
use vstd::utf8::is_scalar;

use crate::models::Log;
use crate::models::Process;
use crate::models::Reference;
use crate::models::Span;
use crate::models::Tag;
use crate::models::TagValue;
use crate::models::DUR_MAX_NANOS;
use crate::models::DUR_MIN_NANOS;
use crate::models::LogV;
use crate::models::ProcessV;
use crate::models::RefType;
use crate::models::RefV;
use crate::models::SpanV;
use crate::models::TagV;
use crate::models::TagValueV;
use crate::models::TS_MAX_NANOS;
use crate::models::TS_MIN_NANOS;

use crate::ids::SpanId;
use crate::ids::TraceId;
use crate::models::SignedDuration;
use crate::models::Timestamp;
use crate::compress::unsnap_of;
use crate::fmt::push_char;

use crate::ids::be_bytes;
use crate::ids::be_val;
use crate::ids::lemma_be_round_trip;

/// `pow(256, n)` for the handful of widths the codec uses.
proof fn lemma_pow256_consts()
    ensures
        pow(256, 0) == 1,
        pow(256, 1) == 256,
        pow(256, 4) == 0x100000000,
        pow(256, 8) == 0x10000000000000000,
        pow(256, 16) == 0x100000000000000000000000000000000,
{
    reveal_with_fuel(pow, 17);
}

/// The value of a big-endian byte string is bounded by its width.
pub proof fn lemma_be_val_bound(s: Seq<u8>)
    ensures
        0 <= be_val(s) < pow(256, s.len()),
    decreases s.len(),
{
    if s.len() == 0 {
        lemma_pow256_consts();
    } else {
        lemma_be_val_bound(s.drop_last());
        lemma_pow_adds(256, (s.len() - 1) as nat, 1);
        lemma_pow_positive(256, (s.len() - 1) as nat);
        assert(pow(256, 1) == 256) by {
            lemma_pow256_consts();
        }
        assert(be_val(s.drop_last()) * 256 + s.last() < pow(256, s.len())) by (nonlinear_arith)
            requires
                0 <= be_val(s.drop_last()) < pow(256, (s.len() - 1) as nat),
                s.last() < 256,
                pow(256, s.len()) == pow(256, (s.len() - 1) as nat) * 256,
        {}
    }
}

/// A value's big-endian bytes read back as the value.
proof fn lemma_be_bytes_val(v: int, len: nat)
    requires
        0 <= v < pow(256, len),
    ensures
        be_bytes(v, len).len() == len,
        be_val(be_bytes(v, len)) == v,
{
    lemma_be_round_trip(v, len);
}

/// Append the `len` big-endian bytes of `v` to `out`.
fn put_be(out: &mut Vec<u8>, v: u128, len: usize)
    requires
        len <= 16,
        (v as int) < pow(256, len as nat),
    ensures
        final(out)@ == old(out)@ + be_bytes(v as int, len as nat),
{
    proof {
        lemma_pow256_consts();
    }
    let ghost base = out@;
    let mut shifts: Vec<u8> = Vec::new();
    let mut x = v;
    let mut i: usize = 0;
    while i < len
        invariant
            i <= len <= 16,
            x as int == v as int / pow(256, i as nat),
            shifts.len() == i,
            forall|j: int| 0 <= j < i ==>
                shifts[j] as int == v as int / pow(256, j as nat) % 256,
        decreases len - i,
    {
        proof {
            lemma_pow_positive(256, i as nat);
            lemma_pow_adds(256, i as nat, 1);
            lemma_pow256_consts();
            vstd::arithmetic::div_mod::lemma_div_denominator(
                v as int, pow(256, i as nat), 256);
        }
        shifts.push((x % 256) as u8);
        x = x / 256;
        i = i + 1;
    }
    let mut k: usize = 0;
    while k < len
        invariant
            k <= len <= 16,
            shifts.len() == len,
            (v as int) < pow(256, len as nat),
            forall|j: int| 0 <= j < len ==>
                shifts[j] as int == v as int / pow(256, j as nat) % 256,
            out@ =~= base + be_bytes(v as int, len as nat).subrange(0, k as int),
        decreases len - k,
    {
        let b = shifts[len - 1 - k];
        proof {
            crate::ids::lemma_be_bytes_index(v as int, len as nat, k as int);
            assert(out@.push(b) =~= base + be_bytes(v as int, len as nat).subrange(
                0,
                k + 1,
            ));
        }
        out.push(b);
        k = k + 1;
    }
    proof {
        crate::ids::lemma_be_bytes_len(v as int, len as nat);
        assert(be_bytes(v as int, len as nat).subrange(0, len as int) =~= be_bytes(
            v as int,
            len as nat,
        ));
    }
}

/// Read `len` big-endian bytes at `pos` as a value; `None` past the end.
pub(crate) fn take_be(b: &Vec<u8>, pos: usize, len: usize) -> (r: Option<(u128, usize)>)
    requires
        len <= 16,
    ensures
        match r {
            Some((v, p2)) => pos + len <= b@.len() && p2 == pos + len
                && v as int == be_val(b@.subrange(pos as int, pos + len)),
            None => pos + len > b@.len(),
        },
{
    if len > b.len() || pos > b.len() - len {
        return None;
    }
    proof {
        lemma_pow256_consts();
        assert(b@.subrange(pos as int, pos as int) =~= Seq::<u8>::empty());
    }
    let mut v: u128 = 0;
    let mut i: usize = 0;
    while i < len
        invariant
            i <= len <= 16,
            pos + len <= b@.len(),
            pos + len <= usize::MAX,
            v as int == be_val(b@.subrange(pos as int, pos + i)),
            (v as int) < pow(256, i as nat),
        decreases len - i,
    {
        proof {
            lemma_be_val_bound(b@.subrange(pos as int, pos + i));
            lemma_pow_adds(256, i as nat, 1);
            lemma_pow256_consts();
            vstd::arithmetic::power::lemma_pow_increases(256, i as nat + 1, 16);
            assert((v as int) * 256 + b@[pos + i] < pow(256, i as nat + 1)) by (nonlinear_arith)
                requires
                    (v as int) < pow(256, i as nat),
                    b@[pos + i] < 256,
                    pow(256, i as nat + 1) == pow(256, i as nat) * 256,
            {}
            assert((v as int) * 256 + (b@[pos + i] as int)
                < 0x100000000000000000000000000000000);
            assert(b@.subrange(pos as int, pos + i + 1).drop_last() =~= b@.subrange(
                pos as int,
                pos + i,
            ));
        }
        v = v * 256 + (b[pos + i] as u128);
        i = i + 1;
    }
    Some((v, pos + len))
}

/// The unsigned 64-bit representation of a signed value (two's complement).
pub open spec fn u64_rep(v: int) -> int {
    if v >= 0 {
        v
    } else {
        v + 0x10000000000000000
    }
}

/// The signed value of an unsigned 64-bit representation.
pub open spec fn i64_rep(u: int) -> int {
    if u >= 0x8000000000000000 {
        u - 0x10000000000000000
    } else {
        u
    }
}

/// The unsigned 128-bit representation of a signed value (two's complement).
pub open spec fn u128_rep(v: int) -> int {
    if v >= 0 {
        v
    } else {
        v + 0x100000000000000000000000000000000
    }
}

/// The signed value of an unsigned 128-bit representation.
pub open spec fn i128_rep(u: int) -> int {
    if u >= 0x80000000000000000000000000000000 {
        u - 0x100000000000000000000000000000000
    } else {
        u
    }
}

/// Two's-complement representation of a signed 128-bit value.
fn i128_to_u128(v: i128) -> (r: u128)
    ensures
        r as int == u128_rep(v as int),
{
    if v >= 0 {
        v as u128
    } else {
        let m = (-(v + 1)) as u128;
        u128::MAX - m
    }
}

/// The signed value a two's-complement 128-bit representation stands for.
fn u128_to_i128(u: u128) -> (r: i128)
    ensures
        r as int == i128_rep(u as int),
{
    if u >= 0x80000000000000000000000000000000 {
        let m = u128::MAX - u;
        -1 - (m as i128)
    } else {
        u as i128
    }
}

/// Two's-complement representation of a signed 64-bit value.
pub(crate) fn i64_to_u64(v: i64) -> (r: u64)
    ensures
        r as int == u64_rep(v as int),
{
    if v >= 0 {
        v as u64
    } else {
        let m = (-(v + 1)) as u64;
        u64::MAX - m
    }
}

/// The signed value a two's-complement 64-bit representation stands for.
fn u64_to_i64(u: u64) -> (r: i64)
    ensures
        r as int == i64_rep(u as int),
{
    if u >= 0x8000000000000000 {
        let m = u64::MAX - u;
        -1 - (m as i64)
    } else {
        u as i64
    }
}

/// Relies on `char::from_u32`: yields the char with that code point exactly
/// when the value is a unicode scalar, and `None` otherwise.
#[verifier::external_body]
pub(crate) fn char_from_u32(u: u32) -> (r: Option<char>)
    ensures
        r == if is_scalar(u) {
            Some(u as char)
        } else {
            None::<char>
        },
{
    char::from_u32(u)
}

// ---------------------------------------------------------------------------
// The encoding, as a mathematical function on span values.
// ---------------------------------------------------------------------------

/// One byte.
pub open spec fn enc_u8(v: u8) -> Seq<u8> {
    seq![v]
}

/// Four big-endian bytes.
pub open spec fn enc_u32(v: u32) -> Seq<u8> {
    be_bytes(v as int, 4)
}

/// Eight big-endian bytes.
pub open spec fn enc_u64(v: u64) -> Seq<u8> {
    be_bytes(v as int, 8)
}

/// Sixteen big-endian bytes.
pub open spec fn enc_u128(v: u128) -> Seq<u8> {
    be_bytes(v as int, 16)
}

/// Eight big-endian bytes of the two's-complement representation.
pub open spec fn enc_i64(v: i64) -> Seq<u8> {
    be_bytes(u64_rep(v as int), 8)
}

/// Sixteen big-endian bytes of the two's-complement representation.
pub open spec fn enc_i128(v: int) -> Seq<u8> {
    be_bytes(u128_rep(v), 16)
}

/// A sequence length as an eight-byte prefix.
pub open spec fn enc_len(n: nat) -> Seq<u8> {
    be_bytes(n as int, 8)
}

/// One char as its 32-bit code point.
pub open spec fn enc_char(c: char) -> Seq<u8> {
    enc_u32(c as u32)
}

/// The chars of a string, one code point after another.
pub open spec fn enc_chars_body(s: Seq<char>) -> Seq<u8>
    decreases s.len(),
{
    if s.len() == 0 {
        Seq::empty()
    } else {
        enc_char(s[0]) + enc_chars_body(s.drop_first())
    }
}

/// A string: its char count, then its code points.
pub open spec fn enc_chars(s: Seq<char>) -> Seq<u8> {
    enc_len(s.len()) + enc_chars_body(s)
}

/// A byte string: its length, then its bytes.
pub open spec fn enc_byteseq(bts: Seq<u8>) -> Seq<u8> {
    enc_len(bts.len()) + bts
}

/// A boolean as one byte.
pub open spec fn enc_bool(v: bool) -> Seq<u8> {
    if v {
        seq![1u8]
    } else {
        seq![0u8]
    }
}

/// A reference kind as one byte.
pub open spec fn enc_ref_type(ty: RefType) -> Seq<u8> {
    match ty {
        RefType::ChildOf => seq![0u8],
        RefType::FollowsFrom => seq![1u8],
    }
}

/// A tag value: a one-byte variant tag, then the payload.
pub open spec fn enc_tag_value(v: TagValueV) -> Seq<u8> {
    match v {
        TagValueV::String(s) => seq![0u8] + enc_chars(s),
        TagValueV::Bool(b) => seq![1u8] + enc_bool(b),
        TagValueV::I64(x) => seq![2u8] + enc_i64(x),
        TagValueV::F64(bits) => seq![3u8] + enc_u64(bits),
        TagValueV::Binary(b) => seq![4u8] + enc_byteseq(b),
    }
}

/// A tag: its key, then its value.
pub open spec fn enc_tag(t: TagV) -> Seq<u8> {
    enc_chars(t.key) + enc_tag_value(t.value)
}

/// The tags of a list, one after another.
pub open spec fn enc_tags_body(ts: Seq<TagV>) -> Seq<u8>
    decreases ts.len(),
{
    if ts.len() == 0 {
        Seq::empty()
    } else {
        enc_tag(ts[0]) + enc_tags_body(ts.drop_first())
    }
}

/// A tag list: its count, then its tags.
pub open spec fn enc_tags(ts: Seq<TagV>) -> Seq<u8> {
    enc_len(ts.len()) + enc_tags_body(ts)
}

/// A reference: its kind, then both identifiers.
pub open spec fn enc_reference(r: RefV) -> Seq<u8> {
    enc_ref_type(r.ty) + enc_u128(r.trace_id) + enc_u64(r.span_id)
}

/// The references of a list, one after another.
pub open spec fn enc_refs_body(rs: Seq<RefV>) -> Seq<u8>
    decreases rs.len(),
{
    if rs.len() == 0 {
        Seq::empty()
    } else {
        enc_reference(rs[0]) + enc_refs_body(rs.drop_first())
    }
}

/// A reference list: its count, then its references.
pub open spec fn enc_refs(rs: Seq<RefV>) -> Seq<u8> {
    enc_len(rs.len()) + enc_refs_body(rs)
}

/// A log entry: its timestamp, then its fields.
pub open spec fn enc_log(l: LogV) -> Seq<u8> {
    enc_i128(l.timestamp) + enc_tags(l.fields)
}

/// The log entries of a list, one after another.
pub open spec fn enc_logs_body(ls: Seq<LogV>) -> Seq<u8>
    decreases ls.len(),
{
    if ls.len() == 0 {
        Seq::empty()
    } else {
        enc_log(ls[0]) + enc_logs_body(ls.drop_first())
    }
}

/// A log list: its count, then its entries.
pub open spec fn enc_logs(ls: Seq<LogV>) -> Seq<u8> {
    enc_len(ls.len()) + enc_logs_body(ls)
}

/// A process: its service name, then its tags.
pub open spec fn enc_process(p: ProcessV) -> Seq<u8> {
    enc_chars(p.service) + enc_tags(p.tags)
}

/// A whole canonical span, field after field.
pub open spec fn enc_span(s: SpanV) -> Seq<u8> {
    enc_u128(s.trace_id) + enc_u64(s.span_id) + enc_chars(s.operation_name) + enc_u32(s.flags)
        + enc_refs(s.references) + enc_i128(s.start) + enc_i128(s.duration) + enc_tags(s.tags)
        + enc_logs(s.logs) + enc_process(s.process)
}

// ---------------------------------------------------------------------------
// The decoding, as a mathematical function reading at a position.
// ---------------------------------------------------------------------------

/// Read one byte.
pub open spec fn sdec_u8(b: Seq<u8>, p: int) -> Option<(u8, int)> {
    if 0 <= p && p + 1 <= b.len() {
        Some((b[p], p + 1))
    } else {
        None
    }
}

/// Read four big-endian bytes.
pub open spec fn sdec_u32(b: Seq<u8>, p: int) -> Option<(u32, int)> {
    if 0 <= p && p + 4 <= b.len() {
        Some((be_val(b.subrange(p, p + 4)) as u32, p + 4))
    } else {
        None
    }
}

/// Read eight big-endian bytes.
pub open spec fn sdec_u64(b: Seq<u8>, p: int) -> Option<(u64, int)> {
    if 0 <= p && p + 8 <= b.len() {
        Some((be_val(b.subrange(p, p + 8)) as u64, p + 8))
    } else {
        None
    }
}

/// Read sixteen big-endian bytes.
pub open spec fn sdec_u128(b: Seq<u8>, p: int) -> Option<(u128, int)> {
    if 0 <= p && p + 16 <= b.len() {
        Some((be_val(b.subrange(p, p + 16)) as u128, p + 16))
    } else {
        None
    }
}

/// Read a two's-complement 64-bit value.
pub open spec fn sdec_i64(b: Seq<u8>, p: int) -> Option<(i64, int)> {
    match sdec_u64(b, p) {
        Some((u, p2)) => Some((i64_rep(u as int) as i64, p2)),
        None => None,
    }
}

/// Read a two's-complement 128-bit value, as an unbounded integer.
pub open spec fn sdec_i128(b: Seq<u8>, p: int) -> Option<(int, int)> {
    match sdec_u128(b, p) {
        Some((u, p2)) => Some((i128_rep(u as int), p2)),
        None => None,
    }
}

/// Read one char; a code point that is no unicode scalar fails.
pub open spec fn sdec_char(b: Seq<u8>, p: int) -> Option<(char, int)> {
    match sdec_u32(b, p) {
        Some((u, p2)) => if is_scalar(u) {
            Some((u as char, p2))
        } else {
            None
        },
        None => None,
    }
}

/// Read exactly `n` chars.
pub open spec fn sdec_chars_body(b: Seq<u8>, p: int, n: nat) -> Option<(Seq<char>, int)>
    decreases n,
{
    if n == 0 {
        Some((Seq::empty(), p))
    } else {
        match sdec_char(b, p) {
            Some((c, p2)) => match sdec_chars_body(b, p2, (n - 1) as nat) {
                Some((s, p3)) => Some((seq![c] + s, p3)),
                None => None,
            },
            None => None,
        }
    }
}

/// Read a length-prefixed string.
pub open spec fn sdec_chars(b: Seq<u8>, p: int) -> Option<(Seq<char>, int)> {
    match sdec_u64(b, p) {
        Some((n, p2)) => sdec_chars_body(b, p2, n as nat),
        None => None,
    }
}

/// Read a length-prefixed byte string.
pub open spec fn sdec_byteseq(b: Seq<u8>, p: int) -> Option<(Seq<u8>, int)> {
    match sdec_u64(b, p) {
        Some((n, p2)) => if p2 + n <= b.len() {
            Some((b.subrange(p2, p2 + n), p2 + n))
        } else {
            None
        },
        None => None,
    }
}

/// Read a boolean byte; other bytes fail.
pub open spec fn sdec_bool(b: Seq<u8>, p: int) -> Option<(bool, int)> {
    match sdec_u8(b, p) {
        Some((v, p2)) => if v == 0 {
            Some((false, p2))
        } else if v == 1 {
            Some((true, p2))
        } else {
            None
        },
        None => None,
    }
}

/// Read a reference kind byte; other bytes fail.
pub open spec fn sdec_ref_type(b: Seq<u8>, p: int) -> Option<(RefType, int)> {
    match sdec_u8(b, p) {
        Some((v, p2)) => if v == 0 {
            Some((RefType::ChildOf, p2))
        } else if v == 1 {
            Some((RefType::FollowsFrom, p2))
        } else {
            None
        },
        None => None,
    }
}

/// Read a tag value behind its variant byte; unknown variants fail.
pub open spec fn sdec_tag_value(b: Seq<u8>, p: int) -> Option<(TagValueV, int)> {
    match sdec_u8(b, p) {
        Some((v, p2)) => if v == 0 {
            match sdec_chars(b, p2) {
                Some((s, p3)) => Some((TagValueV::String(s), p3)),
                None => None,
            }
        } else if v == 1 {
            match sdec_bool(b, p2) {
                Some((x, p3)) => Some((TagValueV::Bool(x), p3)),
                None => None,
            }
        } else if v == 2 {
            match sdec_i64(b, p2) {
                Some((x, p3)) => Some((TagValueV::I64(x), p3)),
                None => None,
            }
        } else if v == 3 {
            match sdec_u64(b, p2) {
                Some((x, p3)) => Some((TagValueV::F64(x), p3)),
                None => None,
            }
        } else if v == 4 {
            match sdec_byteseq(b, p2) {
                Some((x, p3)) => Some((TagValueV::Binary(x), p3)),
                None => None,
            }
        } else {
            None
        },
        None => None,
    }
}

/// Read one tag.
pub open spec fn sdec_tag(b: Seq<u8>, p: int) -> Option<(TagV, int)> {
    match sdec_chars(b, p) {
        Some((key, p2)) => match sdec_tag_value(b, p2) {
            Some((value, p3)) => Some((TagV { key, value }, p3)),
            None => None,
        },
        None => None,
    }
}

/// Read exactly `n` tags.
pub open spec fn sdec_tags_body(b: Seq<u8>, p: int, n: nat) -> Option<(Seq<TagV>, int)>
    decreases n,
{
    if n == 0 {
        Some((Seq::empty(), p))
    } else {
        match sdec_tag(b, p) {
            Some((t, p2)) => match sdec_tags_body(b, p2, (n - 1) as nat) {
                Some((ts, p3)) => Some((seq![t] + ts, p3)),
                None => None,
            },
            None => None,
        }
    }
}

/// Read a length-prefixed tag list.
pub open spec fn sdec_tags(b: Seq<u8>, p: int) -> Option<(Seq<TagV>, int)> {
    match sdec_u64(b, p) {
        Some((n, p2)) => sdec_tags_body(b, p2, n as nat),
        None => None,
    }
}

/// Read one reference; zero identifiers fail.
pub open spec fn sdec_reference(b: Seq<u8>, p: int) -> Option<(RefV, int)> {
    match sdec_ref_type(b, p) {
        Some((ty, p2)) => match sdec_u128(b, p2) {
            Some((tid, p3)) => match sdec_u64(b, p3) {
                Some((sid, p4)) => if tid != 0 && sid != 0 {
                    Some((RefV { ty, trace_id: tid, span_id: sid }, p4))
                } else {
                    None
                },
                None => None,
            },
            None => None,
        },
        None => None,
    }
}

/// Read exactly `n` references.
pub open spec fn sdec_refs_body(b: Seq<u8>, p: int, n: nat) -> Option<(Seq<RefV>, int)>
    decreases n,
{
    if n == 0 {
        Some((Seq::empty(), p))
    } else {
        match sdec_reference(b, p) {
            Some((r, p2)) => match sdec_refs_body(b, p2, (n - 1) as nat) {
                Some((rs, p3)) => Some((seq![r] + rs, p3)),
                None => None,
            },
            None => None,
        }
    }
}

/// Read a length-prefixed reference list.
pub open spec fn sdec_refs(b: Seq<u8>, p: int) -> Option<(Seq<RefV>, int)> {
    match sdec_u64(b, p) {
        Some((n, p2)) => sdec_refs_body(b, p2, n as nat),
        None => None,
    }
}

/// Read one log entry; a timestamp out of range fails.
pub open spec fn sdec_log(b: Seq<u8>, p: int) -> Option<(LogV, int)> {
    match sdec_i128(b, p) {
        Some((ts, p2)) => if TS_MIN_NANOS <= ts <= TS_MAX_NANOS {
            match sdec_tags(b, p2) {
                Some((fields, p3)) => Some((LogV { timestamp: ts, fields }, p3)),
                None => None,
            }
        } else {
            None
        },
        None => None,
    }
}

/// Read exactly `n` log entries.
pub open spec fn sdec_logs_body(b: Seq<u8>, p: int, n: nat) -> Option<(Seq<LogV>, int)>
    decreases n,
{
    if n == 0 {
        Some((Seq::empty(), p))
    } else {
        match sdec_log(b, p) {
            Some((l, p2)) => match sdec_logs_body(b, p2, (n - 1) as nat) {
                Some((ls, p3)) => Some((seq![l] + ls, p3)),
                None => None,
            },
            None => None,
        }
    }
}

/// Read a length-prefixed log list.
pub open spec fn sdec_logs(b: Seq<u8>, p: int) -> Option<(Seq<LogV>, int)> {
    match sdec_u64(b, p) {
        Some((n, p2)) => sdec_logs_body(b, p2, n as nat),
        None => None,
    }
}

/// Read a process; an empty service name fails.
pub open spec fn sdec_process(b: Seq<u8>, p: int) -> Option<(ProcessV, int)> {
    match sdec_chars(b, p) {
        Some((service, p2)) => if service.len() > 0 {
            match sdec_tags(b, p2) {
                Some((tags, p3)) => Some((ProcessV { service, tags }, p3)),
                None => None,
            }
        } else {
            None
        },
        None => None,
    }
}

/// Read a whole canonical span; anything violating the span invariants
/// (zero identifiers, empty names, out-of-range instants) fails.
pub open spec fn sdec_span(b: Seq<u8>, p: int) -> Option<(SpanV, int)> {
    match sdec_u128(b, p) {
        Some((tid, p1)) => if tid == 0 {
            None
        } else {
            match sdec_u64(b, p1) {
                Some((sid, p2)) => if sid == 0 {
                    None
                } else {
                    match sdec_chars(b, p2) {
                        Some((op, p3)) => if op.len() == 0 {
                            None
                        } else {
                            sdec_span_rest(b, p3, tid, sid, op)
                        },
                        None => None,
                    }
                },
                None => None,
            }
        },
        None => None,
    }
}

/// The tail of the span decoder, after the identifying fields.
pub open spec fn sdec_span_rest(b: Seq<u8>, p: int, tid: u128, sid: u64, op: Seq<char>)
    -> Option<(SpanV, int)> {
    match sdec_u32(b, p) {
        Some((flags, p4)) => match sdec_refs(b, p4) {
            Some((references, p5)) => match sdec_i128(b, p5) {
                Some((start, p6)) => if !(TS_MIN_NANOS <= start <= TS_MAX_NANOS) {
                    None
                } else {
                    match sdec_i128(b, p6) {
                        Some((duration, p7)) => if !(DUR_MIN_NANOS <= duration
                            <= DUR_MAX_NANOS) {
                            None
                        } else {
                            match sdec_tags(b, p7) {
                                Some((tags, p8)) => match sdec_logs(b, p8) {
                                    Some((logs, p9)) => match sdec_process(b, p9) {
                                        Some((process, p10)) => Some((
                                            SpanV {
                                                trace_id: tid,
                                                span_id: sid,
                                                operation_name: op,
                                                flags,
                                                references,
                                                start,
                                                duration,
                                                tags,
                                                logs,
                                                process,
                                            },
                                            p10,
                                        )),
                                        None => None,
                                    },
                                    None => None,
                                },
                                None => None,
                            }
                        },
                        None => None,
                    }
                },
                None => None,
            },
            None => None,
        },
        None => None,
    }
}

// ---------------------------------------------------------------------------
// Decoding inverts encoding: the round-trip lemmas.
// ---------------------------------------------------------------------------

/// A window that holds a concatenation splits into windows of the parts.
proof fn lemma_split(b: Seq<u8>, p: int, x: Seq<u8>, y: Seq<u8>)
    requires
        0 <= p,
        p + x.len() + y.len() <= b.len(),
        b.subrange(p, p + x.len() + y.len()) == x + y,
    ensures
        b.subrange(p, p + x.len()) == x,
        b.subrange(p + x.len(), p + x.len() + y.len()) == y,
{
    let whole = b.subrange(p, p + x.len() + y.len());
    assert forall|j: int| 0 <= j < x.len() implies b.subrange(p, p + x.len())[j] == x[j] by {
        assert(whole[j] == (x + y)[j]);
    }
    assert(b.subrange(p, p + x.len()) =~= x);
    assert forall|j: int| 0 <= j < y.len() implies b.subrange(
        p + x.len(),
        p + x.len() + y.len(),
    )[j] == y[j] by {
        assert(whole[x.len() + j] == (x + y)[x.len() + j]);
    }
    assert(b.subrange(p + x.len(), p + x.len() + y.len()) =~= y);
}

proof fn lemma_sdec_enc_u8(v: u8, b: Seq<u8>, p: int)
    requires
        0 <= p,
        p + 1 <= b.len(),
        b.subrange(p, p + 1) == enc_u8(v),
    ensures
        sdec_u8(b, p) == Some((v, p + 1)),
{
    assert(b[p] == b.subrange(p, p + 1)[0]);
}

proof fn lemma_sdec_enc_u32(v: u32, b: Seq<u8>, p: int)
    requires
        0 <= p,
        p + 4 <= b.len(),
        b.subrange(p, p + 4) == enc_u32(v),
    ensures
        sdec_u32(b, p) == Some((v, p + 4)),
{
    lemma_pow256_consts();
    lemma_be_bytes_val(v as int, 4);
}

proof fn lemma_sdec_enc_u64(v: u64, b: Seq<u8>, p: int)
    requires
        0 <= p,
        p + 8 <= b.len(),
        b.subrange(p, p + 8) == enc_u64(v),
    ensures
        sdec_u64(b, p) == Some((v, p + 8)),
{
    lemma_pow256_consts();
    lemma_be_bytes_val(v as int, 8);
}

proof fn lemma_sdec_enc_u128(v: u128, b: Seq<u8>, p: int)
    requires
        0 <= p,
        p + 16 <= b.len(),
        b.subrange(p, p + 16) == enc_u128(v),
    ensures
        sdec_u128(b, p) == Some((v, p + 16)),
{
    lemma_pow256_consts();
    lemma_be_bytes_val(v as int, 16);
}

proof fn lemma_sdec_enc_i64(v: i64, b: Seq<u8>, p: int)
    requires
        0 <= p,
        p + 8 <= b.len(),
        b.subrange(p, p + 8) == enc_i64(v),
    ensures
        sdec_i64(b, p) == Some((v, p + 8)),
{
    lemma_pow256_consts();
    lemma_be_bytes_val(u64_rep(v as int), 8);
    assert(enc_i64(v) == enc_u64(u64_rep(v as int) as u64));
    lemma_sdec_enc_u64(u64_rep(v as int) as u64, b, p);
}

proof fn lemma_sdec_enc_i128(v: int, b: Seq<u8>, p: int)
    requires
        0 <= p,
        p + 16 <= b.len(),
        -0x80000000000000000000000000000000 <= v < 0x80000000000000000000000000000000,
        b.subrange(p, p + 16) == enc_i128(v),
    ensures
        sdec_i128(b, p) == Some((v, p + 16)),
{
    lemma_pow256_consts();
    lemma_be_bytes_val(u128_rep(v), 16);
    assert(enc_i128(v) == enc_u128(u128_rep(v) as u128));
    lemma_sdec_enc_u128(u128_rep(v) as u128, b, p);
}

proof fn lemma_sdec_enc_char(c: char, b: Seq<u8>, p: int)
    requires
        0 <= p,
        p + 4 <= b.len(),
        b.subrange(p, p + 4) == enc_char(c),
    ensures
        sdec_char(b, p) == Some((c, p + 4)),
{
    vstd::utf8::char_is_scalar(c);
    lemma_sdec_enc_u32(c as u32, b, p);
    vstd::utf8::char_u32_cast(c, c as u32);
}

proof fn lemma_sdec_enc_chars_body(s: Seq<char>, b: Seq<u8>, p: int)
    requires
        0 <= p,
        p + enc_chars_body(s).len() <= b.len(),
        b.subrange(p, p + enc_chars_body(s).len()) == enc_chars_body(s),
    ensures
        sdec_chars_body(b, p, s.len()) == Some((s, p + enc_chars_body(s).len())),
    decreases s.len(),
{
    if s.len() == 0 {
        assert(Seq::<char>::empty() =~= s);
    } else {
        let head = enc_char(s[0]);
        let tail = enc_chars_body(s.drop_first());
        assert(head.len() == 4) by {
            crate::ids::lemma_be_bytes_len(s[0] as u32 as int, 4);
        }
        lemma_split(b, p, head, tail);
        lemma_sdec_enc_char(s[0], b, p);
        lemma_sdec_enc_chars_body(s.drop_first(), b, p + 4);
        assert(seq![s[0]] + s.drop_first() =~= s);
    }
}

/// The byte length of an encoded string body.
proof fn lemma_enc_chars_body_len(s: Seq<char>)
    ensures
        enc_chars_body(s).len() == 4 * s.len(),
    decreases s.len(),
{
    if s.len() > 0 {
        crate::ids::lemma_be_bytes_len(s[0] as u32 as int, 4);
        lemma_enc_chars_body_len(s.drop_first());
    }
}

proof fn lemma_sdec_enc_chars(s: Seq<char>, b: Seq<u8>, p: int)
    requires
        0 <= p,
        s.len() < 0x10000000000000000,
        p + enc_chars(s).len() <= b.len(),
        b.subrange(p, p + enc_chars(s).len()) == enc_chars(s),
    ensures
        sdec_chars(b, p) == Some((s, p + enc_chars(s).len())),
{
    crate::ids::lemma_be_bytes_len(s.len() as int, 8);
    lemma_split(b, p, enc_len(s.len()), enc_chars_body(s));
    assert(enc_len(s.len()) == enc_u64(s.len() as u64));
    lemma_sdec_enc_u64(s.len() as u64, b, p);
    lemma_sdec_enc_chars_body(s, b, p + 8);
}

proof fn lemma_sdec_enc_byteseq(bs: Seq<u8>, b: Seq<u8>, p: int)
    requires
        0 <= p,
        bs.len() < 0x10000000000000000,
        p + enc_byteseq(bs).len() <= b.len(),
        b.subrange(p, p + enc_byteseq(bs).len()) == enc_byteseq(bs),
    ensures
        sdec_byteseq(b, p) == Some((bs, p + enc_byteseq(bs).len())),
{
    crate::ids::lemma_be_bytes_len(bs.len() as int, 8);
    lemma_split(b, p, enc_len(bs.len()), bs);
    assert(enc_len(bs.len()) == enc_u64(bs.len() as u64));
    lemma_sdec_enc_u64(bs.len() as u64, b, p);
}

proof fn lemma_sdec_enc_bool(v: bool, b: Seq<u8>, p: int)
    requires
        0 <= p,
        p + 1 <= b.len(),
        b.subrange(p, p + 1) == enc_bool(v),
    ensures
        sdec_bool(b, p) == Some((v, p + 1)),
{
    if v {
        lemma_sdec_enc_u8(1u8, b, p);
    } else {
        lemma_sdec_enc_u8(0u8, b, p);
    }
}

proof fn lemma_sdec_enc_ref_type(ty: RefType, b: Seq<u8>, p: int)
    requires
        0 <= p,
        p + 1 <= b.len(),
        b.subrange(p, p + 1) == enc_ref_type(ty),
    ensures
        sdec_ref_type(b, p) == Some((ty, p + 1)),
{
    match ty {
        RefType::ChildOf => lemma_sdec_enc_u8(0u8, b, p),
        RefType::FollowsFrom => lemma_sdec_enc_u8(1u8, b, p),
    }
}

proof fn lemma_sdec_enc_tag_value(v: TagValueV, b: Seq<u8>, p: int)
    requires
        0 <= p,
        (TagV { key: Seq::empty(), value: v }).len_bounded(),
        p + enc_tag_value(v).len() <= b.len(),
        b.subrange(p, p + enc_tag_value(v).len()) == enc_tag_value(v),
    ensures
        sdec_tag_value(b, p) == Some((v, p + enc_tag_value(v).len())),
{
    match v {
        TagValueV::String(s) => {
            lemma_split(b, p, seq![0u8], enc_chars(s));
            lemma_sdec_enc_u8(0u8, b, p);
            lemma_sdec_enc_chars(s, b, p + 1);
        }
        TagValueV::Bool(x) => {
            lemma_split(b, p, seq![1u8], enc_bool(x));
            lemma_sdec_enc_u8(1u8, b, p);
            lemma_sdec_enc_bool(x, b, p + 1);
        }
        TagValueV::I64(x) => {
            crate::ids::lemma_be_bytes_len(u64_rep(x as int), 8);
            lemma_split(b, p, seq![2u8], enc_i64(x));
            lemma_sdec_enc_u8(2u8, b, p);
            lemma_sdec_enc_i64(x, b, p + 1);
        }
        TagValueV::F64(bits) => {
            crate::ids::lemma_be_bytes_len(bits as int, 8);
            lemma_split(b, p, seq![3u8], enc_u64(bits));
            lemma_sdec_enc_u8(3u8, b, p);
            lemma_sdec_enc_u64(bits, b, p + 1);
        }
        TagValueV::Binary(bs) => {
            crate::ids::lemma_be_bytes_len(bs.len() as int, 8);
            lemma_split(b, p, seq![4u8], enc_byteseq(bs));
            lemma_sdec_enc_u8(4u8, b, p);
            lemma_sdec_enc_byteseq(bs, b, p + 1);
        }
    }
}

proof fn lemma_sdec_enc_tag(t: TagV, b: Seq<u8>, p: int)
    requires
        0 <= p,
        t.len_bounded(),
        p + enc_tag(t).len() <= b.len(),
        b.subrange(p, p + enc_tag(t).len()) == enc_tag(t),
    ensures
        sdec_tag(b, p) == Some((t, p + enc_tag(t).len())),
{
    lemma_split(b, p, enc_chars(t.key), enc_tag_value(t.value));
    lemma_sdec_enc_chars(t.key, b, p);
    assert((TagV { key: Seq::empty(), value: t.value }).len_bounded());
    lemma_sdec_enc_tag_value(t.value, b, p + enc_chars(t.key).len() as int);
}

proof fn lemma_sdec_enc_tags_body(ts: Seq<TagV>, b: Seq<u8>, p: int)
    requires
        0 <= p,
        forall|i: int| 0 <= i < ts.len() ==> (#[trigger] ts[i]).len_bounded(),
        p + enc_tags_body(ts).len() <= b.len(),
        b.subrange(p, p + enc_tags_body(ts).len()) == enc_tags_body(ts),
    ensures
        sdec_tags_body(b, p, ts.len()) == Some((ts, p + enc_tags_body(ts).len())),
    decreases ts.len(),
{
    if ts.len() == 0 {
        assert(Seq::<TagV>::empty() =~= ts);
    } else {
        let head = enc_tag(ts[0]);
        let tail = enc_tags_body(ts.drop_first());
        lemma_split(b, p, head, tail);
        lemma_sdec_enc_tag(ts[0], b, p);
        assert(forall|i: int| 0 <= i < ts.drop_first().len()
            ==> (#[trigger] ts.drop_first()[i]).len_bounded());
        lemma_sdec_enc_tags_body(ts.drop_first(), b, p + head.len());
        assert(seq![ts[0]] + ts.drop_first() =~= ts);
    }
}

proof fn lemma_sdec_enc_tags(ts: Seq<TagV>, b: Seq<u8>, p: int)
    requires
        0 <= p,
        ts.len() < 0x10000000000000000,
        forall|i: int| 0 <= i < ts.len() ==> (#[trigger] ts[i]).len_bounded(),
        p + enc_tags(ts).len() <= b.len(),
        b.subrange(p, p + enc_tags(ts).len()) == enc_tags(ts),
    ensures
        sdec_tags(b, p) == Some((ts, p + enc_tags(ts).len())),
{
    crate::ids::lemma_be_bytes_len(ts.len() as int, 8);
    lemma_split(b, p, enc_len(ts.len()), enc_tags_body(ts));
    assert(enc_len(ts.len()) == enc_u64(ts.len() as u64));
    lemma_sdec_enc_u64(ts.len() as u64, b, p);
    lemma_sdec_enc_tags_body(ts, b, p + 8);
}

proof fn lemma_sdec_enc_reference(r: RefV, b: Seq<u8>, p: int)
    requires
        0 <= p,
        r.wf(),
        p + enc_reference(r).len() <= b.len(),
        b.subrange(p, p + enc_reference(r).len()) == enc_reference(r),
    ensures
        sdec_reference(b, p) == Some((r, p + enc_reference(r).len())),
{
    crate::ids::lemma_be_bytes_len(r.trace_id as int, 16);
    crate::ids::lemma_be_bytes_len(r.span_id as int, 8);
    assert(enc_reference(r) =~= enc_ref_type(r.ty) + (enc_u128(r.trace_id) + enc_u64(
        r.span_id,
    )));
    lemma_split(b, p, enc_ref_type(r.ty), enc_u128(r.trace_id) + enc_u64(r.span_id));
    lemma_split(b, p + 1, enc_u128(r.trace_id), enc_u64(r.span_id));
    lemma_sdec_enc_ref_type(r.ty, b, p);
    lemma_sdec_enc_u128(r.trace_id, b, p + 1);
    lemma_sdec_enc_u64(r.span_id, b, p + 17);
}

proof fn lemma_sdec_enc_refs_body(rs: Seq<RefV>, b: Seq<u8>, p: int)
    requires
        0 <= p,
        forall|i: int| 0 <= i < rs.len() ==> (#[trigger] rs[i]).wf(),
        p + enc_refs_body(rs).len() <= b.len(),
        b.subrange(p, p + enc_refs_body(rs).len()) == enc_refs_body(rs),
    ensures
        sdec_refs_body(b, p, rs.len()) == Some((rs, p + enc_refs_body(rs).len())),
    decreases rs.len(),
{
    if rs.len() == 0 {
        assert(Seq::<RefV>::empty() =~= rs);
    } else {
        let head = enc_reference(rs[0]);
        let tail = enc_refs_body(rs.drop_first());
        lemma_split(b, p, head, tail);
        lemma_sdec_enc_reference(rs[0], b, p);
        assert(forall|i: int| 0 <= i < rs.drop_first().len()
            ==> (#[trigger] rs.drop_first()[i]).wf());
        lemma_sdec_enc_refs_body(rs.drop_first(), b, p + head.len());
        assert(seq![rs[0]] + rs.drop_first() =~= rs);
    }
}

proof fn lemma_sdec_enc_refs(rs: Seq<RefV>, b: Seq<u8>, p: int)
    requires
        0 <= p,
        rs.len() < 0x10000000000000000,
        forall|i: int| 0 <= i < rs.len() ==> (#[trigger] rs[i]).wf(),
        p + enc_refs(rs).len() <= b.len(),
        b.subrange(p, p + enc_refs(rs).len()) == enc_refs(rs),
    ensures
        sdec_refs(b, p) == Some((rs, p + enc_refs(rs).len())),
{
    crate::ids::lemma_be_bytes_len(rs.len() as int, 8);
    lemma_split(b, p, enc_len(rs.len()), enc_refs_body(rs));
    assert(enc_len(rs.len()) == enc_u64(rs.len() as u64));
    lemma_sdec_enc_u64(rs.len() as u64, b, p);
    lemma_sdec_enc_refs_body(rs, b, p + 8);
}

proof fn lemma_sdec_enc_log(l: LogV, b: Seq<u8>, p: int)
    requires
        0 <= p,
        l.wf(),
        l.len_bounded(),
        p + enc_log(l).len() <= b.len(),
        b.subrange(p, p + enc_log(l).len()) == enc_log(l),
    ensures
        sdec_log(b, p) == Some((l, p + enc_log(l).len())),
{
    crate::ids::lemma_be_bytes_len(u128_rep(l.timestamp), 16);
    lemma_split(b, p, enc_i128(l.timestamp), enc_tags(l.fields));
    lemma_sdec_enc_i128(l.timestamp, b, p);
    lemma_sdec_enc_tags(l.fields, b, p + 16);
}

proof fn lemma_sdec_enc_logs_body(ls: Seq<LogV>, b: Seq<u8>, p: int)
    requires
        0 <= p,
        forall|i: int| 0 <= i < ls.len() ==> (#[trigger] ls[i]).wf(),
        forall|i: int| 0 <= i < ls.len() ==> (#[trigger] ls[i]).len_bounded(),
        p + enc_logs_body(ls).len() <= b.len(),
        b.subrange(p, p + enc_logs_body(ls).len()) == enc_logs_body(ls),
    ensures
        sdec_logs_body(b, p, ls.len()) == Some((ls, p + enc_logs_body(ls).len())),
    decreases ls.len(),
{
    if ls.len() == 0 {
        assert(Seq::<LogV>::empty() =~= ls);
    } else {
        let head = enc_log(ls[0]);
        let tail = enc_logs_body(ls.drop_first());
        lemma_split(b, p, head, tail);
        lemma_sdec_enc_log(ls[0], b, p);
        assert(forall|i: int| 0 <= i < ls.drop_first().len()
            ==> (#[trigger] ls.drop_first()[i]).wf());
        assert(forall|i: int| 0 <= i < ls.drop_first().len()
            ==> (#[trigger] ls.drop_first()[i]).len_bounded());
        lemma_sdec_enc_logs_body(ls.drop_first(), b, p + head.len());
        assert(seq![ls[0]] + ls.drop_first() =~= ls);
    }
}

proof fn lemma_sdec_enc_logs(ls: Seq<LogV>, b: Seq<u8>, p: int)
    requires
        0 <= p,
        ls.len() < 0x10000000000000000,
        forall|i: int| 0 <= i < ls.len() ==> (#[trigger] ls[i]).wf(),
        forall|i: int| 0 <= i < ls.len() ==> (#[trigger] ls[i]).len_bounded(),
        p + enc_logs(ls).len() <= b.len(),
        b.subrange(p, p + enc_logs(ls).len()) == enc_logs(ls),
    ensures
        sdec_logs(b, p) == Some((ls, p + enc_logs(ls).len())),
{
    crate::ids::lemma_be_bytes_len(ls.len() as int, 8);
    lemma_split(b, p, enc_len(ls.len()), enc_logs_body(ls));
    assert(enc_len(ls.len()) == enc_u64(ls.len() as u64));
    lemma_sdec_enc_u64(ls.len() as u64, b, p);
    lemma_sdec_enc_logs_body(ls, b, p + 8);
}

proof fn lemma_sdec_enc_process(pr: ProcessV, b: Seq<u8>, p: int)
    requires
        0 <= p,
        pr.wf(),
        pr.len_bounded(),
        p + enc_process(pr).len() <= b.len(),
        b.subrange(p, p + enc_process(pr).len()) == enc_process(pr),
    ensures
        sdec_process(b, p) == Some((pr, p + enc_process(pr).len())),
{
    lemma_split(b, p, enc_chars(pr.service), enc_tags(pr.tags));
    lemma_sdec_enc_chars(pr.service, b, p);
    lemma_sdec_enc_tags(pr.tags, b, p + enc_chars(pr.service).len() as int);
}

/// Decoding the encoding of any well-formed span at any position yields the
/// span back, consuming exactly the encoding.
#[verifier::rlimit(100)]
pub proof fn lemma_sdec_enc_span(s: SpanV, b: Seq<u8>, p: int)
    requires
        0 <= p,
        s.wf(),
        s.len_bounded(),
        p + enc_span(s).len() <= b.len(),
        b.subrange(p, p + enc_span(s).len()) == enc_span(s),
    ensures
        sdec_span(b, p) == Some((s, p + enc_span(s).len())),
{
    let e1 = enc_u128(s.trace_id);
    let e2 = enc_u64(s.span_id);
    let e3 = enc_chars(s.operation_name);
    let e4 = enc_u32(s.flags);
    let e5 = enc_refs(s.references);
    let e6 = enc_i128(s.start);
    let e7 = enc_i128(s.duration);
    let e8 = enc_tags(s.tags);
    let e9 = enc_logs(s.logs);
    let e10 = enc_process(s.process);
    crate::ids::lemma_be_bytes_len(s.trace_id as int, 16);
    crate::ids::lemma_be_bytes_len(s.span_id as int, 8);
    crate::ids::lemma_be_bytes_len(s.flags as int, 4);
    crate::ids::lemma_be_bytes_len(u128_rep(s.start), 16);
    crate::ids::lemma_be_bytes_len(u128_rep(s.duration), 16);
    assert(enc_span(s) =~= e1 + (e2 + (e3 + (e4 + (e5 + (e6 + (e7 + (e8 + (e9 + e10)))))))));
    let p0 = p;
    lemma_split(b, p0, e1, e2 + (e3 + (e4 + (e5 + (e6 + (e7 + (e8 + (e9 + e10))))))));
    let p1 = p0 + e1.len();
    lemma_split(b, p1, e2, e3 + (e4 + (e5 + (e6 + (e7 + (e8 + (e9 + e10)))))));
    let p2 = p1 + e2.len();
    lemma_split(b, p2, e3, e4 + (e5 + (e6 + (e7 + (e8 + (e9 + e10))))));
    let p3 = p2 + e3.len();
    lemma_split(b, p3, e4, e5 + (e6 + (e7 + (e8 + (e9 + e10)))));
    let p4 = p3 + e4.len();
    lemma_split(b, p4, e5, e6 + (e7 + (e8 + (e9 + e10))));
    let p5 = p4 + e5.len();
    lemma_split(b, p5, e6, e7 + (e8 + (e9 + e10)));
    let p6 = p5 + e6.len();
    lemma_split(b, p6, e7, e8 + (e9 + e10));
    let p7 = p6 + e7.len();
    lemma_split(b, p7, e8, e9 + e10);
    let p8 = p7 + e8.len();
    lemma_split(b, p8, e9, e10);
    let p9 = p8 + e9.len();
    lemma_sdec_enc_u128(s.trace_id, b, p0);
    lemma_sdec_enc_u64(s.span_id, b, p1);
    lemma_sdec_enc_chars(s.operation_name, b, p2);
    lemma_sdec_enc_u32(s.flags, b, p3);
    lemma_sdec_enc_refs(s.references, b, p4);
    lemma_sdec_enc_i128(s.start, b, p5);
    lemma_sdec_enc_i128(s.duration, b, p6);
    lemma_sdec_enc_tags(s.tags, b, p7);
    lemma_sdec_enc_logs(s.logs, b, p8);
    lemma_sdec_enc_process(s.process, b, p9);
}

// ---------------------------------------------------------------------------
// Executable encoding.
// ---------------------------------------------------------------------------

/// Appending one more element extends the encoded body at its end.
proof fn lemma_enc_chars_body_snoc(s: Seq<char>, c: char)
    ensures
        enc_chars_body(s.push(c)) == enc_chars_body(s) + enc_char(c),
    decreases s.len(),
{
    let t = s.push(c);
    assert(t.len() == s.len() + 1);
    if s.len() == 0 {
        assert(t[0] == c);
        assert(t.drop_first() =~= Seq::<char>::empty());
        assert(enc_chars_body(t) == enc_char(c) + enc_chars_body(Seq::<char>::empty()));
        assert(enc_char(c) + Seq::<u8>::empty() =~= enc_char(c));
        assert(enc_chars_body(s) + enc_char(c) =~= enc_char(c));
    } else {
        assert(t[0] == s[0]);
        assert(t.drop_first() =~= s.drop_first().push(c));
        lemma_enc_chars_body_snoc(s.drop_first(), c);
        assert(enc_chars_body(t) == enc_char(s[0]) + (enc_chars_body(s.drop_first()) + enc_char(c)));
        assert(enc_char(s[0]) + (enc_chars_body(s.drop_first()) + enc_char(c)) =~= (enc_char(s[0])
            + enc_chars_body(s.drop_first())) + enc_char(c));
        assert(enc_chars_body(s) == enc_char(s[0]) + enc_chars_body(s.drop_first()));
    }
}

proof fn lemma_enc_tags_body_snoc(s: Seq<TagV>, c: TagV)
    ensures
        enc_tags_body(s.push(c)) == enc_tags_body(s) + enc_tag(c),
    decreases s.len(),
{
    let t = s.push(c);
    assert(t.len() == s.len() + 1);
    if s.len() == 0 {
        assert(t[0] == c);
        assert(t.drop_first() =~= Seq::<TagV>::empty());
        assert(enc_tags_body(t) == enc_tag(c) + enc_tags_body(Seq::<TagV>::empty()));
        assert(enc_tag(c) + Seq::<u8>::empty() =~= enc_tag(c));
        assert(enc_tags_body(s) + enc_tag(c) =~= enc_tag(c));
    } else {
        assert(t[0] == s[0]);
        assert(t.drop_first() =~= s.drop_first().push(c));
        lemma_enc_tags_body_snoc(s.drop_first(), c);
        assert(enc_tags_body(t) == enc_tag(s[0]) + (enc_tags_body(s.drop_first()) + enc_tag(c)));
        assert(enc_tag(s[0]) + (enc_tags_body(s.drop_first()) + enc_tag(c)) =~= (enc_tag(s[0])
            + enc_tags_body(s.drop_first())) + enc_tag(c));
        assert(enc_tags_body(s) == enc_tag(s[0]) + enc_tags_body(s.drop_first()));
    }
}

proof fn lemma_enc_refs_body_snoc(s: Seq<RefV>, c: RefV)
    ensures
        enc_refs_body(s.push(c)) == enc_refs_body(s) + enc_reference(c),
    decreases s.len(),
{
    let t = s.push(c);
    assert(t.len() == s.len() + 1);
    if s.len() == 0 {
        assert(t[0] == c);
        assert(t.drop_first() =~= Seq::<RefV>::empty());
        assert(enc_refs_body(t) == enc_reference(c) + enc_refs_body(Seq::<RefV>::empty()));
        assert(enc_reference(c) + Seq::<u8>::empty() =~= enc_reference(c));
        assert(enc_refs_body(s) + enc_reference(c) =~= enc_reference(c));
    } else {
        assert(t[0] == s[0]);
        assert(t.drop_first() =~= s.drop_first().push(c));
        lemma_enc_refs_body_snoc(s.drop_first(), c);
        assert(enc_refs_body(t) == enc_reference(s[0]) + (enc_refs_body(s.drop_first()) + enc_reference(c)));
        assert(enc_reference(s[0]) + (enc_refs_body(s.drop_first()) + enc_reference(c)) =~= (enc_reference(s[0])
            + enc_refs_body(s.drop_first())) + enc_reference(c));
        assert(enc_refs_body(s) == enc_reference(s[0]) + enc_refs_body(s.drop_first()));
    }
}

proof fn lemma_enc_logs_body_snoc(s: Seq<LogV>, c: LogV)
    ensures
        enc_logs_body(s.push(c)) == enc_logs_body(s) + enc_log(c),
    decreases s.len(),
{
    let t = s.push(c);
    assert(t.len() == s.len() + 1);
    if s.len() == 0 {
        assert(t[0] == c);
        assert(t.drop_first() =~= Seq::<LogV>::empty());
        assert(enc_logs_body(t) == enc_log(c) + enc_logs_body(Seq::<LogV>::empty()));
        assert(enc_log(c) + Seq::<u8>::empty() =~= enc_log(c));
        assert(enc_logs_body(s) + enc_log(c) =~= enc_log(c));
    } else {
        assert(t[0] == s[0]);
        assert(t.drop_first() =~= s.drop_first().push(c));
        lemma_enc_logs_body_snoc(s.drop_first(), c);
        assert(enc_logs_body(t) == enc_log(s[0]) + (enc_logs_body(s.drop_first()) + enc_log(c)));
        assert(enc_log(s[0]) + (enc_logs_body(s.drop_first()) + enc_log(c)) =~= (enc_log(s[0])
            + enc_logs_body(s.drop_first())) + enc_log(c));
        assert(enc_logs_body(s) == enc_log(s[0]) + enc_logs_body(s.drop_first()));
    }
}

fn put_u8(out: &mut Vec<u8>, v: u8)
    ensures
        final(out)@ == old(out)@ + enc_u8(v),
{
    out.push(v);
    proof {
        assert(out@ =~= old(out)@ + enc_u8(v));
    }
}

fn put_u32(out: &mut Vec<u8>, v: u32)
    ensures
        final(out)@ == old(out)@ + enc_u32(v),
{
    proof {
        lemma_pow256_consts();
    }
    put_be(out, v as u128, 4);
}

fn put_u64(out: &mut Vec<u8>, v: u64)
    ensures
        final(out)@ == old(out)@ + enc_u64(v),
{
    proof {
        lemma_pow256_consts();
    }
    put_be(out, v as u128, 8);
}

fn put_u128(out: &mut Vec<u8>, v: u128)
    ensures
        final(out)@ == old(out)@ + enc_u128(v),
{
    proof {
        lemma_pow256_consts();
    }
    put_be(out, v, 16);
}

fn put_i64(out: &mut Vec<u8>, v: i64)
    ensures
        final(out)@ == old(out)@ + enc_i64(v),
{
    proof {
        lemma_pow256_consts();
    }
    let u = i64_to_u64(v);
    put_be(out, u as u128, 8);
}

fn put_i128(out: &mut Vec<u8>, v: i128)
    ensures
        final(out)@ == old(out)@ + enc_i128(v as int),
{
    proof {
        lemma_pow256_consts();
    }
    let u = i128_to_u128(v);
    put_be(out, u, 16);
}

fn put_chars(out: &mut Vec<u8>, s: &str)
    ensures
        final(out)@ == old(out)@ + enc_chars(s@),
        s@.len() < 0x10000000000000000,
{
    let n = s.unicode_len();
    put_u64(out, n as u64);
    let ghost base = out@;
    let mut i: usize = 0;
    while i < n
        invariant
            i <= n == s@.len(),
            out@ == base + enc_chars_body(s@.subrange(0, i as int)),
        decreases n - i,
    {
        let c = s.get_char(i);
        proof {
            assert(s@.subrange(0, i + 1) =~= s@.subrange(0, i as int).push(c));
            lemma_enc_chars_body_snoc(s@.subrange(0, i as int), c);
            assert(base + enc_chars_body(s@.subrange(0, i as int)) + enc_char(c) =~= base
                + enc_chars_body(s@.subrange(0, i + 1)));
        }
        put_u32(out, c as u32);
        i = i + 1;
    }
    proof {
        assert(s@.subrange(0, n as int) =~= s@);
        assert(base + enc_chars_body(s@) =~= old(out)@ + enc_chars(s@));
    }
}

fn put_byteseq(out: &mut Vec<u8>, b: &Vec<u8>)
    ensures
        final(out)@ == old(out)@ + enc_byteseq(b@),
        b@.len() < 0x10000000000000000,
{
    put_u64(out, b.len() as u64);
    let ghost base = out@;
    let mut i: usize = 0;
    while i < b.len()
        invariant
            i <= b@.len(),
            out@ == base + b@.subrange(0, i as int),
        decreases b@.len() - i,
    {
        proof {
            assert(base + b@.subrange(0, i as int) + seq![b@[i as int]] =~= base + b@.subrange(
                0,
                i + 1,
            ));
        }
        out.push(b[i]);
        proof {
            assert(out@ =~= base + b@.subrange(0, i + 1));
        }
        i = i + 1;
    }
    proof {
        assert(b@.subrange(0, b@.len() as int) =~= b@);
        assert(base + b@ =~= old(out)@ + enc_byteseq(b@));
    }
}

fn put_bool(out: &mut Vec<u8>, v: bool)
    ensures
        final(out)@ == old(out)@ + enc_bool(v),
{
    put_u8(out, if v { 1 } else { 0 });
}

fn put_ref_type(out: &mut Vec<u8>, ty: &RefType)
    ensures
        final(out)@ == old(out)@ + enc_ref_type(*ty),
{
    match ty {
        RefType::ChildOf => put_u8(out, 0),
        RefType::FollowsFrom => put_u8(out, 1),
    }
}

fn put_tag_value(out: &mut Vec<u8>, v: &TagValue)
    ensures
        final(out)@ == old(out)@ + enc_tag_value(v@),
        (TagV { key: Seq::empty(), value: v@ }).len_bounded(),
{
    match v {
        TagValue::String(s) => {
            put_u8(out, 0);
            put_chars(out, s.as_str());
            proof {
                assert(out@ =~= old(out)@ + enc_tag_value(v@));
            }
        }
        TagValue::Bool(x) => {
            put_u8(out, 1);
            put_bool(out, *x);
            proof {
                assert(out@ =~= old(out)@ + enc_tag_value(v@));
            }
        }
        TagValue::I64(x) => {
            put_u8(out, 2);
            put_i64(out, *x);
            proof {
                assert(out@ =~= old(out)@ + enc_tag_value(v@));
            }
        }
        TagValue::F64(bits) => {
            put_u8(out, 3);
            put_u64(out, *bits);
            proof {
                assert(out@ =~= old(out)@ + enc_tag_value(v@));
            }
        }
        TagValue::Binary(b) => {
            put_u8(out, 4);
            put_byteseq(out, b);
            proof {
                assert(out@ =~= old(out)@ + enc_tag_value(v@));
            }
        }
    }
}

fn put_tag(out: &mut Vec<u8>, t: &Tag)
    ensures
        final(out)@ == old(out)@ + enc_tag(t@),
        t@.len_bounded(),
{
    put_chars(out, t.key.as_str());
    put_tag_value(out, &t.value);
    proof {
        assert(out@ =~= old(out)@ + enc_tag(t@));
    }
}

fn put_tags(out: &mut Vec<u8>, ts: &Vec<Tag>)
    ensures
        final(out)@ == old(out)@ + enc_tags(ts.deep_view()),
        ts.deep_view().len() < 0x10000000000000000,
        forall|i: int| 0 <= i < ts.deep_view().len()
            ==> (#[trigger] ts.deep_view()[i]).len_bounded(),
{
    put_u64(out, ts.len() as u64);
    let ghost base = out@;
    let ghost dv = ts.deep_view();
    let mut i: usize = 0;
    while i < ts.len()
        invariant
            i <= ts@.len(),
            dv == ts.deep_view(),
            dv.len() == ts@.len(),
            out@ == base + enc_tags_body(dv.subrange(0, i as int)),
            forall|j: int| 0 <= j < i ==> (#[trigger] dv[j]).len_bounded(),
        decreases ts@.len() - i,
    {
        proof {
            assert(dv.subrange(0, i + 1) =~= dv.subrange(0, i as int).push(dv[i as int]));
            lemma_enc_tags_body_snoc(dv.subrange(0, i as int), dv[i as int]);
            assert(base + enc_tags_body(dv.subrange(0, i as int)) + enc_tag(dv[i as int]) =~= base
                + enc_tags_body(dv.subrange(0, i + 1)));
            assert(dv[i as int] == ts@[i as int]@);
        }
        put_tag(out, &ts[i]);
        i = i + 1;
    }
    proof {
        assert(dv.subrange(0, dv.len() as int) =~= dv);
        assert(base + enc_tags_body(dv) =~= old(out)@ + enc_tags(dv));
    }
}

fn put_reference(out: &mut Vec<u8>, r: &Reference)
    ensures
        final(out)@ == old(out)@ + enc_reference(r@),
{
    put_ref_type(out, &r.ty);
    put_u128(out, r.trace_id.get());
    put_u64(out, r.span_id.get());
    proof {
        assert(out@ =~= old(out)@ + enc_reference(r@));
    }
}

fn put_refs(out: &mut Vec<u8>, rs: &Vec<Reference>)
    ensures
        final(out)@ == old(out)@ + enc_refs(rs.deep_view()),
        rs.deep_view().len() < 0x10000000000000000,
{
    put_u64(out, rs.len() as u64);
    let ghost base = out@;
    let ghost dv = rs.deep_view();
    let mut i: usize = 0;
    while i < rs.len()
        invariant
            i <= rs@.len(),
            dv == rs.deep_view(),
            dv.len() == rs@.len(),
            out@ == base + enc_refs_body(dv.subrange(0, i as int)),
        decreases rs@.len() - i,
    {
        proof {
            assert(dv.subrange(0, i + 1) =~= dv.subrange(0, i as int).push(dv[i as int]));
            lemma_enc_refs_body_snoc(dv.subrange(0, i as int), dv[i as int]);
            assert(base + enc_refs_body(dv.subrange(0, i as int)) + enc_reference(dv[i as int])
                =~= base + enc_refs_body(dv.subrange(0, i + 1)));
            assert(dv[i as int] == rs@[i as int]@);
        }
        put_reference(out, &rs[i]);
        i = i + 1;
    }
    proof {
        assert(dv.subrange(0, dv.len() as int) =~= dv);
        assert(base + enc_refs_body(dv) =~= old(out)@ + enc_refs(dv));
    }
}

fn put_log(out: &mut Vec<u8>, l: &Log)
    ensures
        final(out)@ == old(out)@ + enc_log(l@),
        l@.len_bounded(),
{
    put_i128(out, l.timestamp.unix_nanos());
    put_tags(out, &l.fields);
    proof {
        assert(out@ =~= old(out)@ + enc_log(l@));
    }
}

fn put_logs(out: &mut Vec<u8>, ls: &Vec<Log>)
    ensures
        final(out)@ == old(out)@ + enc_logs(ls.deep_view()),
        ls.deep_view().len() < 0x10000000000000000,
        forall|i: int| 0 <= i < ls.deep_view().len()
            ==> (#[trigger] ls.deep_view()[i]).len_bounded(),
{
    put_u64(out, ls.len() as u64);
    let ghost base = out@;
    let ghost dv = ls.deep_view();
    let mut i: usize = 0;
    while i < ls.len()
        invariant
            i <= ls@.len(),
            dv == ls.deep_view(),
            dv.len() == ls@.len(),
            out@ == base + enc_logs_body(dv.subrange(0, i as int)),
            forall|j: int| 0 <= j < i ==> (#[trigger] dv[j]).len_bounded(),
        decreases ls@.len() - i,
    {
        proof {
            assert(dv.subrange(0, i + 1) =~= dv.subrange(0, i as int).push(dv[i as int]));
            lemma_enc_logs_body_snoc(dv.subrange(0, i as int), dv[i as int]);
            assert(base + enc_logs_body(dv.subrange(0, i as int)) + enc_log(dv[i as int]) =~= base
                + enc_logs_body(dv.subrange(0, i + 1)));
            assert(dv[i as int] == ls@[i as int]@);
        }
        put_log(out, &ls[i]);
        i = i + 1;
    }
    proof {
        assert(dv.subrange(0, dv.len() as int) =~= dv);
        assert(base + enc_logs_body(dv) =~= old(out)@ + enc_logs(dv));
    }
}

fn put_process(out: &mut Vec<u8>, p: &Process)
    ensures
        final(out)@ == old(out)@ + enc_process(p@),
        p@.len_bounded(),
{
    put_chars(out, p.service.as_str());
    put_tags(out, &p.tags);
    proof {
        assert(out@ =~= old(out)@ + enc_process(p@));
    }
}

/// Serialize a canonical span into the stable compact byte format.
pub fn encode_span(span: &Span) -> (r: Vec<u8>)
    ensures
        r@ == enc_span(span@),
        span@.len_bounded(),
{
    let mut out: Vec<u8> = Vec::new();
    put_u128(&mut out, span.trace_id.get());
    put_u64(&mut out, span.span_id.get());
    put_chars(&mut out, span.operation_name.as_str());
    put_u32(&mut out, span.flags);
    put_refs(&mut out, &span.references);
    put_i128(&mut out, span.start.unix_nanos());
    put_i128(&mut out, span.duration.whole_nanoseconds());
    put_tags(&mut out, &span.tags);
    put_logs(&mut out, &span.logs);
    put_process(&mut out, &span.process);
    proof {
        assert(out@ =~= enc_span(span@));
    }
    out
}

// ---------------------------------------------------------------------------
// Executable decoding: each reader mirrors its mathematical decoder.
// ---------------------------------------------------------------------------

fn get_u8(b: &Vec<u8>, pos: usize) -> (r: Option<(u8, usize)>)
    ensures
        match sdec_u8(b@, pos as int) {
            Some((v, p2)) => r matches Some(x) && x.0 == v && x.1 as int == p2,
            None => r is None,
        },
{
    if pos < b.len() {
        Some((b[pos], pos + 1))
    } else {
        None
    }
}

fn get_u32(b: &Vec<u8>, pos: usize) -> (r: Option<(u32, usize)>)
    ensures
        match sdec_u32(b@, pos as int) {
            Some((v, p2)) => r matches Some(x) && x.0 == v && x.1 as int == p2,
            None => r is None,
        },
{
    match take_be(b, pos, 4) {
        Some((v, p2)) => {
            proof {
                lemma_be_val_bound(b@.subrange(pos as int, pos as int + 4));
                lemma_pow256_consts();
            }
            Some((v as u32, p2))
        }
        None => None,
    }
}

fn get_u64(b: &Vec<u8>, pos: usize) -> (r: Option<(u64, usize)>)
    ensures
        match sdec_u64(b@, pos as int) {
            Some((v, p2)) => r matches Some(x) && x.0 == v && x.1 as int == p2,
            None => r is None,
        },
{
    match take_be(b, pos, 8) {
        Some((v, p2)) => {
            proof {
                lemma_be_val_bound(b@.subrange(pos as int, pos as int + 8));
                lemma_pow256_consts();
            }
            Some((v as u64, p2))
        }
        None => None,
    }
}

fn get_u128(b: &Vec<u8>, pos: usize) -> (r: Option<(u128, usize)>)
    ensures
        match sdec_u128(b@, pos as int) {
            Some((v, p2)) => r matches Some(x) && x.0 == v && x.1 as int == p2,
            None => r is None,
        },
{
    match take_be(b, pos, 16) {
        Some((v, p2)) => {
            proof {
                lemma_be_val_bound(b@.subrange(pos as int, pos as int + 16));
                lemma_pow256_consts();
            }
            Some((v, p2))
        }
        None => None,
    }
}

fn get_i64(b: &Vec<u8>, pos: usize) -> (r: Option<(i64, usize)>)
    ensures
        match sdec_i64(b@, pos as int) {
            Some((v, p2)) => r matches Some(x) && x.0 == v && x.1 as int == p2,
            None => r is None,
        },
{
    match get_u64(b, pos) {
        Some((u, p2)) => Some((u64_to_i64(u), p2)),
        None => None,
    }
}

fn get_i128(b: &Vec<u8>, pos: usize) -> (r: Option<(i128, usize)>)
    ensures
        match sdec_i128(b@, pos as int) {
            Some((v, p2)) => r matches Some(x) && x.0 as int == v && x.1 as int == p2,
            None => r is None,
        },
{
    match get_u128(b, pos) {
        Some((u, p2)) => Some((u128_to_i128(u), p2)),
        None => None,
    }
}

fn get_char(b: &Vec<u8>, pos: usize) -> (r: Option<(char, usize)>)
    ensures
        match sdec_char(b@, pos as int) {
            Some((c, p2)) => r matches Some(x) && x.0 == c && x.1 as int == p2,
            None => r is None,
        },
{
    match get_u32(b, pos) {
        Some((u, p2)) => match char_from_u32(u) {
            Some(c) => Some((c, p2)),
            None => None,
        },
        None => None,
    }
}

fn get_chars(b: &Vec<u8>, pos: usize) -> (r: Option<(String, usize)>)
    ensures
        match sdec_chars(b@, pos as int) {
            Some((s, p2)) => r matches Some(x) && x.0@ == s && x.1 as int == p2,
            None => r is None,
        },
{
    let (n, p1) = match get_u64(b, pos) {
        Some(x) => x,
        None => {
            return None;
        }
    };
    let mut out = String::new();
    let mut cur = p1;
    let mut k: u64 = 0;
    proof {
        match sdec_chars_body(b@, p1 as int, n as nat) {
            Some((s2, p3)) => {
                assert(Seq::<char>::empty() + s2 =~= s2);
            }
            None => {}
        }
    }
    while k < n
        invariant
            k <= n,
            sdec_u64(b@, pos as int) == Some((n, p1 as int)),
            match sdec_chars_body(b@, cur as int, (n - k) as nat) {
                Some((s2, p3)) => sdec_chars_body(b@, p1 as int, n as nat) == Some((
                    out@ + s2,
                    p3,
                )),
                None => sdec_chars_body(b@, p1 as int, n as nat) is None,
            },
        decreases n - k,
    {
        let (c, p2) = match get_char(b, cur) {
            Some(x) => x,
            None => {
                return None;
            }
        };
        proof {
            let tail = sdec_chars_body(b@, p2 as int, (n - k - 1) as nat);
            if tail is Some {
                let (s2, p3) = tail->Some_0;
                assert(out@ + (seq![c] + s2) =~= (out@.push(c)) + s2);
            }
        }
        push_char(&mut out, c);
        cur = p2;
        k = k + 1;
    }
    proof {
        assert(out@ + Seq::<char>::empty() =~= out@);
    }
    Some((out, cur))
}

fn get_byteseq(b: &Vec<u8>, pos: usize) -> (r: Option<(Vec<u8>, usize)>)
    ensures
        match sdec_byteseq(b@, pos as int) {
            Some((s, p2)) => r matches Some(x) && x.0@ == s && x.1 as int == p2,
            None => r is None,
        },
{
    let (n, p1) = match get_u64(b, pos) {
        Some(x) => x,
        None => {
            return None;
        }
    };
    if n > (b.len() - p1) as u64 {
        return None;
    }
    let n_us = n as usize;
    let mut out: Vec<u8> = Vec::new();
    let mut i: usize = 0;
    while i < n_us
        invariant
            i <= n_us,
            p1 + n_us <= b@.len(),
            p1 + n_us <= usize::MAX,
            out@ =~= b@.subrange(p1 as int, p1 + i),
        decreases n_us - i,
    {
        out.push(b[p1 + i]);
        proof {
            assert(out@ =~= b@.subrange(p1 as int, p1 + i + 1));
        }
        i = i + 1;
    }
    Some((out, p1 + n_us))
}

fn get_bool(b: &Vec<u8>, pos: usize) -> (r: Option<(bool, usize)>)
    ensures
        match sdec_bool(b@, pos as int) {
            Some((v, p2)) => r matches Some(x) && x.0 == v && x.1 as int == p2,
            None => r is None,
        },
{
    match get_u8(b, pos) {
        Some((v, p2)) => if v == 0 {
            Some((false, p2))
        } else if v == 1 {
            Some((true, p2))
        } else {
            None
        },
        None => None,
    }
}

fn get_ref_type(b: &Vec<u8>, pos: usize) -> (r: Option<(RefType, usize)>)
    ensures
        match sdec_ref_type(b@, pos as int) {
            Some((v, p2)) => r matches Some(x) && x.0 == v && x.1 as int == p2,
            None => r is None,
        },
{
    match get_u8(b, pos) {
        Some((v, p2)) => if v == 0 {
            Some((RefType::ChildOf, p2))
        } else if v == 1 {
            Some((RefType::FollowsFrom, p2))
        } else {
            None
        },
        None => None,
    }
}

fn get_tag_value(b: &Vec<u8>, pos: usize) -> (r: Option<(TagValue, usize)>)
    ensures
        match sdec_tag_value(b@, pos as int) {
            Some((v, p2)) => r matches Some(x) && x.0@ == v && x.1 as int == p2,
            None => r is None,
        },
{
    let (tag, p1) = match get_u8(b, pos) {
        Some(x) => x,
        None => {
            return None;
        }
    };
    if tag == 0 {
        match get_chars(b, p1) {
            Some((s, p2)) => Some((TagValue::String(s), p2)),
            None => None,
        }
    } else if tag == 1 {
        match get_bool(b, p1) {
            Some((x, p2)) => Some((TagValue::Bool(x), p2)),
            None => None,
        }
    } else if tag == 2 {
        match get_i64(b, p1) {
            Some((x, p2)) => Some((TagValue::I64(x), p2)),
            None => None,
        }
    } else if tag == 3 {
        match get_u64(b, p1) {
            Some((x, p2)) => Some((TagValue::F64(x), p2)),
            None => None,
        }
    } else if tag == 4 {
        match get_byteseq(b, p1) {
            Some((x, p2)) => Some((TagValue::Binary(x), p2)),
            None => None,
        }
    } else {
        None
    }
}

fn get_tag(b: &Vec<u8>, pos: usize) -> (r: Option<(Tag, usize)>)
    ensures
        match sdec_tag(b@, pos as int) {
            Some((v, p2)) => r matches Some(x) && x.0@ == v && x.1 as int == p2,
            None => r is None,
        },
{
    let (key, p1) = match get_chars(b, pos) {
        Some(x) => x,
        None => {
            return None;
        }
    };
    match get_tag_value(b, p1) {
        Some((value, p2)) => Some((Tag { key, value }, p2)),
        None => None,
    }
}

fn get_tags(b: &Vec<u8>, pos: usize) -> (r: Option<(Vec<Tag>, usize)>)
    ensures
        match sdec_tags(b@, pos as int) {
            Some((v, p2)) => r matches Some(x) && x.0.deep_view() == v && x.1 as int == p2,
            None => r is None,
        },
{
    let (n, p1) = match get_u64(b, pos) {
        Some(x) => x,
        None => {
            return None;
        }
    };
    let mut out: Vec<Tag> = Vec::new();
    let mut cur = p1;
    let mut k: u64 = 0;
    proof {
        match sdec_tags_body(b@, p1 as int, n as nat) {
            Some((s2, p3)) => {
                assert(Seq::<TagV>::empty() + s2 =~= s2);
            }
            None => {}
        }
    }
    while k < n
        invariant
            k <= n,
            sdec_u64(b@, pos as int) == Some((n, p1 as int)),
            match sdec_tags_body(b@, cur as int, (n - k) as nat) {
                Some((s2, p3)) => sdec_tags_body(b@, p1 as int, n as nat) == Some((
                    out.deep_view() + s2,
                    p3,
                )),
                None => sdec_tags_body(b@, p1 as int, n as nat) is None,
            },
        decreases n - k,
    {
        let (t, p2) = match get_tag(b, cur) {
            Some(x) => x,
            None => {
                return None;
            }
        };
        let ghost prev = out.deep_view();
        let ghost tv = t@;
        out.push(t);
        proof {
            assert(out.deep_view() =~= prev.push(tv));
            let tail = sdec_tags_body(b@, p2 as int, (n - k - 1) as nat);
            if tail is Some {
                let (s2, p3) = tail->Some_0;
                assert(prev + (seq![tv] + s2) =~= (prev.push(tv)) + s2);
            }
        }
        cur = p2;
        k = k + 1;
    }
    proof {
        assert(out.deep_view() + Seq::<TagV>::empty() =~= out.deep_view());
    }
    Some((out, cur))
}

fn get_reference(b: &Vec<u8>, pos: usize) -> (r: Option<(Reference, usize)>)
    ensures
        match sdec_reference(b@, pos as int) {
            Some((v, p2)) => r matches Some(x) && x.0@ == v && x.0.wf() && x.1 as int == p2,
            None => r is None,
        },
{
    let (ty, p1) = match get_ref_type(b, pos) {
        Some(x) => x,
        None => {
            return None;
        }
    };
    let (tid, p2) = match get_u128(b, p1) {
        Some(x) => x,
        None => {
            return None;
        }
    };
    let (sid, p3) = match get_u64(b, p2) {
        Some(x) => x,
        None => {
            return None;
        }
    };
    if tid != 0 && sid != 0 {
        Some((
            Reference { ty, trace_id: TraceId::new(tid), span_id: SpanId::new(sid) },
            p3,
        ))
    } else {
        None
    }
}

fn get_refs(b: &Vec<u8>, pos: usize) -> (r: Option<(Vec<Reference>, usize)>)
    ensures
        match sdec_refs(b@, pos as int) {
            Some((v, p2)) => r matches Some(x) && x.0.deep_view() == v && x.1 as int == p2
                && forall|i: int| 0 <= i < x.0@.len() ==> (#[trigger] x.0@[i]).wf(),
            None => r is None,
        },
{
    let (n, p1) = match get_u64(b, pos) {
        Some(x) => x,
        None => {
            return None;
        }
    };
    let mut out: Vec<Reference> = Vec::new();
    let mut cur = p1;
    let mut k: u64 = 0;
    proof {
        match sdec_refs_body(b@, p1 as int, n as nat) {
            Some((s2, p3)) => {
                assert(Seq::<RefV>::empty() + s2 =~= s2);
            }
            None => {}
        }
    }
    while k < n
        invariant
            k <= n,
            sdec_u64(b@, pos as int) == Some((n, p1 as int)),
            forall|i: int| 0 <= i < out@.len() ==> (#[trigger] out@[i]).wf(),
            match sdec_refs_body(b@, cur as int, (n - k) as nat) {
                Some((s2, p3)) => sdec_refs_body(b@, p1 as int, n as nat) == Some((
                    out.deep_view() + s2,
                    p3,
                )),
                None => sdec_refs_body(b@, p1 as int, n as nat) is None,
            },
        decreases n - k,
    {
        let (t, p2) = match get_reference(b, cur) {
            Some(x) => x,
            None => {
                return None;
            }
        };
        let ghost prev = out.deep_view();
        let ghost tv = t@;
        out.push(t);
        proof {
            assert(out.deep_view() =~= prev.push(tv));
            let tail = sdec_refs_body(b@, p2 as int, (n - k - 1) as nat);
            if tail is Some {
                let (s2, p3) = tail->Some_0;
                assert(prev + (seq![tv] + s2) =~= (prev.push(tv)) + s2);
            }
        }
        cur = p2;
        k = k + 1;
    }
    proof {
        assert(out.deep_view() + Seq::<RefV>::empty() =~= out.deep_view());
    }
    Some((out, cur))
}

fn get_log(b: &Vec<u8>, pos: usize) -> (r: Option<(Log, usize)>)
    ensures
        match sdec_log(b@, pos as int) {
            Some((v, p2)) => r matches Some(x) && x.0@ == v && x.0.wf() && x.1 as int == p2,
            None => r is None,
        },
{
    let (ts, p1) = match get_i128(b, pos) {
        Some(x) => x,
        None => {
            return None;
        }
    };
    if !(TS_MIN_NANOS <= ts && ts <= TS_MAX_NANOS) {
        return None;
    }
    match get_tags(b, p1) {
        Some((fields, p2)) => Some((Log { timestamp: Timestamp { nanos: ts }, fields }, p2)),
        None => None,
    }
}

fn get_logs(b: &Vec<u8>, pos: usize) -> (r: Option<(Vec<Log>, usize)>)
    ensures
        match sdec_logs(b@, pos as int) {
            Some((v, p2)) => r matches Some(x) && x.0.deep_view() == v && x.1 as int == p2
                && forall|i: int| 0 <= i < x.0@.len() ==> (#[trigger] x.0@[i]).wf(),
            None => r is None,
        },
{
    let (n, p1) = match get_u64(b, pos) {
        Some(x) => x,
        None => {
            return None;
        }
    };
    let mut out: Vec<Log> = Vec::new();
    let mut cur = p1;
    let mut k: u64 = 0;
    proof {
        match sdec_logs_body(b@, p1 as int, n as nat) {
            Some((s2, p3)) => {
                assert(Seq::<LogV>::empty() + s2 =~= s2);
            }
            None => {}
        }
    }
    while k < n
        invariant
            k <= n,
            sdec_u64(b@, pos as int) == Some((n, p1 as int)),
            forall|i: int| 0 <= i < out@.len() ==> (#[trigger] out@[i]).wf(),
            match sdec_logs_body(b@, cur as int, (n - k) as nat) {
                Some((s2, p3)) => sdec_logs_body(b@, p1 as int, n as nat) == Some((
                    out.deep_view() + s2,
                    p3,
                )),
                None => sdec_logs_body(b@, p1 as int, n as nat) is None,
            },
        decreases n - k,
    {
        let (t, p2) = match get_log(b, cur) {
            Some(x) => x,
            None => {
                return None;
            }
        };
        let ghost prev = out.deep_view();
        let ghost tv = t@;
        out.push(t);
        proof {
            assert(out.deep_view() =~= prev.push(tv));
            let tail = sdec_logs_body(b@, p2 as int, (n - k - 1) as nat);
            if tail is Some {
                let (s2, p3) = tail->Some_0;
                assert(prev + (seq![tv] + s2) =~= (prev.push(tv)) + s2);
            }
        }
        cur = p2;
        k = k + 1;
    }
    proof {
        assert(out.deep_view() + Seq::<LogV>::empty() =~= out.deep_view());
    }
    Some((out, cur))
}

fn get_process(b: &Vec<u8>, pos: usize) -> (r: Option<(Process, usize)>)
    ensures
        match sdec_process(b@, pos as int) {
            Some((v, p2)) => r matches Some(x) && x.0@ == v && x.0.wf() && x.1 as int == p2,
            None => r is None,
        },
{
    let (service, p1) = match get_chars(b, pos) {
        Some(x) => x,
        None => {
            return None;
        }
    };
    if service.as_str().is_empty() {
        return None;
    }
    match get_tags(b, p1) {
        Some((tags, p2)) => Some((Process { service, tags }, p2)),
        None => None,
    }
}

/// Deserialize a canonical span from the stable compact byte format.
///
/// Exactly the byte strings produced by [`encode_span`] on well-formed spans
/// decode; trailing bytes, malformed fields, zero identifiers, empty names
/// and out-of-range instants are all rejected.
pub fn decode_span(b: &Vec<u8>) -> (r: Option<Span>)
    ensures
        match sdec_span(b@, 0) {
            Some((v, p2)) => if p2 == b@.len() {
                r matches Some(sp) && sp@ == v && sp.wf()
            } else {
                r is None
            },
            None => r is None,
        },
{
    let (tid, p1) = match get_u128(b, 0) {
        Some(x) => x,
        None => {
            return None;
        }
    };
    if tid == 0 {
        return None;
    }
    let (sid, p2) = match get_u64(b, p1) {
        Some(x) => x,
        None => {
            return None;
        }
    };
    if sid == 0 {
        return None;
    }
    let (op, p3) = match get_chars(b, p2) {
        Some(x) => x,
        None => {
            return None;
        }
    };
    if op.as_str().is_empty() {
        return None;
    }
    let (flags, p4) = match get_u32(b, p3) {
        Some(x) => x,
        None => {
            return None;
        }
    };
    let (references, p5) = match get_refs(b, p4) {
        Some(x) => x,
        None => {
            return None;
        }
    };
    let (start, p6) = match get_i128(b, p5) {
        Some(x) => x,
        None => {
            return None;
        }
    };
    if !(TS_MIN_NANOS <= start && start <= TS_MAX_NANOS) {
        return None;
    }
    let (duration, p7) = match get_i128(b, p6) {
        Some(x) => x,
        None => {
            return None;
        }
    };
    if !(DUR_MIN_NANOS <= duration && duration <= DUR_MAX_NANOS) {
        return None;
    }
    let (tags, p8) = match get_tags(b, p7) {
        Some(x) => x,
        None => {
            return None;
        }
    };
    let (logs, p9) = match get_logs(b, p8) {
        Some(x) => x,
        None => {
            return None;
        }
    };
    let (process, p10) = match get_process(b, p9) {
        Some(x) => x,
        None => {
            return None;
        }
    };
    if p10 != b.len() {
        return None;
    }
    let span = Span {
        trace_id: TraceId::new(tid),
        span_id: SpanId::new(sid),
        operation_name: op,
        flags,
        references,
        start: Timestamp { nanos: start },
        duration: SignedDuration { nanos: duration },
        tags,
        logs,
        process,
    };
    Some(span)
}

/// The codec round trip: decoding the encoding of any well-formed canonical
/// span yields exactly that span, consuming the whole byte string. The
/// length bound is the machine limit every value held in memory satisfies.
pub proof fn lemma_span_codec_round_trip(s: SpanV)
    requires
        s.wf(),
        s.len_bounded(),
    ensures
        sdec_span(enc_span(s), 0) == Some((s, enc_span(s).len() as int)),
{
    let b = enc_span(s);
    assert(b.subrange(0, b.len() as int) =~= b);
    lemma_sdec_enc_span(s, b, 0);
}

// ---------------------------------------------------------------------------
// The persisted payload: the encoding, Snappy-compressed.
// ---------------------------------------------------------------------------

/// What a stored payload stands for: the decompressed bytes read back as a
/// span, when they parse exactly.
pub open spec fn payload_spec(p: Seq<u8>) -> Option<SpanV> {
    match unsnap_of(p) {
        Some(e) => match sdec_span(e, 0) {
            Some((v, q)) => if q == e.len() {
                Some(v)
            } else {
                None
            },
            None => None,
        },
        None => None,
    }
}

/// Serialize and compress a span for persistence. Fails only when the
/// encoding outgrows the compressor's 32-bit limit.
pub fn encode_payload(span: &Span) -> (r: Option<Vec<u8>>)
    requires
        span.wf(),
    ensures
        match r {
            Some(p) => payload_spec(p@) == Some(span@),
            None => 32 + enc_span(span@).len() + enc_span(span@).len() / 6 > 0xFFFFFFFF,
        },
{
    let enc = encode_span(span);
    match crate::compress::snappy_compress(&enc) {
        Some(c) => {
            proof {
                lemma_span_codec_round_trip(span@);
            }
            Some(c)
        }
        None => None,
    }
}

/// Decompress and deserialize a persisted payload.
pub fn decode_payload(p: &Vec<u8>) -> (r: Option<Span>)
    ensures
        match payload_spec(p@) {
            Some(v) => r matches Some(sp) && sp@ == v && sp.wf(),
            None => r is None,
        },
{
    match crate::compress::snappy_decompress(p) {
        Some(e) => decode_span(&e),
        None => None,
    }
}

} // verus!
