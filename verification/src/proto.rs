//! The Jaeger gRPC (api_v2) wire model and its conversion into canonical
//! spans.
//!
//! Identifiers travel as big-endian byte strings (16 and 8 bytes); instants
//! and durations as second/nanosecond pairs; tag values as a discriminator
//! beside one field per variant. A wrong-length or zero identifier is
//! replaced with a fresh random one; a span without a process, or with an
//! instant or duration out of range, is rejected.

use vstd::prelude::*;

verus! {

use crate::codec::take_be;
use crate::ids::be_val;
use crate::ids::SpanId;
use crate::ids::TraceId;
use crate::models;
use crate::models::TagV;
use crate::models::TagValueV;
use crate::models::DUR_MAX_NANOS;
use crate::models::DUR_MIN_NANOS;
use crate::models::TS_MAX_NANOS;
use crate::models::TS_MIN_NANOS;
use crate::thrift::ConvertError;

/// An instant as the wire carries it.
#[derive(Clone, Copy, Debug, PartialEq, Eq, Structural)]
pub struct ProtoTimestamp {
    pub seconds: i64,
    pub nanos: i32,
}

/// A duration as the wire carries it.
#[derive(Clone, Copy, Debug, PartialEq, Eq, Structural)]
pub struct ProtoDuration {
    pub seconds: i64,
    pub nanos: i32,
}

/// The discriminator of a wire tag value.
#[derive(Clone, Copy, Debug, PartialEq, Eq, Structural)]
pub enum ProtoValueType {
    Str,
    Bool,
    Int64,
    Float64,
    Binary,
}

/// One wire tag: the discriminator picks which value field counts.
#[derive(Debug)]
pub struct ProtoKeyValue {
    pub key: String,
    pub v_type: ProtoValueType,
    pub v_str: String,
    pub v_bool: bool,
    pub v_int64: i64,
    /// A 64-bit float, carried as its raw bit pattern.
    pub v_float64: u64,
    pub v_binary: Vec<u8>,
}

/// The mathematical value of a wire tag.
pub struct ProtoTagW {
    pub key: Seq<char>,
    pub v_type: ProtoValueType,
    pub v_str: Seq<char>,
    pub v_bool: bool,
    pub v_int64: i64,
    pub v_float64: u64,
    pub v_binary: Seq<u8>,
}

impl View for ProtoKeyValue {
    type V = ProtoTagW;

    open spec fn view(&self) -> ProtoTagW {
        ProtoTagW {
            key: self.key@,
            v_type: self.v_type,
            v_str: self.v_str@,
            v_bool: self.v_bool,
            v_int64: self.v_int64,
            v_float64: self.v_float64,
            v_binary: self.v_binary@,
        }
    }
}

impl DeepView for ProtoKeyValue {
    type V = ProtoTagW;

    open spec fn deep_view(&self) -> ProtoTagW {
        self.view()
    }
}

/// The kind of a wire span reference.
#[derive(Clone, Copy, Debug, PartialEq, Eq, Structural)]
pub enum ProtoRefType {
    ChildOf,
    FollowsFrom,
}

/// A wire span reference.
#[derive(Debug)]
pub struct ProtoSpanRef {
    pub ref_type: ProtoRefType,
    pub trace_id: Vec<u8>,
    pub span_id: Vec<u8>,
}

/// A wire log entry.
#[derive(Debug)]
pub struct ProtoLog {
    pub timestamp: Option<ProtoTimestamp>,
    pub fields: Vec<ProtoKeyValue>,
}

/// A wire process.
#[derive(Debug)]
pub struct ProtoProcess {
    pub service_name: String,
    pub tags: Vec<ProtoKeyValue>,
}

/// One wire span; the process is carried inline (the gRPC handler copies
/// its batch's process into spans that arrive without one).
#[derive(Debug)]
pub struct ProtoSpan {
    pub trace_id: Vec<u8>,
    pub span_id: Vec<u8>,
    pub operation_name: String,
    pub references: Vec<ProtoSpanRef>,
    pub flags: u32,
    pub start_time: Option<ProtoTimestamp>,
    pub duration: Option<ProtoDuration>,
    pub tags: Vec<ProtoKeyValue>,
    pub logs: Vec<ProtoLog>,
    pub process: Option<ProtoProcess>,
}

/// The value of a wire identifier field: its big-endian value when it has
/// exactly the expected width, zero (replaced with a random id) otherwise.
pub open spec fn id_of_bytes(b: Seq<u8>, width: nat) -> int {
    if b.len() == width {
        be_val(b)
    } else {
        0
    }
}

/// The instant a wire timestamp stands for, in nanoseconds; a missing
/// timestamp reads as the epoch.
pub open spec fn nanos_of_ts(ts: Option<ProtoTimestamp>) -> int {
    match ts {
        Some(t) => t.seconds * 1000000000 + t.nanos,
        None => 0,
    }
}

/// The length a wire duration stands for, in nanoseconds; a missing
/// duration reads as zero.
pub open spec fn nanos_of_dur(d: Option<ProtoDuration>) -> int {
    match d {
        Some(x) => x.seconds * 1000000000 + x.nanos,
        None => 0,
    }
}

/// The canonical tag a wire tag converts to: the discriminator picks the
/// variant, floats keep their bits.
pub open spec fn tag_of_proto(t: ProtoTagW) -> TagV {
    TagV {
        key: t.key,
        value: match t.v_type {
            ProtoValueType::Str => TagValueV::String(t.v_str),
            ProtoValueType::Bool => TagValueV::Bool(t.v_bool),
            ProtoValueType::Int64 => TagValueV::I64(t.v_int64),
            ProtoValueType::Float64 => TagValueV::F64(t.v_float64),
            ProtoValueType::Binary => TagValueV::Binary(t.v_binary),
        },
    }
}

/// The canonical tag list of a wire tag list.
pub open spec fn tags_of_proto(ts: Seq<ProtoTagW>) -> Seq<TagV> {
    Seq::new(ts.len(), |i: int| tag_of_proto(ts[i]))
}

/// Convert one wire tag.
pub fn tag(t: ProtoKeyValue) -> (r: models::Tag)
    ensures
        r@ == tag_of_proto(t@),
{
    let value = match t.v_type {
        ProtoValueType::Str => models::TagValue::String(t.v_str),
        ProtoValueType::Bool => models::TagValue::Bool(t.v_bool),
        ProtoValueType::Int64 => models::TagValue::I64(t.v_int64),
        ProtoValueType::Float64 => models::TagValue::F64(t.v_float64),
        ProtoValueType::Binary => models::TagValue::Binary(t.v_binary),
    };
    models::Tag { key: t.key, value }
}

/// Convert a whole wire tag list.
fn tags_vec(ts: Vec<ProtoKeyValue>) -> (r: Vec<models::Tag>)
    ensures
        r.deep_view() == tags_of_proto(ts.deep_view()),
{
    let ghost tv = ts.deep_view();
    let mut out: Vec<models::Tag> = Vec::new();
    let mut rest = ts;
    let n = rest.len();
    let mut i: usize = 0;
    proof {
        assert(out.deep_view() =~= tags_of_proto(tv).subrange(0, 0));
    }
    while rest.len() > 0
        invariant
            i + rest@.len() == tv.len(),
            i + rest@.len() <= n,
            out@.len() == i,
            rest.deep_view() =~= tv.subrange(i as int, tv.len() as int),
            out.deep_view() =~= tags_of_proto(tv).subrange(0, i as int),
        decreases rest@.len(),
    {
        let ghost olddv = rest.deep_view();
        let ghost pre = rest@;
        let t = rest.remove(0);
        let ghost prev = out.deep_view();
        proof {
            assert(t == pre[0]);
            assert(olddv[0] == pre[0].deep_view());
            assert(t@ == tv[i as int]);
            assert(rest@ =~= pre.drop_first());
            assert forall|j: int| 0 <= j < rest@.len() implies rest.deep_view()[j] == tv.subrange(
                i + 1,
                tv.len() as int,
            )[j] by {
                assert(rest@[j] == pre[j + 1]);
                assert(olddv[j + 1] == pre[j + 1].deep_view());
                assert(olddv[j + 1] == tv.subrange(i as int, tv.len() as int)[j + 1]);
            }
            assert(rest.deep_view() =~= tv.subrange(i + 1, tv.len() as int));
        }
        out.push(tag(t));
        proof {
            assert(out.deep_view() =~= prev.push(tag_of_proto(tv[i as int])));
            assert(out.deep_view() =~= tags_of_proto(tv).subrange(0, i + 1));
        }
        i = i + 1;
    }
    proof {
        assert(tags_of_proto(tv).subrange(0, tv.len() as int) =~= tags_of_proto(tv));
    }
    out
}

/// Reassemble a wire trace id: a wrong-length or zero field is replaced
/// with a fresh random non-zero id.
pub fn trace_id(b: &Vec<u8>) -> (r: TraceId)
    ensures
        r.wf(),
        id_of_bytes(b@, 16) != 0 ==> r.spec_get() as int == id_of_bytes(b@, 16),
{
    if b.len() == 16 {
        match take_be(b, 0, 16) {
            Some((v, _)) => {
                proof {
                    assert(b@.subrange(0, 16) =~= b@);
                }
                crate::rng::trace_id_or_random(v)
            }
            None => crate::rng::random_trace_id(),
        }
    } else {
        crate::rng::random_trace_id()
    }
}

/// Reassemble a wire span id the same way.
pub fn span_id(b: &Vec<u8>) -> (r: SpanId)
    ensures
        r.wf(),
        id_of_bytes(b@, 8) != 0 ==> r.spec_get() as int == id_of_bytes(b@, 8),
{
    if b.len() == 8 {
        match take_be(b, 0, 8) {
            Some((v, _)) => {
                proof {
                    assert(b@.subrange(0, 8) =~= b@);
                    crate::codec::lemma_be_val_bound(b@);
                    vstd::arithmetic::power::lemma_pow_positive(256, 8);
                    assert(vstd::arithmetic::power::pow(256, 8) == 0x10000000000000000) by {
                        reveal_with_fuel(vstd::arithmetic::power::pow, 9);
                    }
                }
                crate::rng::span_id_or_random(v as u64)
            }
            None => crate::rng::random_span_id(),
        }
    } else {
        crate::rng::random_span_id()
    }
}

/// How one converted reference relates to its wire form.
pub open spec fn proto_ref_corresponds(r: models::RefV, w: ProtoSpanRef) -> bool {
    &&& r.ty == (match w.ref_type {
        ProtoRefType::ChildOf => models::RefType::ChildOf,
        ProtoRefType::FollowsFrom => models::RefType::FollowsFrom,
    })
    &&& r.trace_id != 0
    &&& r.span_id != 0
    &&& (id_of_bytes(w.trace_id@, 16) != 0 ==> r.trace_id as int == id_of_bytes(w.trace_id@, 16))
    &&& (id_of_bytes(w.span_id@, 8) != 0 ==> r.span_id as int == id_of_bytes(w.span_id@, 8))
}

/// Why a wire span is rejected: a missing process, an empty operation name
/// or service, or an instant or duration out of range.
pub open spec fn proto_span_rejected(wire: ProtoSpan) -> bool {
    ||| wire.process is None
    ||| wire.operation_name@.len() == 0
    ||| (wire.process matches Some(p) && p.service_name@.len() == 0)
    ||| !(TS_MIN_NANOS <= nanos_of_ts(wire.start_time) <= TS_MAX_NANOS)
    ||| !(DUR_MIN_NANOS <= nanos_of_dur(wire.duration) <= DUR_MAX_NANOS)
    ||| (exists|i: int| 0 <= i < wire.logs@.len() && !(TS_MIN_NANOS <= nanos_of_ts(
        (#[trigger] wire.logs@[i]).timestamp,
    ) <= TS_MAX_NANOS))
}

/// How the canonical span a wire span converts to relates to the wire span.
pub open spec fn proto_span_ok(sp: models::Span, wire: ProtoSpan) -> bool {
    &&& sp.wf()
    &&& (id_of_bytes(wire.trace_id@, 16) != 0 ==> sp@.trace_id as int == id_of_bytes(
        wire.trace_id@,
        16,
    ))
    &&& (id_of_bytes(wire.span_id@, 8) != 0 ==> sp@.span_id as int == id_of_bytes(
        wire.span_id@,
        8,
    ))
    &&& sp@.operation_name == wire.operation_name@
    &&& sp@.flags == wire.flags
    &&& sp@.start == nanos_of_ts(wire.start_time)
    &&& sp@.duration == nanos_of_dur(wire.duration)
    &&& sp@.references.len() == wire.references@.len()
    &&& (forall|i: int| 0 <= i < wire.references@.len() ==> proto_ref_corresponds(
        sp@.references[i],
        wire.references@[i],
    ))
    &&& sp@.tags == tags_of_proto(wire.tags.deep_view())
    &&& sp@.logs.len() == wire.logs@.len()
    &&& (forall|i: int| 0 <= i < wire.logs@.len() ==> (#[trigger] sp@.logs[i]).timestamp
        == nanos_of_ts(wire.logs@[i].timestamp) && sp@.logs[i].fields == tags_of_proto(
        wire.logs@[i].fields.deep_view(),
    ))
    &&& (wire.process matches Some(p) ==> sp@.process.service == p.service_name@
        && sp@.process.tags == tags_of_proto(p.tags.deep_view()))
}

/// Convert one wire reference.
fn span_ref(w: ProtoSpanRef) -> (r: models::Reference)
    ensures
        proto_ref_corresponds(r@, w),
        r.wf(),
{
    models::Reference {
        ty: match w.ref_type {
            ProtoRefType::ChildOf => models::RefType::ChildOf,
            ProtoRefType::FollowsFrom => models::RefType::FollowsFrom,
        },
        trace_id: trace_id(&w.trace_id),
        span_id: span_id(&w.span_id),
    }
}

/// Convert one wire span.
///
/// Identifiers of zero or of the wrong width are replaced with fresh random
/// non-zero ones; a missing process, an empty name, or an instant or
/// duration out of range is rejected; a missing timestamp reads as the
/// epoch, a missing duration as zero.
#[verifier::rlimit(100)]
pub fn proto_span(wire: ProtoSpan) -> (r: Result<models::Span, ConvertError>)
    ensures
        match r {
            Ok(sp) => proto_span_ok(sp, wire),
            Err(_) => proto_span_rejected(wire),
        },
{
    let process = match wire.process {
        Some(p) => p,
        None => {
            return Err(ConvertError::MissingProcess);
        }
    };
    if wire.operation_name.as_str().is_empty() {
        return Err(ConvertError::EmptyOperation);
    }
    if process.service_name.as_str().is_empty() {
        return Err(ConvertError::EmptyService);
    }
    let start_nanos = ts_nanos(&wire.start_time);
    if !(TS_MIN_NANOS <= start_nanos && start_nanos <= TS_MAX_NANOS) {
        return Err(ConvertError::BadTimestamp);
    }
    let dur_nanos = dur_nanos(&wire.duration);
    if !(DUR_MIN_NANOS <= dur_nanos && dur_nanos <= DUR_MAX_NANOS) {
        return Err(ConvertError::BadTimestamp);
    }
    let ghost refs0 = wire.references@;
    let mut references: Vec<models::Reference> = Vec::new();
    let mut rrest = wire.references;
    let nr = rrest.len();
    let mut k: usize = 0;
    while rrest.len() > 0
        invariant
            k + rrest@.len() == refs0.len(),
            k + rrest@.len() <= nr,
            rrest@ =~= refs0.subrange(k as int, refs0.len() as int),
            references@.len() == k,
            forall|q: int| 0 <= q < k ==> proto_ref_corresponds(
                (#[trigger] references@[q])@,
                refs0[q],
            ) && references@[q].wf(),
        decreases rrest@.len(),
    {
        let ghost pre = rrest@;
        let w = rrest.remove(0);
        proof {
            assert(w == refs0[k as int]);
            assert(rrest@ =~= pre.drop_first());
            assert(rrest@ =~= refs0.subrange(k + 1, refs0.len() as int));
        }
        references.push(span_ref(w));
        k = k + 1;
    }
    let tags = tags_vec(wire.tags);
    let ghost logs0 = wire.logs@;
    let mut logs: Vec<models::Log> = Vec::new();
    let mut lrest = wire.logs;
    let nl = lrest.len();
    let mut li: usize = 0;
    while lrest.len() > 0
        invariant
            li + lrest@.len() == logs0.len(),
            li + lrest@.len() <= nl,
            logs0 == wire.logs@,
            lrest@ =~= logs0.subrange(li as int, logs0.len() as int),
            logs@.len() == li,
            forall|q: int| 0 <= q < li ==> (#[trigger] logs@[q]).wf() && logs@[q]@.timestamp
                == nanos_of_ts(logs0[q].timestamp) && logs@[q]@.fields == tags_of_proto(
                logs0[q].fields.deep_view(),
            ),
        decreases lrest@.len(),
    {
        let ghost pre = lrest@;
        let l = lrest.remove(0);
        proof {
            assert(l == logs0[li as int]);
            assert(lrest@ =~= pre.drop_first());
            assert(lrest@ =~= logs0.subrange(li + 1, logs0.len() as int));
        }
        let lts = ts_nanos(&l.timestamp);
        if !(TS_MIN_NANOS <= lts && lts <= TS_MAX_NANOS) {
            proof {
                assert(!(TS_MIN_NANOS <= nanos_of_ts(logs0[li as int].timestamp)
                    <= TS_MAX_NANOS));
            }
            return Err(ConvertError::BadTimestamp);
        }
        let fields = tags_vec(l.fields);
        logs.push(models::Log { timestamp: models::Timestamp { nanos: lts }, fields });
        li = li + 1;
    }
    let proc_tags = tags_vec(process.tags);
    let sp = models::Span {
        trace_id: trace_id(&wire.trace_id),
        span_id: span_id(&wire.span_id),
        operation_name: wire.operation_name,
        flags: wire.flags,
        references,
        start: models::Timestamp { nanos: start_nanos },
        duration: models::SignedDuration { nanos: dur_nanos },
        tags,
        logs,
        process: models::Process { service: process.service_name, tags: proc_tags },
    };
    proof {
        assert forall|q: int| 0 <= q < sp.references.deep_view().len() implies (
        #[trigger] sp.references.deep_view()[q]).wf() by {
            assert(sp.references.deep_view()[q] == sp.references@[q]@);
        }
        assert forall|q: int| 0 <= q < sp.logs.deep_view().len() implies (
        #[trigger] sp.logs.deep_view()[q]).wf() by {
            assert(sp.logs.deep_view()[q] == sp.logs@[q]@);
            assert(sp.logs@[q].wf());
        }
    }
    Ok(sp)
}

/// The nanoseconds a wire timestamp stands for.
fn ts_nanos(ts: &Option<ProtoTimestamp>) -> (r: i128)
    ensures
        r as int == nanos_of_ts(*ts),
{
    match ts {
        Some(t) => (t.seconds as i128) * 1000000000 + (t.nanos as i128),
        None => 0,
    }
}

/// The nanoseconds a wire duration stands for.
fn dur_nanos(d: &Option<ProtoDuration>) -> (r: i128)
    ensures
        r as int == nanos_of_dur(*d),
{
    match d {
        Some(x) => (x.seconds as i128) * 1000000000 + (x.nanos as i128),
        None => 0,
    }
}

} // verus!
