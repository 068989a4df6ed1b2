//! The Jaeger Thrift wire model and its conversion into canonical spans.
//!
//! A Thrift batch carries one process and its spans; trace ids travel as two
//! signed 64-bit halves, instants and durations as signed microseconds, tag
//! values as a type discriminator beside one optional field per variant.
//! Conversion reassembles identifiers (replacing zero ones with fresh random
//! values), widens microseconds to nanoseconds, synthesizes a `ChildOf`
//! reference from a parent span id no existing reference covers, and fails
//! rather than emit a span violating the canonical invariants.

use vstd::prelude::*;

verus! {

use crate::codec::u64_rep;
use crate::ids::SpanId;
use crate::ids::TraceId;
use crate::models;
use crate::models::Timestamp;
use crate::models::SignedDuration;
use crate::models::TagV;
use crate::models::TagValueV;
use crate::models::TS_MAX_NANOS;
use crate::models::TS_MIN_NANOS;
use crate::rng::span_id_or_random;
use crate::rng::trace_id_or_random;

/// The discriminator of a Thrift tag value.
#[derive(Clone, Copy, Debug, PartialEq, Eq, Structural)]
pub enum TagType {
    String,
    Double,
    Bool,
    Long,
    Binary,
}

/// A Thrift tag: the discriminator names the variant, the optional fields
/// carry it; a missing field stands for the variant's default.
#[derive(Debug)]
pub struct Tag {
    pub key: String,
    pub v_type: TagType,
    pub v_str: Option<String>,
    /// A 64-bit float, carried as its raw bit pattern.
    pub v_double: Option<u64>,
    pub v_bool: Option<bool>,
    pub v_long: Option<i64>,
    pub v_binary: Option<Vec<u8>>,
}

/// The mathematical value of a Thrift tag.
pub struct TagW {
    pub key: Seq<char>,
    pub v_type: TagType,
    pub v_str: Option<Seq<char>>,
    pub v_double: Option<u64>,
    pub v_bool: Option<bool>,
    pub v_long: Option<i64>,
    pub v_binary: Option<Seq<u8>>,
}

impl View for Tag {
    type V = TagW;

    open spec fn view(&self) -> TagW {
        TagW {
            key: self.key@,
            v_type: self.v_type,
            v_str: match &self.v_str {
                Some(s) => Some(s@),
                None => None,
            },
            v_double: self.v_double,
            v_bool: self.v_bool,
            v_long: self.v_long,
            v_binary: match &self.v_binary {
                Some(b) => Some(b@),
                None => None,
            },
        }
    }
}

impl DeepView for Tag {
    type V = TagW;

    open spec fn deep_view(&self) -> TagW {
        self.view()
    }
}

/// The canonical tag a Thrift tag converts to: the discriminator picks the
/// variant, a missing value field yields that variant's default.
pub open spec fn tag_of_thrift(t: TagW) -> TagV {
    TagV {
        key: t.key,
        value: match t.v_type {
            TagType::String => TagValueV::String(
                match t.v_str {
                    Some(s) => s,
                    None => Seq::empty(),
                },
            ),
            TagType::Double => TagValueV::F64(
                match t.v_double {
                    Some(d) => d,
                    None => 0,
                },
            ),
            TagType::Bool => TagValueV::Bool(
                match t.v_bool {
                    Some(b) => b,
                    None => false,
                },
            ),
            TagType::Long => TagValueV::I64(
                match t.v_long {
                    Some(l) => l,
                    None => 0,
                },
            ),
            TagType::Binary => TagValueV::Binary(
                match t.v_binary {
                    Some(b) => b,
                    None => Seq::empty(),
                },
            ),
        },
    }
}

/// Convert one Thrift tag.
pub fn tag(t: Tag) -> (r: models::Tag)
    ensures
        r@ == tag_of_thrift(t@),
{
    let value = match t.v_type {
        TagType::String => models::TagValue::String(
            match t.v_str {
                Some(s) => s,
                None => String::new(),
            },
        ),
        TagType::Double => models::TagValue::F64(
            match t.v_double {
                Some(d) => d,
                None => 0,
            },
        ),
        TagType::Bool => models::TagValue::Bool(
            match t.v_bool {
                Some(b) => b,
                None => false,
            },
        ),
        TagType::Long => models::TagValue::I64(
            match t.v_long {
                Some(l) => l,
                None => 0,
            },
        ),
        TagType::Binary => models::TagValue::Binary(
            match t.v_binary {
                Some(b) => b,
                None => Vec::new(),
            },
        ),
    };
    models::Tag { key: t.key, value }
}

/// The canonical tag list of a Thrift tag list.
pub open spec fn tags_of_thrift(ts: Seq<TagW>) -> Seq<TagV> {
    Seq::new(ts.len(), |i: int| tag_of_thrift(ts[i]))
}

/// Convert a whole Thrift tag list.
fn tags_vec(ts: Vec<Tag>) -> (r: Vec<models::Tag>)
    ensures
        r.deep_view() == tags_of_thrift(ts.deep_view()),
{
    let ghost tv = ts.deep_view();
    let mut out: Vec<models::Tag> = Vec::new();
    let mut rest = ts;
    let n = rest.len();
    let mut i: usize = 0;
    proof {
        assert(tags_of_thrift(tv).subrange(0, 0) =~= Seq::<TagV>::empty());
        assert(out.deep_view() =~= Seq::<TagV>::empty());
    }
    while rest.len() > 0
        invariant
            i + rest@.len() == tv.len(),
            i + rest@.len() <= n,
            out@.len() == i,
            rest.deep_view() =~= tv.subrange(i as int, tv.len() as int),
            out.deep_view() =~= tags_of_thrift(tv).subrange(0, i as int),
        decreases rest@.len(),
    {
        let ghost olddv = rest.deep_view();
        let ghost pre = rest@;
        let t = rest.remove(0);
        let ghost prev = out.deep_view();
        proof {
            assert(t == pre[0]);
            assert(olddv[0] == pre[0].deep_view());
            assert(t@ == tv[i as int]);
            assert(rest@ =~= pre.drop_first());
            assert forall|j: int| 0 <= j < rest@.len() implies rest.deep_view()[j] == tv.subrange(
                i + 1,
                tv.len() as int,
            )[j] by {
                assert(rest@[j] == pre[j + 1]);
                assert(olddv[j + 1] == pre[j + 1].deep_view());
                assert(olddv[j + 1] == tv.subrange(i as int, tv.len() as int)[j + 1]);
            }
            assert(rest.deep_view() =~= tv.subrange(i + 1, tv.len() as int));
        }
        out.push(tag(t));
        proof {
            assert(out.deep_view() =~= prev.push(tag_of_thrift(tv[i as int])));
            assert(out.deep_view() =~= tags_of_thrift(tv).subrange(0, i + 1));
        }
        i = i + 1;
    }
    proof {
        assert(tags_of_thrift(tv).subrange(0, tv.len() as int) =~= tags_of_thrift(tv));
    }
    out
}

/// The kind of a Thrift span reference.
#[derive(Clone, Copy, Debug, PartialEq, Eq, Structural)]
pub enum SpanRefType {
    ChildOf,
    FollowsFrom,
}

/// A Thrift span reference: identifiers as signed halves.
#[derive(Clone, Copy, Debug, PartialEq, Eq, Structural)]
pub struct SpanRef {
    pub ref_type: SpanRefType,
    pub trace_id_low: i64,
    pub trace_id_high: i64,
    pub span_id: i64,
}

/// A Thrift log entry: an instant in microseconds and its fields.
#[derive(Debug)]
pub struct Log {
    pub timestamp: i64,
    pub fields: Vec<Tag>,
}

/// A Thrift span.
#[derive(Debug)]
pub struct Span {
    pub trace_id_low: i64,
    pub trace_id_high: i64,
    pub span_id: i64,
    pub parent_span_id: i64,
    pub operation_name: String,
    pub references: Option<Vec<SpanRef>>,
    pub flags: i32,
    pub start_time: i64,
    pub duration: i64,
    pub tags: Option<Vec<Tag>>,
    pub logs: Option<Vec<Log>>,
}

/// A Thrift process: the service and its tags.
#[derive(Debug)]
pub struct Process {
    pub service_name: String,
    pub tags: Option<Vec<Tag>>,
}

/// Counters a Thrift client reports beside its batch.
#[derive(Clone, Copy, Debug, PartialEq, Eq, Structural)]
pub struct ClientStats {
    pub full_queue_dropped_spans: i64,
    pub too_large_dropped_spans: i64,
    pub failed_to_emit_spans: i64,
}

/// A Thrift batch: one process and its spans.
#[derive(Debug)]
pub struct Batch {
    pub process: Process,
    pub spans: Vec<Span>,
    pub seq_no: Option<i64>,
    pub stats: Option<ClientStats>,
}

/// The answer of a batch submission.
#[derive(Clone, Copy, Debug, PartialEq, Eq, Structural)]
pub struct BatchSubmitResponse {
    pub ok: bool,
}

/// Why a wire span was rejected instead of converted.
#[derive(Clone, Copy, Debug, PartialEq, Eq, Structural)]
pub enum ConvertError {
    /// An instant lies outside the representable range.
    BadTimestamp,
    /// The process carries no service name.
    EmptyService,
    /// The span carries no operation name.
    EmptyOperation,
    /// The span arrived without a process.
    MissingProcess,
}

/// The 128-bit value of the two signed halves of a wire trace id.
pub open spec fn combine_id(high: i64, low: i64) -> int {
    u64_rep(high as int) * 0x10000000000000000 + u64_rep(low as int)
}

/// The unsigned 32-bit value of wire flags.
pub open spec fn u32_rep(v: int) -> int {
    if v >= 0 {
        v
    } else {
        v + 0x100000000
    }
}

/// Reassemble a wire trace id, replacing zero with a fresh random id.
pub fn trace_id(high: i64, low: i64) -> (r: TraceId)
    ensures
        r.wf(),
        combine_id(high, low) != 0 ==> r.spec_get() as int == combine_id(high, low),
{
    let h = crate::codec::i64_to_u64(high);
    let l = crate::codec::i64_to_u64(low);
    let v: u128 = ((h as u128) << 64) | (l as u128);
    proof {
        assert(v as int == (h as int) * 0x10000000000000000 + l as int) by (bit_vector)
            requires
                v == ((h as u128) << 64) | (l as u128),
        {}
    }
    trace_id_or_random(v)
}

/// Reinterpret a wire span id, replacing zero with a fresh random id.
pub fn span_id(id: i64) -> (r: SpanId)
    ensures
        r.wf(),
        u64_rep(id as int) != 0 ==> r.spec_get() as int == u64_rep(id as int),
{
    let v = crate::codec::i64_to_u64(id);
    span_id_or_random(v)
}

/// Whether a reference to the parent must be synthesized: the wire span
/// names a parent and no existing reference already points at it within the
/// same trace.
pub open spec fn needs_parent_ref(
    parent: i64,
    high: i64,
    low: i64,
    refs: Seq<SpanRef>,
) -> bool {
    parent != 0 && !(exists|i: int| 0 <= i < refs.len() && (#[trigger] refs[i]).span_id == parent
        && refs[i].trace_id_high == high && refs[i].trace_id_low == low)
}

/// How one converted reference relates to its wire form.
pub open spec fn ref_corresponds(r: models::RefV, w: SpanRef) -> bool {
    &&& r.ty == (match w.ref_type {
        SpanRefType::ChildOf => models::RefType::ChildOf,
        SpanRefType::FollowsFrom => models::RefType::FollowsFrom,
    })
    &&& r.trace_id != 0
    &&& r.span_id != 0
    &&& (combine_id(w.trace_id_high, w.trace_id_low) != 0 ==> r.trace_id as int == combine_id(
        w.trace_id_high,
        w.trace_id_low,
    ))
    &&& (u64_rep(w.span_id as int) != 0 ==> r.span_id as int == u64_rep(w.span_id as int))
}

/// Convert one wire reference.
fn span_ref(w: SpanRef) -> (r: models::Reference)
    ensures
        ref_corresponds(r@, w),
{
    models::Reference {
        ty: match w.ref_type {
            SpanRefType::ChildOf => models::RefType::ChildOf,
            SpanRefType::FollowsFrom => models::RefType::FollowsFrom,
        },
        trace_id: trace_id(w.trace_id_high, w.trace_id_low),
        span_id: span_id(w.span_id),
    }
}

/// How the canonical span a Thrift wire span converts to relates to the
/// wire span and its batch's process: identifiers reassembled (non-zero
/// values preserved, zero ones replaced with fresh non-zero ones),
/// microseconds widened to nanoseconds, a `ChildOf` reference to an
/// uncovered parent synthesized in front, tags and logs mapped in order.
pub open spec fn thrift_span_ok(
    sp: models::Span,
    wire: Span,
    service: Seq<char>,
    ptags: Seq<TagW>,
) -> bool {
    let refs0 = (match wire.references {
        Some(rs) => rs@,
        None => Seq::<SpanRef>::empty(),
    });
    let synth = needs_parent_ref(
        wire.parent_span_id,
        wire.trace_id_high,
        wire.trace_id_low,
        refs0,
    );
    let off: int = if synth {
        1
    } else {
        0
    };
    &&& sp.wf()
    &&& (combine_id(wire.trace_id_high, wire.trace_id_low) != 0 ==> sp@.trace_id as int
        == combine_id(wire.trace_id_high, wire.trace_id_low))
    &&& (u64_rep(wire.span_id as int) != 0 ==> sp@.span_id as int == u64_rep(
        wire.span_id as int,
    ))
    &&& sp@.operation_name == wire.operation_name@
    &&& sp@.flags as int == u32_rep(wire.flags as int)
    &&& sp@.start == wire.start_time * 1000
    &&& sp@.duration == wire.duration * 1000
    &&& sp@.references.len() == refs0.len() + off
    &&& (synth ==> sp@.references[0].ty == models::RefType::ChildOf && (combine_id(
        wire.trace_id_high,
        wire.trace_id_low,
    ) != 0 ==> sp@.references[0].trace_id as int == combine_id(
        wire.trace_id_high,
        wire.trace_id_low,
    )) && sp@.references[0].span_id as int == u64_rep(wire.parent_span_id as int))
    &&& (forall|i: int| 0 <= i < refs0.len() ==> ref_corresponds(
        sp@.references[off + i],
        refs0[i],
    ))
    &&& sp@.tags == tags_of_thrift(
        (match wire.tags {
            Some(ts) => ts.deep_view(),
            None => Seq::<TagW>::empty(),
        }),
    )
    &&& sp@.logs.len() == (match wire.logs {
        Some(ls) => ls@.len(),
        None => 0,
    })
    &&& (match wire.logs {
        Some(ls) => forall|i: int| 0 <= i < ls@.len() ==> (#[trigger] sp@.logs[i]).timestamp
            == ls@[i].timestamp * 1000 && sp@.logs[i].fields == tags_of_thrift(
            ls@[i].fields.deep_view(),
        ),
        None => true,
    })
    &&& sp@.process.service == service
    &&& sp@.process.tags == tags_of_thrift(ptags)
}

/// Why a Thrift wire span is rejected: an empty operation name or service,
/// or an instant outside the representable range.
pub open spec fn thrift_span_rejected(wire: Span, service: Seq<char>) -> bool {
    wire.operation_name@.len() == 0 || service.len() == 0 || !(TS_MIN_NANOS
        <= wire.start_time * 1000 <= TS_MAX_NANOS) || (match wire.logs {
        Some(ls) => exists|i: int| 0 <= i < ls@.len() && !(TS_MIN_NANOS <= (
        #[trigger] ls@[i]).timestamp * 1000 <= TS_MAX_NANOS),
        None => false,
    })
}

/// The views of a process's optional tag list.
pub open spec fn process_tags_view(process: Process) -> Seq<TagW> {
    match process.tags {
        Some(ts) => ts.deep_view(),
        None => Seq::<TagW>::empty(),
    }
}

/// Convert one wire span with its batch's process.
///
/// Identifiers of value zero are replaced with fresh random non-zero ones;
/// microsecond instants widen to nanoseconds; a parent span id not covered
/// by an existing reference becomes a leading `ChildOf` reference. An
/// instant outside the representable range, an empty service name or an
/// empty operation name is rejected.
#[verifier::rlimit(100)]
pub fn span(wire: Span, process: Process) -> (r: Result<models::Span, ConvertError>)
    ensures
        match r {
            Ok(sp) => thrift_span_ok(sp, wire, process.service_name@, process_tags_view(process)),
            Err(_) => thrift_span_rejected(wire, process.service_name@),
        },
{
    if wire.operation_name.as_str().is_empty() {
        return Err(ConvertError::EmptyOperation);
    }
    if process.service_name.as_str().is_empty() {
        return Err(ConvertError::EmptyService);
    }
    let start_nanos: i128 = (wire.start_time as i128) * 1000;
    if !(TS_MIN_NANOS <= start_nanos && start_nanos <= TS_MAX_NANOS) {
        return Err(ConvertError::BadTimestamp);
    }
    let refs0 = match wire.references {
        Some(rs) => rs,
        None => Vec::new(),
    };
    let ghost refs0v = refs0@;
    let mut references: Vec<models::Reference> = Vec::new();
    let mut synth = false;
    if wire.parent_span_id != 0 {
        let mut covered = false;
        let mut i: usize = 0;
        while i < refs0.len()
            invariant
                i <= refs0@.len(),
                refs0v == refs0@,
                covered <==> exists|j: int| 0 <= j < i && (#[trigger] refs0@[j]).span_id
                    == wire.parent_span_id && refs0@[j].trace_id_high == wire.trace_id_high
                    && refs0@[j].trace_id_low == wire.trace_id_low,
            decreases refs0@.len() - i,
        {
            if refs0[i].span_id == wire.parent_span_id && refs0[i].trace_id_high
                == wire.trace_id_high && refs0[i].trace_id_low == wire.trace_id_low {
                covered = true;
            }
            i = i + 1;
        }
        if !covered {
            synth = true;
            references.push(models::Reference {
                ty: models::RefType::ChildOf,
                trace_id: trace_id(wire.trace_id_high, wire.trace_id_low),
                span_id: span_id(wire.parent_span_id),
            });
        }
    }
    let ghost off: int = if synth {
        1
    } else {
        0
    };
    proof {
        assert(synth <==> needs_parent_ref(
            wire.parent_span_id,
            wire.trace_id_high,
            wire.trace_id_low,
            refs0v,
        ));
        if synth {
            assert(u64_rep(wire.parent_span_id as int) != 0) by {
                if wire.parent_span_id as int >= 0 {
                } else {
                }
            }
        }
    }
    let mut k: usize = 0;
    let nrefs = refs0.len();
    let mut rrest = refs0;
    while rrest.len() > 0
        invariant
            k + rrest@.len() == refs0v.len(),
            k + rrest@.len() <= nrefs,
            references@.len() == off + k,
            rrest@ =~= refs0v.subrange(k as int, refs0v.len() as int),
            synth ==> off == 1 && references@.len() > 0 && references@[0].wf()
                && references@[0]@.ty == models::RefType::ChildOf && (combine_id(
                wire.trace_id_high,
                wire.trace_id_low,
            ) != 0 ==> references@[0]@.trace_id as int == combine_id(
                wire.trace_id_high,
                wire.trace_id_low,
            )) && references@[0]@.span_id as int == u64_rep(wire.parent_span_id as int),
            !synth ==> off == 0,
            forall|i: int| 0 <= i < k ==> ref_corresponds(
                (#[trigger] references@[off + i])@,
                refs0v[i],
            ) && references@[off + i].wf(),
        decreases rrest@.len(),
    {
        let ghost prerefs = rrest@;
        let w = rrest.remove(0);
        proof {
            assert(prerefs =~= refs0v.subrange(k as int, refs0v.len() as int));
            assert(w == refs0v[k as int]);
            assert(rrest@ =~= refs0v.subrange(k + 1, refs0v.len() as int));
        }
        references.push(span_ref(w));
        k = k + 1;
    }
    let tags = tags_vec(match wire.tags {
        Some(ts) => ts,
        None => Vec::new(),
    });
    let mut logs: Vec<models::Log> = Vec::new();
    let ghost logs0 = (match &wire.logs {
        Some(ls) => ls@,
        None => Seq::<Log>::empty(),
    });
    let mut lrest = match wire.logs {
        Some(ls) => ls,
        None => Vec::new(),
    };
    let nlogs = lrest.len();
    let mut li: usize = 0;
    while lrest.len() > 0
        invariant
            li + lrest@.len() == logs0.len(),
            li + lrest@.len() <= nlogs,
            logs0 == (match wire.logs {
                Some(ls) => ls@,
                None => Seq::<Log>::empty(),
            }),
            logs@.len() == li,
            lrest@ =~= logs0.subrange(li as int, logs0.len() as int),
            forall|i: int| 0 <= i < li ==> (#[trigger] logs@[i]).wf() && logs@[i]@.timestamp
                == logs0[i].timestamp * 1000 && logs@[i]@.fields == tags_of_thrift(
                logs0[i].fields.deep_view(),
            ),
        decreases lrest@.len(),
    {
        let ghost prelogs = lrest@;
        let l = lrest.remove(0);
        proof {
            assert(prelogs =~= logs0.subrange(li as int, logs0.len() as int));
            assert(l == logs0[li as int]);
            assert(lrest@ =~= logs0.subrange(li + 1, logs0.len() as int));
        }
        let ts_nanos: i128 = (l.timestamp as i128) * 1000;
        if !(TS_MIN_NANOS <= ts_nanos && ts_nanos <= TS_MAX_NANOS) {
            proof {
                assert(logs0[li as int].timestamp * 1000 == ts_nanos as int);
                assert(0 <= li < logs0.len());
                assert(wire.logs is Some) by {
                    if wire.logs is None {
                        assert(logs0 =~= Seq::<Log>::empty());
                    }
                }
                let ls0 = wire.logs->Some_0@;
                assert(ls0 == logs0);
                assert(!(TS_MIN_NANOS <= ls0[li as int].timestamp * 1000 <= TS_MAX_NANOS));
            }
            return Err(ConvertError::BadTimestamp);
        }
        let fields = tags_vec(l.fields);
        logs.push(models::Log { timestamp: Timestamp { nanos: ts_nanos }, fields });
        li = li + 1;
    }
    let proc_tags = tags_vec(match process.tags {
        Some(ts) => ts,
        None => Vec::new(),
    });
    proof {
        assert forall|q: int| 0 <= q < references.deep_view().len() implies (
        #[trigger] references.deep_view()[q]).wf() by {
            assert(references.deep_view()[q] == references@[q]@);
            if synth && q == 0 {
                assert(references@[0].wf());
            } else {
                let off2: int = if synth {
                    1
                } else {
                    0
                };
                assert(ref_corresponds(references@[off2 + (q - off2)]@, refs0v[q - off2]));
            }
        }
        assert forall|q: int| 0 <= q < logs.deep_view().len() implies (
        #[trigger] logs.deep_view()[q]).wf() by {
            assert(logs.deep_view()[q] == logs@[q]@);
            assert(logs@[q].wf());
        }
    }
    let sp = models::Span {
        trace_id: trace_id(wire.trace_id_high, wire.trace_id_low),
        span_id: span_id(wire.span_id),
        operation_name: wire.operation_name,
        flags: flags_u32(wire.flags),
        references,
        start: Timestamp { nanos: start_nanos },
        duration: SignedDuration { nanos: (wire.duration as i128) * 1000 },
        tags,
        logs,
        process: models::Process { service: process.service_name, tags: proc_tags },
    };
    proof {
        assert(sp@.tags == tags_of_thrift(
            (match wire.tags {
                Some(ts) => ts.deep_view(),
                None => Seq::<TagW>::empty(),
            }),
        ));
        assert(sp@.process.tags == tags_of_thrift(process_tags_view(process)));
        assert(thrift_span_ok(sp, wire, process.service_name@, process_tags_view(process)));
    }
    Ok(sp)
}

/// The unsigned reinterpretation of the wire flags.
fn flags_u32(v: i32) -> (r: u32)
    ensures
        r as int == u32_rep(v as int),
{
    if v >= 0 {
        v as u32
    } else {
        let m = (-(v + 1)) as u32;
        u32::MAX - m
    }
}

/// Convert a whole batch: every span against the batch's process, in order.
/// The first rejected span rejects the whole batch.
pub fn batch_to_spans(batch: Batch) -> (r: Result<Vec<models::Span>, ConvertError>)
    ensures
        match r {
            Ok(sps) => sps@.len() == batch.spans@.len() && forall|i: int| 0 <= i < sps@.len()
                ==> thrift_span_ok(
                #[trigger] sps@[i],
                batch.spans@[i],
                batch.process.service_name@,
                process_tags_view(batch.process),
            ),
            Err(_) => exists|i: int| 0 <= i < batch.spans@.len() && thrift_span_rejected(
                #[trigger] batch.spans@[i],
                batch.process.service_name@,
            ),
        },
{
    let mut out: Vec<models::Span> = Vec::new();
    let ghost wires = batch.spans@;
    let mut rest = batch.spans;
    let process = batch.process;
    let nspans = rest.len();
    let mut i: usize = 0;
    while rest.len() > 0
        invariant
            i + rest@.len() == wires.len(),
            i + rest@.len() <= nspans,
            rest@ =~= wires.subrange(i as int, wires.len() as int),
            wires == batch.spans@,
            process == batch.process,
            out@.len() == i,
            forall|q: int| 0 <= q < i ==> thrift_span_ok(
                #[trigger] out@[q],
                wires[q],
                batch.process.service_name@,
                process_tags_view(batch.process),
            ),
        decreases rest@.len(),
    {
        let ghost pre = rest@;
        let w = rest.remove(0);
        proof {
            assert(pre =~= wires.subrange(i as int, wires.len() as int));
            assert(w == wires[i as int]);
            assert(rest@ =~= pre.drop_first());
            assert(rest@ =~= wires.subrange(i + 1, wires.len() as int));
        }
        let p = Process {
            service_name: process.service_name.clone(),
            tags: match &process.tags {
                Some(ts) => Some(clone_tags(ts)),
                None => None,
            },
        };
        proof {
            assert(p.service_name@ == batch.process.service_name@);
            assert(process_tags_view(p) == process_tags_view(batch.process));
        }
        match span(w, p) {
            Ok(sp) => {
                out.push(sp);
            }
            Err(e) => {
                proof {
                    assert(thrift_span_rejected(wires[i as int], batch.process.service_name@));
                }
                return Err(e);
            }
        }
        i = i + 1;
    }
    Ok(out)
}

/// A structural copy of a Thrift tag list.
fn clone_tags(ts: &Vec<Tag>) -> (r: Vec<Tag>)
    ensures
        r.deep_view() == ts.deep_view(),
{
    let mut out: Vec<Tag> = Vec::new();
    let mut i: usize = 0;
    while i < ts.len()
        invariant
            i <= ts@.len(),
            out@.len() == i,
            forall|q: int| 0 <= q < i ==> (#[trigger] out@[q])@ == ts@[q]@,
        decreases ts@.len() - i,
    {
        let t = &ts[i];
        let copy = Tag {
            key: t.key.clone(),
            v_type: t.v_type,
            v_str: match &t.v_str {
                Some(s) => Some(s.clone()),
                None => None,
            },
            v_double: t.v_double,
            v_bool: t.v_bool,
            v_long: t.v_long,
            v_binary: match &t.v_binary {
                Some(b) => {
                    let mut bs: Vec<u8> = Vec::new();
                    let mut j: usize = 0;
                    while j < b.len()
                        invariant
                            j <= b@.len(),
                            bs@ =~= b@.subrange(0, j as int),
                        decreases b@.len() - j,
                    {
                        bs.push(b[j]);
                        proof {
                            assert(bs@ =~= b@.subrange(0, j + 1));
                        }
                        j = j + 1;
                    }
                    proof {
                        assert(bs@ =~= b@);
                    }
                    Some(bs)
                }
                None => None,
            },
        };
        proof {
            assert(copy@ == ts@[i as int]@);
        }
        out.push(copy);
        i = i + 1;
    }
    proof {
        assert forall|q: int| 0 <= q < ts@.len() implies out.deep_view()[q]
            == ts.deep_view()[q] by {
            assert(out.deep_view()[q] == out@[q]@);
            assert(ts.deep_view()[q] == ts@[q]@);
        }
        assert(out.deep_view() =~= ts.deep_view());
    }
    out
}

} // verus!
