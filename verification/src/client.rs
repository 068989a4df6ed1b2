//! The tracing client's span builder and connection actor.
//!
//! The layer side of the library accumulates one span per scope: fresh
//! random identifiers (a nested span inherits its trace id from its root and
//! references its parent), busy and idle timings folded on every enter and
//! exit, and recorded fields, logs and follow links. Closing a scope builds
//! the canonical span the transport ships. The connection actor is a state
//! machine: what each message does to the connection is decided here, the
//! network runs elsewhere.

use vstd::prelude::*;

verus! {

use crate::ids::SpanId;
use crate::ids::TraceId;
use crate::models;
use crate::models::TagValueV;
use crate::models::TS_MAX_NANOS;
use crate::models::TS_MIN_NANOS;
use crate::thrift::ConvertError;

/// The severity of a logged event.
#[derive(Clone, Copy, Debug, PartialEq, Eq, Structural)]
pub enum LogLevel {
    Trace,
    Debug,
    Info,
    Warn,
    Error,
}

/// A source location captured from instrumentation metadata.
#[derive(Debug, PartialEq)]
pub struct Location {
    pub filepath: String,
    pub namespace: String,
    pub lineno: u32,
}

/// The thread a span was opened on.
#[derive(Debug, PartialEq)]
pub struct Thread {
    pub id: u64,
    pub name: String,
}

/// Busy and idle time of one open span, folded from enter and exit events.
#[derive(Clone, Copy, Debug, PartialEq, Eq, Structural)]
pub struct Timings {
    pub busy: u64,
    pub idle: u64,
    pub last: u64,
}

impl Timings {
    /// Fresh timings: nothing spent, the clock starts now.
    pub fn new(now: u64) -> (r: Timings)
        ensures
            r.busy == 0 && r.idle == 0 && r.last == now,
    {
        Timings { busy: 0, idle: 0, last: now }
    }

    /// Entering the span: the time since the last event was idle.
    pub fn on_enter(&mut self, now: u64)
        requires
            now >= old(self).last,
            old(self).idle + (now - old(self).last) <= u64::MAX,
        ensures
            final(self).idle == old(self).idle + (now - old(self).last),
            final(self).busy == old(self).busy,
            final(self).last == now,
    {
        self.idle = self.idle + (now - self.last);
        self.last = now;
    }

    /// Exiting the span: the time since the last event was busy.
    pub fn on_exit(&mut self, now: u64)
        requires
            now >= old(self).last,
            old(self).busy + (now - old(self).last) <= u64::MAX,
        ensures
            final(self).busy == old(self).busy + (now - old(self).last),
            final(self).idle == old(self).idle,
            final(self).last == now,
    {
        self.busy = self.busy + (now - self.last);
        self.last = now;
    }
}

/// A span being accumulated for one open scope.
pub struct SpanBuilder {
    pub trace_id: TraceId,
    pub span_id: SpanId,
    pub name: String,
    pub parent: Option<models::Reference>,
    pub start_nanos: i128,
    pub location: Option<Location>,
    pub thread: Option<Thread>,
    pub tags: Vec<models::Tag>,
    pub logs: Vec<models::Log>,
    pub follows: Vec<models::Reference>,
}

impl SpanBuilder {
    /// Open a builder: a root scope gets a fresh random trace id, a nested
    /// one inherits its parent's and references it as its `ChildOf` parent.
    pub fn new(parent_ids: Option<(TraceId, SpanId)>, name: String, start_nanos: i128) -> (r:
        SpanBuilder)
        requires
            parent_ids matches Some(p) ==> p.0.wf() && p.1.wf(),
        ensures
            r.trace_id.wf(),
            r.span_id.wf(),
            (parent_ids matches Some(p) ==> r.trace_id == p.0 && (r.parent matches Some(pr)
                && pr@.trace_id == p.0.spec_get() && pr@.span_id == p.1.spec_get()
                && pr.ty == models::RefType::ChildOf)),
            (parent_ids is None ==> r.parent is None),
            r.name == name,
            r.start_nanos == start_nanos,
            r.tags@.len() == 0 && r.logs@.len() == 0 && r.follows@.len() == 0,
    {
        let (trace_id, parent) = match parent_ids {
            Some((tid, sid)) => (
                tid,
                Some(
                    models::Reference {
                        ty: models::RefType::ChildOf,
                        trace_id: tid,
                        span_id: sid,
                    },
                ),
            ),
            None => (crate::rng::random_trace_id(), None),
        };
        SpanBuilder {
            trace_id,
            span_id: crate::rng::random_span_id(),
            name,
            parent,
            start_nanos,
            location: None,
            thread: None,
            tags: Vec::new(),
            logs: Vec::new(),
            follows: Vec::new(),
        }
    }

    /// Record one field: recorded values append, without deduplication.
    pub fn record(&mut self, tag: models::Tag)
        ensures
            final(self).tags@ == old(self).tags@.push(tag),
            final(self).trace_id == old(self).trace_id,
            final(self).span_id == old(self).span_id,
    {
        self.tags.push(tag);
    }

    /// Link a span this one follows from.
    pub fn follows_from(&mut self, trace_id: TraceId, span_id: SpanId)
        requires
            trace_id.wf(),
            span_id.wf(),
        ensures
            final(self).follows@ == old(self).follows@.push(
                models::Reference { ty: models::RefType::FollowsFrom, trace_id, span_id },
            ),
            final(self).trace_id == old(self).trace_id,
            final(self).span_id == old(self).span_id,
    {
        self.follows.push(models::Reference {
            ty: models::RefType::FollowsFrom,
            trace_id,
            span_id,
        });
    }
}

/// What the text form of a thread identifier stands for: the decimal value
/// between the first `(` and the following `)`, when it is a plain decimal
/// that fits 64 bits.
pub open spec fn thread_id_val(s: Seq<char>) -> Option<int> {
    let open = crate::query::find_char(s, 0, '(');
    let close = crate::query::find_char(s, open, ')');
    if open < s.len() && close < s.len() && close > open + 1 {
        crate::query::dec_uint_val(s.subrange(open + 1, close))
    } else {
        None
    }
}

/// The integer inside the text form of a thread identifier, which spells the
/// id inside a fixed `ThreadId(...)` wrapper.
pub fn parse_thread_id(s: &str) -> (r: Option<u64>)
    ensures
        match r {
            Some(v) => thread_id_val(s@) == Some(v as int),
            None => thread_id_val(s@) is None || (thread_id_val(s@) matches Some(w) && w
                > u64::MAX),
        },
{
    let n = s.unicode_len();
    let open = crate::query::find_char_exec(s, 0, n, '(');
    if open >= n {
        return None;
    }
    let close = crate::query::find_char_exec(s, open, n, ')');
    if close >= n || close <= open + 1 {
        return None;
    }
    proof {
        crate::query::lemma_find_char_range_pub(s@, 0, '(');
        crate::query::lemma_find_char_range_pub(s@, open as int, ')');
    }
    let digits = s.substring_char(open + 1, close);
    let digits_owned = digits.to_owned();
    proof {
        assert(digits_owned@.subrange(0, digits_owned@.len() as int) =~= digits_owned@);
    }
    match crate::query::parse_dec_u128(digits_owned.as_str(), 0) {
        Some(v) => {
            if v <= u64::MAX as u128 {
                Some(v as u64)
            } else {
                None
            }
        }
        None => None,
    }
}

/// The first `::`-separated segment of a target path.
pub open spec fn first_segment(s: Seq<char>) -> Seq<char> {
    s.subrange(0, segment_end(s, 0))
}

/// The first position from `i` on where `::` starts, or the length.
pub open spec fn segment_end(s: Seq<char>, i: int) -> int
    decreases s.len() - i,
{
    if i < 0 || i + 1 >= s.len() {
        s.len() as int
    } else if s[i] == ':' && s[i + 1] == ':' {
        i
    } else {
        segment_end(s, i + 1)
    }
}

/// Whether the layer must skip metadata: its target's first path segment is
/// the tracing library itself or the transport stack, which would feed back.
pub fn skip_target(target: &str, own: &str) -> (r: bool)
    ensures
        r == (first_segment(target@) == own@ || first_segment(target@) == "quinn"@
            || first_segment(target@) == "quinn_proto"@),
{
    let n = target.unicode_len();
    let sep = first_path_segment_end(target, n);
    let head = target.substring_char(0, sep);
    let own_s = own.to_owned();
    let quinn = String::from_str("quinn");
    let quinn_proto = String::from_str("quinn_proto");
    let head_s = head.to_owned();
    proof {
        assert(head_s@ == first_segment(target@));
    }
    head_s.eq(&own_s) || head_s.eq(&quinn) || head_s.eq(&quinn_proto)
}

/// The end of the first `::`-separated segment.
fn first_path_segment_end(s: &str, n: usize) -> (r: usize)
    requires
        n == s@.len(),
    ensures
        r as int == segment_end(s@, 0),
        r <= n,
{
    if n == 0 {
        return 0;
    }
    let mut i: usize = 0;
    while i + 1 < n
        invariant
            i < n == s@.len(),
            segment_end(s@, 0) == segment_end(s@, i as int),
        decreases n - i,
    {
        if s.get_char(i) == ':' && s.get_char(i + 1) == ':' {
            return i;
        }
        i = i + 1;
    }
    n
}

/// A nanosecond counter as a signed tag value, saturated at the signed
/// maximum.
pub open spec fn i64_sat(v: u64) -> int {
    if v > i64::MAX {
        i64::MAX as int
    } else {
        v as int
    }
}

/// The `busy_ns` and `idle_ns` tags of a closed span.
pub open spec fn timing_tags(busy: u64, idle: u64) -> Seq<models::TagV> {
    seq![
        models::TagV {
            key: seq!['b', 'u', 's', 'y', '_', 'n', 's'],
            value: TagValueV::I64(i64_sat(busy) as i64),
        },
        models::TagV {
            key: seq!['i', 'd', 'l', 'e', '_', 'n', 's'],
            value: TagValueV::I64(i64_sat(idle) as i64),
        },
    ]
}

/// The `code.*` tags of a captured source location.
pub open spec fn location_tags(loc: Option<Location>) -> Seq<models::TagV> {
    match loc {
        Some(l) => seq![
            models::TagV {
                key: seq!['c', 'o', 'd', 'e', '.', 'f', 'i', 'l', 'e', 'p', 'a', 't', 'h'],
                value: TagValueV::String(l.filepath@),
            },
            models::TagV {
                key: seq!['c', 'o', 'd', 'e', '.', 'n', 'a', 'm', 'e', 's', 'p', 'a', 'c', 'e'],
                value: TagValueV::String(l.namespace@),
            },
            models::TagV {
                key: seq!['c', 'o', 'd', 'e', '.', 'l', 'i', 'n', 'e', 'n', 'o'],
                value: TagValueV::I64(l.lineno as i64),
            },
        ],
        None => Seq::empty(),
    }
}

/// The `thread.*` tags of the opening thread.
pub open spec fn thread_tags(th: Option<Thread>) -> Seq<models::TagV> {
    match th {
        Some(t) => seq![
            models::TagV {
                key: seq!['t', 'h', 'r', 'e', 'a', 'd', '.', 'i', 'd'],
                value: TagValueV::I64(i64_sat(t.id) as i64),
            },
            models::TagV {
                key: seq!['t', 'h', 'r', 'e', 'a', 'd', '.', 'n', 'a', 'm', 'e'],
                value: TagValueV::String(t.name@),
            },
        ],
        None => Seq::empty(),
    }
}

/// The single `service.version` process tag.
pub open spec fn version_tags(version: Seq<char>) -> Seq<models::TagV> {
    seq![
        models::TagV {
            key: seq![
                's', 'e', 'r', 'v', 'i', 'c', 'e', '.', 'v', 'e', 'r', 's', 'i', 'o', 'n',
            ],
            value: TagValueV::String(version),
        },
    ]
}

/// The text of a log severity.
pub open spec fn level_text(level: LogLevel) -> Seq<char> {
    match level {
        LogLevel::Trace => seq!['T', 'R', 'A', 'C', 'E'],
        LogLevel::Debug => seq!['D', 'E', 'B', 'U', 'G'],
        LogLevel::Info => seq!['I', 'N', 'F', 'O'],
        LogLevel::Warn => seq!['W', 'A', 'R', 'N'],
        LogLevel::Error => seq!['E', 'R', 'R', 'O', 'R'],
    }
}

/// The leading fields of a logged event: its severity, its target, and its
/// source location.
pub open spec fn log_lead_tags(
    level: LogLevel,
    target: Seq<char>,
    loc: Option<Location>,
) -> Seq<models::TagV> {
    seq![
        models::TagV {
            key: seq!['l', 'e', 'v', 'e', 'l'],
            value: TagValueV::String(level_text(level)),
        },
        models::TagV { key: seq!['t', 'a', 'r', 'g', 'e', 't'], value: TagValueV::String(target) },
    ] + location_tags(loc)
}

/// Assemble the log entry of one event below an open span: severity and
/// target lead, the source location follows, then the recorded fields.
pub fn make_log(
    timestamp_nanos: i128,
    level: LogLevel,
    target: String,
    location: Option<Location>,
    fields: Vec<models::Tag>,
) -> (r: Result<models::Log, ConvertError>)
    ensures
        match r {
            Ok(l) => l.wf() && l@.timestamp == timestamp_nanos as int && l@.fields
                == log_lead_tags(level, target@, location) + fields.deep_view(),
            Err(_) => !(TS_MIN_NANOS <= timestamp_nanos <= TS_MAX_NANOS),
        },
{
    if !(TS_MIN_NANOS <= timestamp_nanos && timestamp_nanos <= TS_MAX_NANOS) {
        return Err(ConvertError::BadTimestamp);
    }
    let ghost loc_snapshot = location;
    let mut out: Vec<models::Tag> = Vec::new();
    let lvl = match level {
        LogLevel::Trace => String::from_str("TRACE"),
        LogLevel::Debug => String::from_str("DEBUG"),
        LogLevel::Info => String::from_str("INFO"),
        LogLevel::Warn => String::from_str("WARN"),
        LogLevel::Error => String::from_str("ERROR"),
    };
    proof {
        reveal_strlit("TRACE");
        reveal_strlit("DEBUG");
        reveal_strlit("INFO");
        reveal_strlit("WARN");
        reveal_strlit("ERROR");
        assert(lvl@ =~= level_text(level));
    }
    out.push(models::Tag {
        key: String::from_str("level"),
        value: models::TagValue::String(lvl),
    });
    out.push(models::Tag {
        key: String::from_str("target"),
        value: models::TagValue::String(target),
    });
    push_location_tags(&mut out, location);
    proof {
        reveal_strlit("level");
        reveal_strlit("target");
        assert(out.deep_view() =~~= log_lead_tags(level, target@, loc_snapshot));
    }
    let mut user = fields;
    let ghost user_view = user.deep_view();
    out.append(&mut user);
    proof {
        assert(out.deep_view() =~~= log_lead_tags(level, target@, loc_snapshot) + user_view);
    }
    Ok(models::Log { timestamp: models::Timestamp { nanos: timestamp_nanos }, fields: out })
}

/// Append the `code.*` tags of a location.
fn push_location_tags(out: &mut Vec<models::Tag>, loc: Option<Location>)
    ensures
        final(out).deep_view() == old(out).deep_view() + location_tags(loc),
{
    let ghost base = out.deep_view();
    match loc {
        Some(l) => {
            out.push(models::Tag {
                key: String::from_str("code.filepath"),
                value: models::TagValue::String(l.filepath),
            });
            out.push(models::Tag {
                key: String::from_str("code.namespace"),
                value: models::TagValue::String(l.namespace),
            });
            out.push(models::Tag {
                key: String::from_str("code.lineno"),
                value: models::TagValue::I64(l.lineno as i64),
            });
            proof {
                reveal_strlit("code.filepath");
                reveal_strlit("code.namespace");
                reveal_strlit("code.lineno");
                assert(out.deep_view() =~~= base + location_tags(loc));
            }
        }
        None => {
            proof {
                assert(out.deep_view() =~~= base + location_tags(loc));
            }
        }
    }
}

/// Append the `thread.*` tags of a thread.
fn push_thread_tags(out: &mut Vec<models::Tag>, th: Option<Thread>)
    ensures
        final(out).deep_view() == old(out).deep_view() + thread_tags(th),
{
    let ghost base = out.deep_view();
    match th {
        Some(t) => {
            out.push(models::Tag {
                key: String::from_str("thread.id"),
                value: models::TagValue::I64(u64_to_i64_sat(t.id)),
            });
            out.push(models::Tag {
                key: String::from_str("thread.name"),
                value: models::TagValue::String(t.name),
            });
            proof {
                reveal_strlit("thread.id");
                reveal_strlit("thread.name");
                assert(out.deep_view() =~~= base + thread_tags(th));
            }
        }
        None => {
            proof {
                assert(out.deep_view() =~~= base + thread_tags(th));
            }
        }
    }
}

/// Close the scope and build the canonical span the transport ships: the
/// busy and idle timings become `busy_ns`/`idle_ns` tags, the location
/// `code.*` tags, the thread `thread.*` tags, then the recorded fields; the
/// parent reference leads, follow links trail in order; the process carries
/// the `service.version` tag.
#[verifier::rlimit(100)]
pub fn build_span(
    builder: SpanBuilder,
    timings: Timings,
    end_nanos: i128,
    service: String,
    version: String,
) -> (r: Result<models::Span, ConvertError>)
    requires
        builder.trace_id.wf(),
        builder.span_id.wf(),
    ensures
        match r {
            Ok(sp) => {
                &&& sp.wf()
                &&& sp@.trace_id == builder.trace_id.spec_get()
                &&& sp@.span_id == builder.span_id.spec_get()
                &&& sp@.operation_name == builder.name@
                &&& sp@.flags == 1u32
                &&& sp@.start == builder.start_nanos as int
                &&& sp@.duration == end_nanos - builder.start_nanos
                &&& sp@.references == (match builder.parent {
                    Some(p) => seq![p@],
                    None => Seq::<models::RefV>::empty(),
                }) + builder.follows.deep_view()
                &&& sp@.tags == timing_tags(timings.busy, timings.idle) + location_tags(
                    builder.location,
                ) + thread_tags(builder.thread) + builder.tags.deep_view()
                &&& sp@.logs == builder.logs.deep_view()
                &&& sp@.process.service == service@
                &&& sp@.process.tags == version_tags(version@)
            }
            Err(_) => builder.name@.len() == 0 || service@.len() == 0 || !(TS_MIN_NANOS
                <= builder.start_nanos <= TS_MAX_NANOS) || !(crate::otlp::DUR_MIN <= end_nanos
                - builder.start_nanos <= crate::otlp::DUR_MAX) || (exists|i: int| 0 <= i
                < builder.logs@.len() && !(#[trigger] builder.logs@[i]).wf()) || (exists|i: int| 0
                <= i < builder.follows@.len() && !(#[trigger] builder.follows@[i]).wf()) || (
            builder.parent matches Some(p) && !p.wf()),
        },
{
    if builder.name.as_str().is_empty() {
        return Err(ConvertError::EmptyOperation);
    }
    if service.as_str().is_empty() {
        return Err(ConvertError::EmptyService);
    }
    if !(TS_MIN_NANOS <= builder.start_nanos && builder.start_nanos <= TS_MAX_NANOS) {
        return Err(ConvertError::BadTimestamp);
    }
    let dur = match end_nanos.checked_sub(builder.start_nanos) {
        Some(d) => d,
        None => {
            return Err(ConvertError::BadTimestamp);
        }
    };
    if !(crate::otlp::DUR_MIN <= dur && dur <= crate::otlp::DUR_MAX) {
        return Err(ConvertError::BadTimestamp);
    }
    let ghost parent_refs: Seq<models::RefV> = match builder.parent {
        Some(p) => seq![p@],
        None => Seq::empty(),
    };
    let mut references: Vec<models::Reference> = Vec::new();
    match &builder.parent {
        Some(p) => {
            if !(p.trace_id.get() != 0 && p.span_id.get() != 0) {
                return Err(ConvertError::BadTimestamp);
            }
            references.push(models::Reference {
                ty: p.ty,
                trace_id: p.trace_id,
                span_id: p.span_id,
            });
        }
        None => {}
    }
    proof {
        assert(references.deep_view() =~= parent_refs);
    }
    let mut fr = builder.follows;
    let nf = fr.len();
    let mut k: usize = 0;
    while fr.len() > 0
        invariant
            k + fr@.len() <= nf,
            k + fr@.len() == builder.follows@.len(),
            fr@ =~= builder.follows@.subrange(k as int, builder.follows@.len() as int),
            parent_refs == (match builder.parent {
                Some(p) => seq![p@],
                None => Seq::<models::RefV>::empty(),
            }),
            references.deep_view() =~= parent_refs + builder.follows.deep_view().subrange(
                0,
                k as int,
            ),
            forall|q: int| 0 <= q < references@.len() ==> (#[trigger] references@[q]).wf(),
        decreases fr@.len(),
    {
        let ghost pre = fr@;
        let f = fr.remove(0);
        proof {
            assert(f == builder.follows@[k as int]);
            assert(fr@ =~= pre.drop_first());
            assert(fr@ =~= builder.follows@.subrange(k + 1, builder.follows@.len() as int));
            assert(builder.follows.deep_view()[k as int] == builder.follows@[k as int]@);
        }
        if !(f.trace_id.get() != 0 && f.span_id.get() != 0) {
            proof {
                assert(!builder.follows@[k as int].wf());
            }
            return Err(ConvertError::BadTimestamp);
        }
        let ghost prevdv = references.deep_view();
        let ghost oldv = references@;
        references.push(f);
        proof {
            assert(references@ =~= oldv.push(f));
            assert forall|q: int| 0 <= q < references.deep_view().len() implies (
            #[trigger] references.deep_view()[q]) == prevdv.push(f@)[q] by {
                assert(references.deep_view()[q] == references@[q]@);
                if q < prevdv.len() {
                    assert(references@[q] == oldv[q]);
                    assert(prevdv[q] == oldv[q]@);
                } else {
                    assert(references@[q] == f);
                }
            }
            assert(references.deep_view() =~= prevdv.push(f@));
            assert(references.deep_view() =~= parent_refs + builder.follows.deep_view().subrange(
                0,
                k as int + 1,
            ));
        }
        k = k + 1;
    }
    proof {
        assert(builder.follows.deep_view().subrange(0, builder.follows@.len() as int)
            =~= builder.follows.deep_view());
    }
    let mut tags: Vec<models::Tag> = Vec::new();
    tags.push(models::Tag {
        key: String::from_str("busy_ns"),
        value: models::TagValue::I64(u64_to_i64_sat(timings.busy)),
    });
    tags.push(models::Tag {
        key: String::from_str("idle_ns"),
        value: models::TagValue::I64(u64_to_i64_sat(timings.idle)),
    });
    proof {
        reveal_strlit("busy_ns");
        reveal_strlit("idle_ns");
        assert(tags.deep_view() =~~= timing_tags(timings.busy, timings.idle));
    }
    push_location_tags(&mut tags, builder.location);
    push_thread_tags(&mut tags, builder.thread);
    let mut user_tags = builder.tags;
    let ghost user_view = user_tags.deep_view();
    tags.append(&mut user_tags);
    proof {
        assert(tags.deep_view() =~~= timing_tags(timings.busy, timings.idle) + location_tags(
            builder.location,
        ) + thread_tags(builder.thread) + user_view);
    }
    let mut logs = builder.logs;
    let mut i: usize = 0;
    while i < logs.len()
        invariant
            i <= logs@.len(),
            logs@ == builder.logs@,
            forall|q: int| 0 <= q < i ==> (#[trigger] logs@[q]).wf(),
        decreases logs@.len() - i,
    {
        if !(TS_MIN_NANOS <= logs[i].timestamp.nanos && logs[i].timestamp.nanos <= TS_MAX_NANOS) {
            proof {
                assert(!builder.logs@[i as int].wf());
            }
            return Err(ConvertError::BadTimestamp);
        }
        i = i + 1;
    }
    let mut proc_tags: Vec<models::Tag> = Vec::new();
    proc_tags.push(models::Tag {
        key: String::from_str("service.version"),
        value: models::TagValue::String(version),
    });
    proof {
        reveal_strlit("service.version");
    }
    let sp = models::Span {
        trace_id: builder.trace_id,
        span_id: builder.span_id,
        operation_name: builder.name,
        flags: 1,
        references,
        start: models::Timestamp { nanos: builder.start_nanos },
        duration: models::SignedDuration { nanos: dur },
        tags,
        logs,
        process: models::Process { service, tags: proc_tags },
    };
    proof {
        assert forall|q: int| 0 <= q < sp.references.deep_view().len() implies (
        #[trigger] sp.references.deep_view()[q]).wf() by {
            assert(sp.references.deep_view()[q] == sp.references@[q]@);
        }
        assert(sp@.process.tags =~~= version_tags(version@));
        assert(sp.trace_id.spec_get() != 0 && sp.span_id.spec_get() != 0);
    }
    Ok(sp)
}

/// A nanosecond counter as a signed value, saturated at the signed maximum./// A nanosecond counter as a signed value, saturated at the signed maximum.
fn u64_to_i64_sat(v: u64) -> (r: i64)
    ensures
        r as int == i64_sat(v),
{
    if v > 0x7fffffffffffffffu64 {
        i64::MAX
    } else {
        v as i64
    }
}

/// The states of the transport connection actor.
#[derive(Clone, Copy, Debug, PartialEq, Eq, Structural)]
pub enum ConnState {
    /// No usable connection; the next send reconnects first.
    Disconnected,
    /// A connection is believed healthy.
    Connected,
    /// A shutdown is draining outstanding sends.
    Draining,
    /// The actor is finished; terminal.
    Closed,
}

/// What the actor is asked to do.
#[derive(Clone, Copy, Debug, PartialEq, Eq, Structural)]
pub enum ActorEvent {
    /// A span is ready to send.
    SendRequested,
    /// The send on the open stream finished.
    SendSucceeded,
    /// The send failed: the connection is unusable.
    SendFailed,
    /// A reconnect attempt finished.
    ConnectSucceeded,
    /// A reconnect attempt failed.
    ConnectFailed,
    /// A shutdown was requested.
    ShutdownRequested,
    /// All outstanding work finished, or the drain timed out.
    DrainFinished,
}

/// What the unverified runner must do next.
#[derive(Clone, Copy, Debug, PartialEq, Eq, Structural)]
pub enum ActorAction {
    /// Nothing.
    Idle,
    /// Open a connection, then report the outcome.
    Connect,
    /// Open a fresh unidirectional stream, write the serialized compressed
    /// span, finish the stream, then report the outcome.
    SendOverStream,
    /// Wait for outstanding sends up to the shutdown's bound, then report.
    Drain,
    /// Close the connection and wait for the endpoint to go idle.
    CloseConnection,
}

/// The connection actor's transition function: a send reconnects first when
/// disconnected; a failed send disconnects; a shutdown drains from any live
/// state and then closes, terminally.
pub fn handle_message(state: ConnState, event: ActorEvent) -> (r: (ConnState, ActorAction))
    ensures
        state == ConnState::Closed ==> r.0 == ConnState::Closed && r.1 == ActorAction::Idle,
        event == ActorEvent::ShutdownRequested && state != ConnState::Closed ==> r.0
            == ConnState::Draining && r.1 == ActorAction::Drain,
        state == ConnState::Connected && event == ActorEvent::SendRequested ==> r.0
            == ConnState::Connected && r.1 == ActorAction::SendOverStream,
        state == ConnState::Disconnected && event == ActorEvent::SendRequested ==> r.0
            == ConnState::Disconnected && r.1 == ActorAction::Connect,
        state == ConnState::Disconnected && event == ActorEvent::ConnectSucceeded ==> r.0
            == ConnState::Connected && r.1 == ActorAction::SendOverStream,
        event == ActorEvent::SendFailed && state != ConnState::Closed && state
            != ConnState::Draining ==> r.0 == ConnState::Disconnected && r.1 == ActorAction::Idle,
        state == ConnState::Draining && event == ActorEvent::DrainFinished ==> r.0
            == ConnState::Closed && r.1 == ActorAction::CloseConnection,
{
    match state {
        ConnState::Closed => (ConnState::Closed, ActorAction::Idle),
        ConnState::Draining => match event {
            ActorEvent::DrainFinished => (ConnState::Closed, ActorAction::CloseConnection),
            ActorEvent::ShutdownRequested => (ConnState::Draining, ActorAction::Drain),
            _ => (ConnState::Draining, ActorAction::Idle),
        },
        ConnState::Connected => match event {
            ActorEvent::SendRequested => (ConnState::Connected, ActorAction::SendOverStream),
            ActorEvent::SendSucceeded => (ConnState::Connected, ActorAction::Idle),
            ActorEvent::SendFailed => (ConnState::Disconnected, ActorAction::Idle),
            ActorEvent::ConnectSucceeded => (ConnState::Connected, ActorAction::Idle),
            ActorEvent::ConnectFailed => (ConnState::Disconnected, ActorAction::Idle),
            ActorEvent::ShutdownRequested => (ConnState::Draining, ActorAction::Drain),
            ActorEvent::DrainFinished => (ConnState::Connected, ActorAction::Idle),
        },
        ConnState::Disconnected => match event {
            ActorEvent::SendRequested => (ConnState::Disconnected, ActorAction::Connect),
            ActorEvent::SendSucceeded => (ConnState::Disconnected, ActorAction::Idle),
            ActorEvent::SendFailed => (ConnState::Disconnected, ActorAction::Idle),
            ActorEvent::ConnectSucceeded => (ConnState::Connected, ActorAction::SendOverStream),
            ActorEvent::ConnectFailed => (ConnState::Disconnected, ActorAction::Idle),
            ActorEvent::ShutdownRequested => (ConnState::Draining, ActorAction::Drain),
            ActorEvent::DrainFinished => (ConnState::Disconnected, ActorAction::Idle),
        },
    }
}

/// Why a layer could not be built.
#[derive(Clone, Copy, Debug, PartialEq, Eq, Structural)]
pub enum BuildLayerError {
    /// The server certificate must be specified.
    MissingCertificate,
}

/// Settings of a layer under construction.
#[derive(Debug, PartialEq)]
pub struct Builder {
    pub cert: Option<String>,
    pub server_name: Option<String>,
    pub resource_name: Option<String>,
    pub resource_version: Option<String>,
}

impl Builder {
    /// An empty builder.
    pub fn new() -> (r: Builder)
        ensures
            r.cert is None && r.server_name is None && r.resource_name is None
                && r.resource_version is None,
    {
        Builder { cert: None, server_name: None, resource_name: None, resource_version: None }
    }

    /// Set the server certificate to trust.
    pub fn with_server_cert(self, cert: String) -> (r: Builder)
        ensures
            r.cert matches Some(c) && c == cert,
            r.server_name == self.server_name,
            r.resource_name == self.resource_name,
            r.resource_version == self.resource_version,
    {
        Builder { cert: Some(cert), ..self }
    }

    /// Set the server name to connect under.
    pub fn with_server_name(self, name: String) -> (r: Builder)
        ensures
            r.server_name matches Some(c) && c == name,
            r.cert == self.cert,
    {
        Builder { server_name: Some(name), ..self }
    }

    /// Set the traced application's name and version.
    pub fn with_resource(self, name: String, version: String) -> (r: Builder)
        ensures
            r.resource_name matches Some(c) && c == name,
            r.resource_version matches Some(v) && v == version,
            r.cert == self.cert,
    {
        Builder { resource_name: Some(name), resource_version: Some(version), ..self }
    }

    /// Check the settings: building without a certificate fails.
    pub fn build(self) -> (r: Result<Builder, BuildLayerError>)
        ensures
            match r {
                Ok(b) => self.cert is Some && b == self,
                Err(_) => self.cert is None,
            },
    {
        if self.cert.is_some() {
            Ok(self)
        } else {
            Err(BuildLayerError::MissingCertificate)
        }
    }
}

} // verus!
