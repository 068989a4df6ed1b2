//! The canonical span model every wire format converts into.
//!
//! A span belongs to one trace, carries a non-empty operation name, wall
//! clock start and signed duration at nanosecond resolution, ordered tags and
//! logs, and the process that produced it. Identifiers are never zero; float
//! tag values are carried as their raw IEEE-754 bit pattern, since the
//! library itself never does float arithmetic.

use vstd::prelude::*;

verus! {

use crate::ids::SpanId;
use crate::ids::TraceId;

/// Earliest representable instant, in nanoseconds since the unix epoch
/// (midnight of year -9999).
pub const TS_MIN_NANOS: i128 = -377705116800000000000;

/// Latest representable instant, in nanoseconds since the unix epoch
/// (the last nanosecond of year 9999).
pub const TS_MAX_NANOS: i128 = 253402300799999999999;

/// Most negative representable signed duration, in nanoseconds: the most
/// negative whole count of microseconds a 64-bit signed integer holds, with
/// the sub-microsecond remainder.
pub const DUR_MIN_NANOS: i128 = -9223372036854775808999;

/// Most positive representable signed duration, in nanoseconds.
pub const DUR_MAX_NANOS: i128 = 9223372036854775807999;

/// Signed division truncating toward zero, as the wire and storage
/// conversions use it (`b` positive).
pub open spec fn div_trunc(a: int, b: int) -> int {
    if a >= 0 {
        a / b
    } else {
        -((-a) / b)
    }
}

/// A wall-clock instant with nanosecond resolution (UTC).
#[derive(Clone, Copy, Debug, PartialEq, Eq, Structural)]
pub struct Timestamp {
    pub nanos: i128,
}

impl Timestamp {
    /// An instant is well-formed when it lies in the representable range.
    pub open spec fn wf(self) -> bool {
        TS_MIN_NANOS <= self.nanos <= TS_MAX_NANOS
    }

    /// Wrap a nanosecond count, rejecting instants outside the range.
    pub fn from_unix_nanos(nanos: i128) -> (r: Option<Timestamp>)
        ensures
            match r {
                Some(t) => t.nanos == nanos && t.wf(),
                None => !(TS_MIN_NANOS <= nanos <= TS_MAX_NANOS),
            },
    {
        if TS_MIN_NANOS <= nanos && nanos <= TS_MAX_NANOS {
            Some(Timestamp { nanos })
        } else {
            None
        }
    }

    /// Nanoseconds since the unix epoch.
    pub fn unix_nanos(&self) -> (r: i128)
        ensures
            r == self.nanos,
    {
        self.nanos
    }

    /// Microseconds since the unix epoch, truncated toward zero: the
    /// precision of the storage boundary.
    pub fn unix_micros(&self) -> (r: i64)
        requires
            self.wf(),
        ensures
            r as int == div_trunc(self.nanos as int, 1000),
    {
        div_i128_1000(self.nanos)
    }
}

/// A signed span of time with nanosecond resolution.
#[derive(Clone, Copy, Debug, PartialEq, Eq, Structural)]
pub struct SignedDuration {
    pub nanos: i128,
}

impl SignedDuration {
    /// A duration is well-formed when it lies in the representable range.
    pub open spec fn wf(self) -> bool {
        DUR_MIN_NANOS <= self.nanos <= DUR_MAX_NANOS
    }

    /// The zero duration.
    pub fn zero() -> (r: SignedDuration)
        ensures
            r.nanos == 0,
            r.wf(),
    {
        SignedDuration { nanos: 0 }
    }

    /// Wrap a nanosecond count, rejecting durations outside the range.
    pub fn from_nanos(nanos: i128) -> (r: Option<SignedDuration>)
        ensures
            match r {
                Some(d) => d.nanos == nanos && d.wf(),
                None => !(DUR_MIN_NANOS <= nanos <= DUR_MAX_NANOS),
            },
    {
        if DUR_MIN_NANOS <= nanos && nanos <= DUR_MAX_NANOS {
            Some(SignedDuration { nanos })
        } else {
            None
        }
    }

    /// The length in nanoseconds.
    pub fn whole_nanoseconds(&self) -> (r: i128)
        ensures
            r == self.nanos,
    {
        self.nanos
    }

    /// The length in whole microseconds, truncated toward zero.
    pub fn whole_microseconds(&self) -> (r: i64)
        requires
            self.wf(),
        ensures
            r as int == div_trunc(self.nanos as int, 1000),
    {
        div_i128_1000(self.nanos)
    }
}

/// Truncating division of an in-range nanosecond count by 1000.
fn div_i128_1000(nanos: i128) -> (r: i64)
    requires
        DUR_MIN_NANOS <= nanos <= DUR_MAX_NANOS,
    ensures
        r as int == div_trunc(nanos as int, 1000),
{
    if nanos >= 0 {
        let q = (nanos as u128) / 1000;
        proof {
            vstd::arithmetic::div_mod::lemma_div_is_ordered(
                nanos as int, DUR_MAX_NANOS as int, 1000);
            vstd::arithmetic::div_mod::lemma_fundamental_div_mod_converse(
                DUR_MAX_NANOS as int, 1000, 9223372036854775807, 999);
        }
        q as i64
    } else {
        let m = (-nanos) as u128;
        let q = m / 1000;
        proof {
            vstd::arithmetic::div_mod::lemma_div_is_ordered(
                m as int, -(DUR_MIN_NANOS as int), 1000);
            vstd::arithmetic::div_mod::lemma_fundamental_div_mod_converse(
                -(DUR_MIN_NANOS as int), 1000, 9223372036854775808, 999);
        }
        if q == 0x8000000000000000 {
            i64::MIN
        } else {
            -(q as i64)
        }
    }
}

/// How one span relates to another.
#[derive(Clone, Copy, Debug, PartialEq, Eq, Structural)]
pub enum RefType {
    /// The referenced span caused and awaits this one.
    ChildOf,
    /// The referenced span caused this one but does not await it.
    FollowsFrom,
}

/// A typed edge from one span to another, by identifier.
#[derive(Clone, Copy, Debug, PartialEq, Eq, Structural)]
pub struct Reference {
    pub ty: RefType,
    pub trace_id: TraceId,
    pub span_id: SpanId,
}

/// The mathematical value of a reference: raw identifier values.
#[verifier::ext_equal]
pub struct RefV {
    pub ty: RefType,
    pub trace_id: u128,
    pub span_id: u64,
}

impl RefV {
    /// Both identifiers must be non-zero.
    pub open spec fn wf(self) -> bool {
        self.trace_id != 0 && self.span_id != 0
    }
}

impl View for Reference {
    type V = RefV;

    open spec fn view(&self) -> RefV {
        RefV {
            ty: self.ty,
            trace_id: self.trace_id.spec_get(),
            span_id: self.span_id.spec_get(),
        }
    }
}

impl DeepView for Reference {
    type V = RefV;

    open spec fn deep_view(&self) -> RefV {
        self.view()
    }
}

impl Reference {
    /// Both identifiers must be well-formed.
    pub open spec fn wf(self) -> bool {
        self@.wf()
    }
}

/// The value of one tag: the canonical closed set of variants.
#[derive(Clone, Debug, PartialEq)]
pub enum TagValue {
    String(String),
    Bool(bool),
    I64(i64),
    /// A 64-bit float, carried as its raw IEEE-754 bit pattern.
    F64(u64),
    Binary(Vec<u8>),
}

/// The mathematical value of a tag value.
#[verifier::ext_equal]
pub enum TagValueV {
    String(Seq<char>),
    Bool(bool),
    I64(i64),
    F64(u64),
    Binary(Seq<u8>),
}

impl View for TagValue {
    type V = TagValueV;

    open spec fn view(&self) -> TagValueV {
        match self {
            TagValue::String(s) => TagValueV::String(s@),
            TagValue::Bool(b) => TagValueV::Bool(*b),
            TagValue::I64(v) => TagValueV::I64(*v),
            TagValue::F64(bits) => TagValueV::F64(*bits),
            TagValue::Binary(b) => TagValueV::Binary(b@),
        }
    }
}

/// A typed key-value pair on a span, a process, or a log event.
#[derive(Clone, Debug, PartialEq)]
pub struct Tag {
    pub key: String,
    pub value: TagValue,
}

/// The mathematical value of a tag.
#[verifier::ext_equal]
pub struct TagV {
    pub key: Seq<char>,
    pub value: TagValueV,
}

impl View for Tag {
    type V = TagV;

    open spec fn view(&self) -> TagV {
        TagV { key: self.key@, value: self.value@ }
    }
}

impl DeepView for Tag {
    type V = TagV;

    open spec fn deep_view(&self) -> TagV {
        self.view()
    }
}

impl TagV {
    /// Sequence lengths small enough for 64-bit length prefixes.
    pub open spec fn len_bounded(self) -> bool {
        self.key.len() < 0x10000000000000000 && match self.value {
            TagValueV::String(s) => s.len() < 0x10000000000000000,
            TagValueV::Binary(b) => b.len() < 0x10000000000000000,
            _ => true,
        }
    }
}

impl Tag {
    /// A structural copy whose view is the same.
    pub fn duplicate(&self) -> (r: Tag)
        ensures
            r@ == self@,
    {
        Tag { key: self.key.clone(), value: duplicate_tag_value(&self.value) }
    }
}

fn duplicate_tag_value(v: &TagValue) -> (r: TagValue)
    ensures
        r@ == v@,
{
    match v {
        TagValue::String(s) => TagValue::String(s.clone()),
        TagValue::Bool(b) => TagValue::Bool(*b),
        TagValue::I64(i) => TagValue::I64(*i),
        TagValue::F64(bits) => TagValue::F64(*bits),
        TagValue::Binary(b) => {
            let mut out: Vec<u8> = Vec::new();
            let mut i: usize = 0;
            while i < b.len()
                invariant
                    i <= b@.len(),
                    out@ =~= b@.subrange(0, i as int),
                decreases b@.len() - i,
            {
                out.push(b[i]);
                proof {
                    assert(out@ =~= b@.subrange(0, i + 1));
                }
                i = i + 1;
            }
            proof {
                assert(out@ =~= b@);
            }
            TagValue::Binary(out)
        }
    }
}

/// Duplicate a whole tag list, preserving the view.
pub fn duplicate_tags(tags: &Vec<Tag>) -> (r: Vec<Tag>)
    ensures
        r.deep_view() == tags.deep_view(),
{
    let mut out: Vec<Tag> = Vec::new();
    let mut i: usize = 0;
    while i < tags.len()
        invariant
            i <= tags@.len(),
            out.deep_view() =~= tags.deep_view().subrange(0, i as int),
        decreases tags@.len() - i,
    {
        let ghost prev = out.deep_view();
        let ghost oldv = out@;
        let dup = tags[i].duplicate();
        out.push(dup);
        proof {
            assert(out@ == oldv.push(dup));
            assert(prev =~= tags.deep_view().subrange(0, i as int));
            assert(prev.len() == i);
            assert(oldv.len() == i);
            assert(out@.len() == i + 1);
            assert forall|j: int| 0 <= j <= i implies out.deep_view()[j]
                == tags.deep_view()[j] by {
                assert(out.deep_view()[j] == out@[j].deep_view());
                assert(tags.deep_view()[j] == tags@[j].deep_view());
                if j < i {
                    assert(out@[j] == oldv[j]);
                    assert(prev[j] == oldv[j].deep_view());
                    assert(prev[j] == tags.deep_view().subrange(0, i as int)[j]);
                } else {
                    assert(out@[j] == dup);
                    assert(dup@ == tags@[i as int]@);
                }
            }
            assert(out.deep_view() =~= tags.deep_view().subrange(0, i + 1));
        }
        i = i + 1;
    }
    proof {
        assert(out.deep_view() =~= tags.deep_view());
    }
    out
}

/// A timestamped set of tag fields emitted during a span's lifetime.
#[derive(Clone, Debug, PartialEq)]
pub struct Log {
    pub timestamp: Timestamp,
    pub fields: Vec<Tag>,
}

/// The mathematical value of a log entry.
#[verifier::ext_equal]
pub struct LogV {
    pub timestamp: int,
    pub fields: Seq<TagV>,
}

impl View for Log {
    type V = LogV;

    open spec fn view(&self) -> LogV {
        LogV { timestamp: self.timestamp.nanos as int, fields: self.fields.deep_view() }
    }
}

impl DeepView for Log {
    type V = LogV;

    open spec fn deep_view(&self) -> LogV {
        self.view()
    }
}

impl LogV {
    /// The timestamp must lie in the representable range.
    pub open spec fn wf(self) -> bool {
        TS_MIN_NANOS <= self.timestamp <= TS_MAX_NANOS
    }

    /// Sequence lengths small enough for 64-bit length prefixes.
    pub open spec fn len_bounded(self) -> bool {
        self.fields.len() < 0x10000000000000000
            && forall|i: int| 0 <= i < self.fields.len()
                ==> (#[trigger] self.fields[i]).len_bounded()
    }
}

impl Log {
    /// The timestamp must lie in the representable range.
    pub open spec fn wf(self) -> bool {
        self@.wf()
    }
}

/// The origin of a span: a service name and descriptive tags.
#[derive(Clone, Debug, PartialEq)]
pub struct Process {
    pub service: String,
    pub tags: Vec<Tag>,
}

/// The mathematical value of a process.
#[verifier::ext_equal]
pub struct ProcessV {
    pub service: Seq<char>,
    pub tags: Seq<TagV>,
}

impl View for Process {
    type V = ProcessV;

    open spec fn view(&self) -> ProcessV {
        ProcessV { service: self.service@, tags: self.tags.deep_view() }
    }
}

impl ProcessV {
    /// The service name must not be empty.
    pub open spec fn wf(self) -> bool {
        self.service.len() > 0
    }

    /// Sequence lengths small enough for 64-bit length prefixes.
    pub open spec fn len_bounded(self) -> bool {
        self.service.len() < 0x10000000000000000
            && self.tags.len() < 0x10000000000000000
            && forall|i: int| 0 <= i < self.tags.len()
                ==> (#[trigger] self.tags[i]).len_bounded()
    }
}

impl Process {
    /// The service name must not be empty.
    pub open spec fn wf(self) -> bool {
        self@.wf()
    }

    /// A structural copy whose view is the same.
    pub fn duplicate(&self) -> (r: Process)
        ensures
            r@ == self@,
    {
        let r = Process { service: self.service.clone(), tags: duplicate_tags(&self.tags) };
        proof {
            assert(r@.tags =~= self@.tags);
        }
        r
    }
}

/// One timed operation: the unit every wire format converts into and the
/// storage engine persists.
#[derive(Clone, Debug, PartialEq)]
pub struct Span {
    pub trace_id: TraceId,
    pub span_id: SpanId,
    pub operation_name: String,
    pub flags: u32,
    pub references: Vec<Reference>,
    pub start: Timestamp,
    pub duration: SignedDuration,
    pub tags: Vec<Tag>,
    pub logs: Vec<Log>,
    pub process: Process,
}

/// The mathematical value of a span.
#[verifier::ext_equal]
pub struct SpanV {
    pub trace_id: u128,
    pub span_id: u64,
    pub operation_name: Seq<char>,
    pub flags: u32,
    pub references: Seq<RefV>,
    pub start: int,
    pub duration: int,
    pub tags: Seq<TagV>,
    pub logs: Seq<LogV>,
    pub process: ProcessV,
}

impl View for Span {
    type V = SpanV;

    open spec fn view(&self) -> SpanV {
        SpanV {
            trace_id: self.trace_id.spec_get(),
            span_id: self.span_id.spec_get(),
            operation_name: self.operation_name@,
            flags: self.flags,
            references: self.references.deep_view(),
            start: self.start.nanos as int,
            duration: self.duration.nanos as int,
            tags: self.tags.deep_view(),
            logs: self.logs.deep_view(),
            process: self.process@,
        }
    }
}

impl SpanV {
    /// The invariants every persisted span satisfies: non-zero identifiers,
    /// a non-empty operation name and service, references with non-zero
    /// identifiers, and timestamps in the representable range.
    pub open spec fn wf(self) -> bool {
        &&& self.trace_id != 0
        &&& self.span_id != 0
        &&& self.operation_name.len() > 0
        &&& forall|i: int| 0 <= i < self.references.len() ==> (#[trigger] self.references[i]).wf()
        &&& TS_MIN_NANOS <= self.start <= TS_MAX_NANOS
        &&& DUR_MIN_NANOS <= self.duration <= DUR_MAX_NANOS
        &&& forall|i: int| 0 <= i < self.logs.len() ==> (#[trigger] self.logs[i]).wf()
        &&& self.process.wf()
    }

    /// Sequence lengths small enough for 64-bit length prefixes: every value
    /// held in real memory satisfies this.
    pub open spec fn len_bounded(self) -> bool {
        &&& self.operation_name.len() < 0x10000000000000000
        &&& self.references.len() < 0x10000000000000000
        &&& self.tags.len() < 0x10000000000000000
        &&& forall|i: int| 0 <= i < self.tags.len() ==> (#[trigger] self.tags[i]).len_bounded()
        &&& self.logs.len() < 0x10000000000000000
        &&& forall|i: int| 0 <= i < self.logs.len() ==> (#[trigger] self.logs[i]).len_bounded()
        &&& self.process.len_bounded()
    }
}

impl DeepView for Span {
    type V = SpanV;

    open spec fn deep_view(&self) -> SpanV {
        self.view()
    }
}

impl Span {
    /// The invariants every persisted span satisfies: non-zero identifiers,
    /// a non-empty operation name and service, references with non-zero
    /// identifiers, and timestamps in the representable range.
    pub open spec fn wf(self) -> bool {
        self@.wf()
    }
}

} // verus!
