//! The query API's answer shapes: the Jaeger-style UI JSON model and the
//! response envelope.
//!
//! A trace groups its spans and coalesces duplicate processes into one entry
//! per trace, labelled `p1`, `p2`, ... in first-seen order; each span points
//! at its process by that label. The envelope carries the data list, its
//! total, and at most one error. Rendering these shapes as JSON text happens
//! at the unverified serialization edge.

use vstd::prelude::*;

verus! {

use crate::fmt::dec_of_nat;
use crate::ids::SpanId;
use crate::ids::TraceId;
use crate::models;
use crate::models::div_trunc;

/// One process entry of a trace, labelled by its `p<n>` key.
#[derive(Debug, PartialEq)]
pub struct Process {
    pub service_name: String,
    pub tags: Vec<models::Tag>,
}

/// The label of a coalesced process within one trace.
#[derive(Debug, PartialEq)]
pub struct ProcessId {
    pub id: String,
}

/// The kind of a span reference, in the UI's vocabulary.
#[derive(Clone, Copy, Debug, PartialEq, Eq, Structural)]
pub enum ReferenceType {
    ChildOf,
    FollowsFrom,
}

/// A span reference in the UI shape.
#[derive(Clone, Copy, Debug, PartialEq, Eq, Structural)]
pub struct Reference {
    pub ref_type: ReferenceType,
    pub trace_id: TraceId,
    pub span_id: SpanId,
}

/// A log entry in the UI shape: microseconds and fields.
#[derive(Debug, PartialEq)]
pub struct Log {
    pub timestamp: i64,
    pub fields: Vec<models::Tag>,
}

/// A span in the UI shape: instants and durations in whole microseconds,
/// the process behind a per-trace label.
#[derive(Debug, PartialEq)]
pub struct Span {
    pub trace_id: TraceId,
    pub span_id: SpanId,
    pub parent_span_id: Option<SpanId>,
    pub flags: u32,
    pub operation_name: String,
    pub references: Vec<Reference>,
    pub start_time: i64,
    pub duration: i64,
    pub tags: Vec<models::Tag>,
    pub logs: Vec<Log>,
    pub process_id: ProcessId,
}

/// A whole trace in the UI shape.
#[derive(Debug, PartialEq)]
pub struct Trace {
    pub trace_id: TraceId,
    pub spans: Vec<Span>,
    pub processes: Vec<(String, Process)>,
    pub warnings: Vec<String>,
}

/// A named operation of a service.
#[derive(Debug, PartialEq)]
pub struct Operation {
    pub name: String,
    pub span_kind: String,
}

/// One service-to-service edge; the dependency endpoint always answers with
/// none of them.
#[derive(Debug, PartialEq)]
pub struct DependencyLink {
    pub parent: String,
    pub child: String,
    pub call_count: u64,
}

/// The `p<n>` label of the process at one-based position `n`.
pub open spec fn process_label(n: int) -> Seq<char> {
    seq!['p'] + dec_of_nat(n)
}

/// Structural equality of two tag values.
fn tag_value_eq(a: &models::TagValue, b: &models::TagValue) -> (r: bool)
    ensures
        r == (a@ == b@),
{
    match (a, b) {
        (models::TagValue::String(x), models::TagValue::String(y)) => x.eq(y),
        (models::TagValue::Bool(x), models::TagValue::Bool(y)) => x == y,
        (models::TagValue::I64(x), models::TagValue::I64(y)) => x == y,
        (models::TagValue::F64(x), models::TagValue::F64(y)) => x == y,
        (models::TagValue::Binary(x), models::TagValue::Binary(y)) => {
            let same = bytes_eq(x, y);
            proof {
                if same {
                    assert(a@ == b@);
                } else if a@ == b@ {
                    assert(x@ == y@);
                }
            }
            same
        }
        _ => false,
    }
}

/// Structural equality of two byte strings.
fn bytes_eq(x: &Vec<u8>, y: &Vec<u8>) -> (r: bool)
    ensures
        r == (x@ == y@),
{
    let n = x.len();
    if n != y.len() {
        return false;
    }
    let mut i: usize = 0;
    let mut all = true;
    while i < n
        invariant
            i <= n == x@.len(),
            n == y@.len(),
            all ==> forall|j: int| 0 <= j < i ==> x@[j] == y@[j],
            !all ==> x@ != y@,
        decreases n - i,
    {
        if x[i] != y[i] {
            proof {
                if x@ == y@ {
                    assert(x@[i as int] == y@[i as int]);
                }
            }
            all = false;
        }
        i = i + 1;
    }
    proof {
        if all {
            assert(x@ =~= y@);
        }
    }
    all
}

/// Structural equality of two tag lists.
fn tags_eq(a: &Vec<models::Tag>, b: &Vec<models::Tag>) -> (r: bool)
    ensures
        r == (a.deep_view() == b.deep_view()),
{
    let n = a.len();
    if n != b.len() {
        proof {
            assert(a.deep_view().len() != b.deep_view().len());
        }
        return false;
    }
    let mut i: usize = 0;
    while i < n
        invariant
            i <= n == a@.len(),
            n == b@.len(),
            forall|j: int| 0 <= j < i ==> a.deep_view()[j] == b.deep_view()[j],
        decreases n - i,
    {
        proof {
            assert(a.deep_view()[i as int] == a@[i as int]@);
            assert(b.deep_view()[i as int] == b@[i as int]@);
        }
        if !a[i].key.eq(&b[i].key) {
            return false;
        }
        if !tag_value_eq(&a[i].value, &b[i].value) {
            return false;
        }
        i = i + 1;
    }
    proof {
        assert(a.deep_view() =~= b.deep_view());
    }
    true
}

/// No two registered processes are structurally equal.
pub open spec fn processes_distinct(ps: Seq<(String, Process)>) -> bool {
    forall|x: int, y: int| 0 <= x < y < ps.len() ==> (#[trigger] ps[x]).1@ != (#[trigger] ps[y]).1@
}

/// The labels run `p1`, `p2`, ... in entry order.
pub open spec fn labels_ok(ps: Seq<(String, Process)>) -> bool {
    forall|k: int| 0 <= k < ps.len() ==> (#[trigger] ps[k]).0@ == process_label(k + 1)
}

/// What a canonical process looks like as a coalesced UI entry.
pub open spec fn ui_process_of(p: models::ProcessV) -> ProcessW {
    ProcessW { service_name: p.service, tags: p.tags }
}

/// Some entry carries this label and this process.
pub open spec fn has_entry(ps: Seq<(String, Process)>, id: Seq<char>, pv: ProcessW) -> bool {
    exists|k: int| 0 <= k < ps.len() && (#[trigger] ps[k]).0@ == id && ps[k].1@ == pv
}

/// Entries only ever join the table; existing ones never change.
pub open spec fn entries_preserved(
    old_ps: Seq<(String, Process)>,
    new_ps: Seq<(String, Process)>,
) -> bool {
    old_ps.len() <= new_ps.len() && forall|q: int| 0 <= q < old_ps.len()
        ==> #[trigger] new_ps[q] == old_ps[q]
}

/// Group canonical spans into the UI trace shape: spans keep their order;
/// duplicate processes coalesce to one labelled entry per trace, labels
/// `p1`, `p2`, ... in first-seen order, and each span points at its entry.
pub fn trace(trace_id: TraceId, spans: Vec<models::Span>) -> (r: Trace)
    requires
        forall|i: int| 0 <= i < spans@.len() ==> (#[trigger] spans@[i]).wf(),
    ensures
        r.trace_id == trace_id,
        r.spans@.len() == spans@.len(),
        forall|i: int| 0 <= i < spans@.len() ==> {
            let sp = #[trigger] spans@[i];
            let ui = r.spans@[i];
            &&& ui.trace_id == sp.trace_id
            &&& ui.span_id == sp.span_id
            &&& ui.parent_span_id is None
            &&& ui.flags == sp.flags
            &&& ui.operation_name@ == sp@.operation_name
            &&& ui.start_time as int == div_trunc(sp@.start, 1000)
            &&& ui.duration as int == div_trunc(sp@.duration, 1000)
            &&& ui.tags.deep_view() == sp@.tags
            &&& ui.references@.len() == sp@.references.len()
            &&& ui.logs@.len() == sp@.logs.len()
        },
        processes_distinct(r.processes@),
        labels_ok(r.processes@),
        forall|i: int| 0 <= i < spans@.len() ==> has_entry(
            r.processes@,
            (#[trigger] r.spans@[i]).process_id.id@,
            ui_process_of(spans@[i]@.process),
        ),
        r.warnings@.len() == 0,
{
    let ghost total = spans@.len();
    let mut processes: Vec<(String, Process)> = Vec::new();
    let mut out: Vec<Span> = Vec::new();
    let mut rest = spans;
    let n0 = rest.len();
    let mut i: usize = 0;
    proof {
        assert(rest@ =~= spans@.subrange(0, total as int));
    }
    while rest.len() > 0
        invariant
            total == spans@.len(),
            i + rest@.len() == total,
            i + rest@.len() <= n0,
            out@.len() == i,
            forall|q: int| 0 <= q < spans@.len() ==> (#[trigger] spans@[q]).wf(),
            rest@ =~= spans@.subrange(i as int, total as int),
            forall|q: int| 0 <= q < i ==> {
                let sp = #[trigger] spans@[q];
                let ui = out@[q];
                &&& ui.trace_id == sp.trace_id
                &&& ui.span_id == sp.span_id
                &&& ui.parent_span_id is None
                &&& ui.flags == sp.flags
                &&& ui.operation_name@ == sp@.operation_name
                &&& ui.start_time as int == div_trunc(sp@.start, 1000)
                &&& ui.duration as int == div_trunc(sp@.duration, 1000)
                &&& ui.tags.deep_view() == sp@.tags
                &&& ui.references@.len() == sp@.references.len()
                &&& ui.logs@.len() == sp@.logs.len()
            },
            processes_distinct(processes@),
            labels_ok(processes@),
            processes@.len() <= i,
            forall|q: int| 0 <= q < i ==> has_entry(
                processes@,
                (#[trigger] out@[q]).process_id.id@,
                ui_process_of(spans@[q]@.process),
            ),
        decreases rest@.len(),
    {
        let ghost pre = rest@;
        let sp = rest.remove(0);
        let ghost spv = sp@;
        proof {
            assert(pre =~= spans@.subrange(i as int, total as int));
            assert(sp == pre[0]);
            assert(sp == spans@[i as int]);
            assert(rest@ =~= pre.drop_first());
            assert(rest@ =~= spans@.subrange(i + 1, total as int));
        }
        let ghost oldps = processes@;
        let ui = ui_span(sp, &mut processes);
        out.push(ui);
        proof {
            assert forall|q: int| 0 <= q <= i implies has_entry(
                processes@,
                (#[trigger] out@[q]).process_id.id@,
                ui_process_of(spans@[q]@.process),
            ) by {
                if q < i {
                    let k0 = choose|k0: int| 0 <= k0 < oldps.len() && (#[trigger] oldps[k0]).0@
                        == out@[q].process_id.id@ && oldps[k0].1@ == ui_process_of(
                        spans@[q]@.process,
                    );
                    assert(processes@[k0] == oldps[k0]);
                    assert(processes@[k0].0@ == out@[q].process_id.id@);
                } else {
                    assert(out@[q] == ui);
                    assert(spans@[q]@ == spv);
                }
            }
        }
        i = i + 1;
    }
    Trace { trace_id, spans: out, processes, warnings: Vec::new() }
}

/// Convert one canonical span, registering its process.
fn ui_span(sp: models::Span, processes: &mut Vec<(String, Process)>) -> (r: Span)
    requires
        sp.wf(),
        processes_distinct(old(processes)@),
        labels_ok(old(processes)@),
        old(processes)@.len() < usize::MAX,
    ensures
        processes_distinct(final(processes)@),
        labels_ok(final(processes)@),
        entries_preserved(old(processes)@, final(processes)@),
        final(processes)@.len() <= old(processes)@.len() + 1,
        has_entry(final(processes)@, r.process_id.id@, ui_process_of(sp@.process)),
        r.trace_id == sp.trace_id,
        r.span_id == sp.span_id,
        r.parent_span_id is None,
        r.flags == sp.flags,
        r.operation_name@ == sp@.operation_name,
        r.start_time as int == div_trunc(sp@.start, 1000),
        r.duration as int == div_trunc(sp@.duration, 1000),
        r.tags.deep_view() == sp@.tags,
        r.references@.len() == sp@.references.len(),
        r.logs@.len() == sp@.logs.len(),
{
    let start_us = clamp_micros(sp.start.nanos);
    let dur_us = clamp_micros(sp.duration.nanos);
    let mut references: Vec<Reference> = Vec::new();
    let mut k: usize = 0;
    while k < sp.references.len()
        invariant
            k <= sp.references@.len(),
            references@.len() == k,
        decreases sp.references@.len() - k,
    {
        let w = &sp.references[k];
        references.push(Reference {
            ref_type: match w.ty {
                models::RefType::ChildOf => ReferenceType::ChildOf,
                models::RefType::FollowsFrom => ReferenceType::FollowsFrom,
            },
            trace_id: w.trace_id,
            span_id: w.span_id,
        });
        k = k + 1;
    }
    let mut logs: Vec<Log> = Vec::new();
    let ghost nlogs = sp.logs@.len();
    let mut lrest = sp.logs;
    let mut li: usize = 0;
    let n1 = lrest.len();
    while lrest.len() > 0
        invariant
            li + lrest@.len() == nlogs,
            li + lrest@.len() <= n1,
            logs@.len() == li,
        decreases lrest@.len(),
    {
        let l = lrest.remove(0);
        let ts = clamp_micros(l.timestamp.nanos);
        logs.push(Log { timestamp: ts, fields: l.fields });
        li = li + 1;
    }
    let pid = register_process(processes, sp.process);
    Span {
        trace_id: sp.trace_id,
        span_id: sp.span_id,
        parent_span_id: None,
        flags: sp.flags,
        operation_name: sp.operation_name,
        references,
        start_time: start_us,
        duration: dur_us,
        tags: sp.tags,
        logs,
        process_id: pid,
    }
}

/// Nanoseconds to whole microseconds, truncated toward zero, saturated at
/// the 64-bit bounds.
fn clamp_micros(nanos: i128) -> (r: i64)
    ensures
        crate::models::DUR_MIN_NANOS <= nanos <= crate::models::DUR_MAX_NANOS ==> r as int
            == div_trunc(nanos as int, 1000),
{
    if nanos > crate::models::DUR_MAX_NANOS {
        i64::MAX
    } else if nanos < crate::models::DUR_MIN_NANOS {
        i64::MIN
    } else {
        let d = crate::models::SignedDuration { nanos };
        d.whole_microseconds()
    }
}

/// The label of a process: its existing entry's when one structurally equal
/// process is registered, a fresh `p<n>` label otherwise.
fn register_process(processes: &mut Vec<(String, Process)>, p: models::Process) -> (r: ProcessId)
    requires
        processes_distinct(old(processes)@),
        labels_ok(old(processes)@),
        old(processes)@.len() < usize::MAX,
    ensures
        processes_distinct(final(processes)@),
        labels_ok(final(processes)@),
        entries_preserved(old(processes)@, final(processes)@),
        final(processes)@.len() <= old(processes)@.len() + 1,
        has_entry(final(processes)@, r.id@, ui_process_of(p@)),
{
    let candidate = Process { service_name: p.service, tags: p.tags };
    proof {
        assert(candidate@ =~~= ui_process_of(p@));
    }
    let n = processes.len();
    let mut i: usize = 0;
    while i < n
        invariant
            i <= n == processes@.len(),
            *processes == *old(processes),
            processes_distinct(processes@),
            labels_ok(processes@),
            candidate@ == ui_process_of(p@),
            forall|j: int| 0 <= j < i ==> (#[trigger] processes@[j]).1@ != candidate@,
        decreases n - i,
    {
        let entry_matches = processes[i].1.service_name.eq(&candidate.service_name) && tags_eq(
            &processes[i].1.tags,
            &candidate.tags,
        );
        if entry_matches {
            proof {
                assert(processes@[i as int].1@ =~= candidate@);
            }
            return ProcessId { id: processes[i].0.clone() };
        }
        proof {
            if processes@[i as int].1@ == candidate@ {
                assert(processes@[i as int].1@.service_name == candidate@.service_name);
                assert(processes@[i as int].1@.tags == candidate@.tags);
            }
        }
        i = i + 1;
    }
    let label = fresh_label(n);
    processes.push((label.clone(), candidate));
    proof {
        assert forall|x: int, y: int| 0 <= x < y < processes@.len() implies (
        #[trigger] processes@[x]).1@ != (#[trigger] processes@[y]).1@ by {
            if y == processes@.len() - 1 {
                assert(processes@[x].1@ != candidate@);
            }
        }
        assert(processes@[n as int].0@ == process_label(n + 1));
        assert(processes@[n as int].1@ == ui_process_of(p@));
    }
    ProcessId { id: label }
}

/// The view of a UI process: what coalescing compares.
pub struct ProcessW {
    pub service_name: Seq<char>,
    pub tags: Seq<models::TagV>,
}

impl View for Process {
    type V = ProcessW;

    open spec fn view(&self) -> ProcessW {
        ProcessW { service_name: self.service_name@, tags: self.tags.deep_view() }
    }
}

/// The label `p<n+1>` for the process at zero-based position `n`.
fn fresh_label(n: usize) -> (r: String)
    requires
        n < usize::MAX,
    ensures
        r@ == process_label(n + 1),
{
    let mut out = String::new();
    crate::fmt::push_char(&mut out, 'p');
    let digits = crate::fmt::format_u64((n + 1) as u64);
    let m = digits.unicode_len();
    let mut i: usize = 0;
    while i < m
        invariant
            i <= m == digits@.len(),
            out@ =~= seq!['p'] + digits@.subrange(0, i as int),
        decreases m - i,
    {
        let c = digits.get_char(i);
        proof {
            assert(out@.push(c) =~= seq!['p'] + digits@.subrange(0, i + 1));
        }
        crate::fmt::push_char(&mut out, c);
        i = i + 1;
    }
    proof {
        assert(digits@.subrange(0, m as int) =~= digits@);
        assert(out@ =~= process_label(n + 1));
    }
    out
}

/// An error answer of the query API: the status code, a message, and the
/// trace id the error concerns, if any.
#[derive(Debug, PartialEq)]
pub struct ApiError {
    pub code: u16,
    pub msg: String,
    pub trace_id: Option<TraceId>,
}

/// An answer of the query API: a data list, or one error.
pub enum ApiResponse<T> {
    Data(Vec<T>),
    Error(ApiError),
}

/// The envelope every endpoint answers with: the data, its total, the fixed
/// zero limit and offset, and at most one error entry.
pub struct ResponseEnvelope<T> {
    pub data: Vec<T>,
    pub total: usize,
    pub limit: usize,
    pub offset: usize,
    pub errors: Option<Vec<ApiError>>,
}

impl<T> ApiResponse<T> {
    /// The HTTP status the answer travels with.
    pub fn status_code(&self) -> (r: u16)
        ensures
            match self {
                ApiResponse::Data(_) => r == 200,
                ApiResponse::Error(e) => r == e.code,
            },
    {
        match self {
            ApiResponse::Data(_) => 200,
            ApiResponse::Error(e) => e.code,
        }
    }

    /// Build the envelope: data carries its own length as the total and no
    /// errors; an error carries an empty data list, a zero total, and one
    /// error entry.
    pub fn serialize(self) -> (r: ResponseEnvelope<T>)
        ensures
            r.limit == 0,
            r.offset == 0,
            match self {
                ApiResponse::Data(d) => r.data == d && r.total == d@.len() && r.errors is None,
                ApiResponse::Error(e) => r.data@.len() == 0 && r.total == 0
                    && (r.errors matches Some(es) && es@.len() == 1 && es@[0] == e),
            },
    {
        match self {
            ApiResponse::Data(d) => {
                let total = d.len();
                ResponseEnvelope { data: d, total, limit: 0, offset: 0, errors: None }
            }
            ApiResponse::Error(e) => {
                let mut es: Vec<ApiError> = Vec::new();
                es.push(e);
                ResponseEnvelope {
                    data: Vec::new(),
                    total: 0,
                    limit: 0,
                    offset: 0,
                    errors: Some(es),
                }
            }
        }
    }
}

/// Distinct positions carry distinct labels: the decimal renderings of
/// distinct counts differ, so `p1`, `p2`, ... never collide. With
/// [`processes_distinct`], two spans of one trace point at the same entry
/// exactly when their processes are structurally equal.
pub proof fn lemma_labels_distinct(ps: Seq<(String, Process)>)
    requires
        labels_ok(ps),
    ensures
        forall|x: int, y: int| 0 <= x < y < ps.len() ==> (#[trigger] ps[x]).0@
            != (#[trigger] ps[y]).0@,
{
    assert forall|x: int, y: int| 0 <= x < y < ps.len() implies (#[trigger] ps[x]).0@ != (
    #[trigger] ps[y]).0@ by {
        lemma_dec_of_nat_injective(x + 1, y + 1);
        assert(ps[x].0@ == process_label(x + 1));
        assert(ps[y].0@ == process_label(y + 1));
        let dx = dec_of_nat(x + 1);
        let dy = dec_of_nat(y + 1);
        assert(ps[x].0@ == seq!['p'] + dx);
        assert(ps[y].0@ == seq!['p'] + dy);
        if ps[x].0@ == ps[y].0@ {
            assert(dx.len() == dy.len());
            assert forall|q: int| 0 <= q < dx.len() implies dx[q] == dy[q] by {
                assert(ps[x].0@[q + 1] == ps[y].0@[q + 1]);
            }
            assert(dx =~= dy);
        }
    }
}

/// Distinct positive counts render to distinct decimal strings.
proof fn lemma_dec_of_nat_injective(a: int, b: int)
    requires
        0 < a < b,
    ensures
        dec_of_nat(a) != dec_of_nat(b),
{
    lemma_dec_digits_injective(a, b);
}

/// The decimal digit strings of distinct positive values differ.
proof fn lemma_dec_digits_injective(a: int, b: int)
    requires
        0 < a < b,
    ensures
        crate::fmt::dec_digits(a) != crate::fmt::dec_digits(b),
    decreases b,
{
    let da = crate::fmt::dec_digits(a);
    let db = crate::fmt::dec_digits(b);
    if da == db {
        assert(da.len() > 0);
        assert(da.last() == crate::fmt::dec_digit(a % 10));
        assert(db.last() == crate::fmt::dec_digit(b % 10));
        lemma_dec_digit_injective(a % 10, b % 10);
        assert(a % 10 == b % 10);
        assert(da.drop_last() == crate::fmt::dec_digits(a / 10));
        assert(db.drop_last() == crate::fmt::dec_digits(b / 10));
        assert(a / 10 < b / 10 || a / 10 == b / 10) by (nonlinear_arith)
            requires
                a < b,
        {}
        if a / 10 == b / 10 {
            assert(a == (a / 10) * 10 + a % 10) by {
                vstd::arithmetic::div_mod::lemma_fundamental_div_mod(a, 10);
            }
            assert(b == (b / 10) * 10 + b % 10) by {
                vstd::arithmetic::div_mod::lemma_fundamental_div_mod(b, 10);
            }
        } else {
            if a / 10 == 0 {
                assert(crate::fmt::dec_digits(a / 10) =~= Seq::<char>::empty());
                assert(crate::fmt::dec_digits(b / 10).len() > 0);
            } else {
                lemma_dec_digits_injective(a / 10, b / 10);
            }
        }
    }
}

/// Distinct digits render to distinct chars.
proof fn lemma_dec_digit_injective(a: int, b: int)
    requires
        0 <= a < 10,
        0 <= b < 10,
        crate::fmt::dec_digit(a) == crate::fmt::dec_digit(b),
    ensures
        a == b,
{
}

} // verus!
