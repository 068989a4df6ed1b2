//! The embedded storage engine.
//!
//! One store holds four tables: distinct service names, distinct
//! `(service, operation)` pairs, one summary row per trace (its service, its
//! earliest start, and the least and greatest span duration seen so far, at
//! microsecond precision), and one row per span keyed by `(trace_id,
//! span_id)` whose payload is the compactly serialized, compressed span.
//! Writes are all-or-nothing upserts, so retransmissions are tolerated; rows
//! are never mutated otherwise and never deleted.

use vstd::prelude::*;

verus! {

use crate::codec::enc_span;
use crate::codec::encode_payload;
use crate::codec::decode_payload;
use crate::codec::payload_spec;
use crate::ids::SpanId;
use crate::ids::TraceId;
use crate::models::div_trunc;
use crate::models::Span;
use crate::models::SpanV;
use crate::models::Tag;
use crate::models::TagV;
use crate::models::TagValue;
use crate::models::TagValueV;

/// Why a write was rejected; the transaction it belonged to did nothing.
#[derive(Clone, Copy, Debug, PartialEq, Eq, Structural)]
pub enum StorageError {
    /// A span's serialized form outgrew the compressor's 32-bit limit.
    PayloadTooLarge,
}

/// The summary row of one trace, as a mathematical value.
pub struct TraceRowV {
    pub trace_id: u128,
    pub service: Seq<char>,
    /// Earliest span start seen, microseconds since the unix epoch.
    pub timestamp: i64,
    /// Least span duration seen, whole microseconds.
    pub min_duration: i64,
    /// Greatest span duration seen, whole microseconds.
    pub max_duration: i64,
}

/// One span row, as a mathematical value: the payload is abstracted to the
/// span it decodes to.
pub struct SpanRowV {
    pub trace_id: u128,
    pub span_id: u64,
    pub operation_name: Seq<char>,
    pub span: SpanV,
}

/// The whole store, as a mathematical value.
pub struct StorageV {
    pub services: Seq<Seq<char>>,
    pub operations: Seq<(Seq<char>, Seq<char>)>,
    pub traces: Seq<TraceRowV>,
    pub spans: Seq<SpanRowV>,
}

struct TraceRow {
    trace_id: TraceId,
    service: String,
    timestamp: i64,
    min_duration: i64,
    max_duration: i64,
}

struct SpanRow {
    trace_id: TraceId,
    span_id: SpanId,
    operation_name: String,
    payload: Vec<u8>,
}

/// The embedded store: all state of the backend lives here, behind the
/// writer's lock.
pub struct Storage {
    services: Vec<String>,
    operations: Vec<(String, String)>,
    traces: Vec<TraceRow>,
    spans: Vec<SpanRow>,
}

impl View for Storage {
    type V = StorageV;

    closed spec fn view(&self) -> StorageV {
        StorageV {
            services: Seq::new(self.services@.len(), |i: int| self.services@[i]@),
            operations: Seq::new(
                self.operations@.len(),
                |i: int| (self.operations@[i].0@, self.operations@[i].1@),
            ),
            traces: Seq::new(
                self.traces@.len(),
                |i: int| TraceRowV {
                    trace_id: self.traces@[i].trace_id.spec_get(),
                    service: self.traces@[i].service@,
                    timestamp: self.traces@[i].timestamp,
                    min_duration: self.traces@[i].min_duration,
                    max_duration: self.traces@[i].max_duration,
                },
            ),
            spans: Seq::new(
                self.spans@.len(),
                |i: int| SpanRowV {
                    trace_id: self.spans@[i].trace_id.spec_get(),
                    span_id: self.spans@[i].span_id.spec_get(),
                    operation_name: self.spans@[i].operation_name@,
                    span: payload_spec(self.spans@[i].payload@)->Some_0,
                },
            ),
        }
    }
}

impl Storage {
    /// The store's integrity: keys are unique, identifiers are non-zero,
    /// and every persisted payload decodes back to the well-formed span it
    /// was written for.
    pub closed spec fn wf(&self) -> bool {
        &&& forall|i: int, j: int| 0 <= i < j < self.services@.len()
            ==> (#[trigger] self.services@[i])@ != (#[trigger] self.services@[j])@
        &&& forall|i: int, j: int| 0 <= i < j < self.operations@.len()
            ==> ((#[trigger] self.operations@[i]).0@, self.operations@[i].1@)
                != ((#[trigger] self.operations@[j]).0@, self.operations@[j].1@)
        &&& forall|i: int, j: int| 0 <= i < j < self.traces@.len()
            ==> (#[trigger] self.traces@[i]).trace_id.spec_get()
                != (#[trigger] self.traces@[j]).trace_id.spec_get()
        &&& forall|i: int, j: int| 0 <= i < j < self.spans@.len()
            ==> ((#[trigger] self.spans@[i]).trace_id.spec_get(),
                self.spans@[i].span_id.spec_get())
                != ((#[trigger] self.spans@[j]).trace_id.spec_get(),
                self.spans@[j].span_id.spec_get())
        &&& forall|i: int| 0 <= i < self.spans@.len() ==> {
            let row = #[trigger] self.spans@[i];
            &&& payload_spec(row.payload@) matches Some(v)
            &&& payload_spec(row.payload@)->Some_0.wf()
            &&& payload_spec(row.payload@)->Some_0.trace_id == row.trace_id.spec_get()
            &&& payload_spec(row.payload@)->Some_0.span_id == row.span_id.spec_get()
            &&& payload_spec(row.payload@)->Some_0.operation_name == row.operation_name@
        }
    }

    /// An empty store.
    pub fn new() -> (r: Storage)
        ensures
            r.wf(),
            r@.services.len() == 0,
            r@.operations.len() == 0,
            r@.traces.len() == 0,
            r@.spans.len() == 0,
    {
        Storage {
            services: Vec::new(),
            operations: Vec::new(),
            traces: Vec::new(),
            spans: Vec::new(),
        }
    }
}

// ---------------------------------------------------------------------------
// What one write does, as mathematical functions.
// ---------------------------------------------------------------------------

/// A span's start instant at the storage precision: whole microseconds.
pub open spec fn start_micros(sp: SpanV) -> i64 {
    div_trunc(sp.start, 1000) as i64
}

/// A span's duration at the storage precision: whole microseconds.
pub open spec fn duration_micros(sp: SpanV) -> i64 {
    div_trunc(sp.duration, 1000) as i64
}

/// A service name joins the table unless it is already there.
pub open spec fn add_service(ss: Seq<Seq<char>>, s: Seq<char>) -> Seq<Seq<char>> {
    if ss.contains(s) {
        ss
    } else {
        ss.push(s)
    }
}

/// An operation pair joins the table unless it is already there.
pub open spec fn add_operation(
    ops: Seq<(Seq<char>, Seq<char>)>,
    p: (Seq<char>, Seq<char>),
) -> Seq<(Seq<char>, Seq<char>)> {
    if ops.contains(p) {
        ops
    } else {
        ops.push(p)
    }
}

/// The summary row a span opens for a trace not seen before.
pub open spec fn new_trace_row(sp: SpanV) -> TraceRowV {
    TraceRowV {
        trace_id: sp.trace_id,
        service: sp.process.service,
        timestamp: start_micros(sp),
        min_duration: duration_micros(sp),
        max_duration: duration_micros(sp),
    }
}

/// Folding one more span into a stored summary row: the earliest start and
/// least duration win the minima, the greatest duration the maximum; the
/// stored service stays.
pub open spec fn combined_trace_row(t: TraceRowV, sp: SpanV) -> TraceRowV {
    TraceRowV {
        trace_id: t.trace_id,
        service: t.service,
        timestamp: if start_micros(sp) < t.timestamp {
            start_micros(sp)
        } else {
            t.timestamp
        },
        min_duration: if duration_micros(sp) < t.min_duration {
            duration_micros(sp)
        } else {
            t.min_duration
        },
        max_duration: if duration_micros(sp) > t.max_duration {
            duration_micros(sp)
        } else {
            t.max_duration
        },
    }
}

/// Upsert a span into the trace-summary table.
pub open spec fn upsert_trace(rows: Seq<TraceRowV>, sp: SpanV) -> Seq<TraceRowV>
    decreases rows.len(),
{
    if rows.len() == 0 {
        seq![new_trace_row(sp)]
    } else if rows[0].trace_id == sp.trace_id {
        seq![combined_trace_row(rows[0], sp)] + rows.drop_first()
    } else {
        seq![rows[0]] + upsert_trace(rows.drop_first(), sp)
    }
}

/// The span row a span is stored as.
pub open spec fn span_row_of(sp: SpanV) -> SpanRowV {
    SpanRowV {
        trace_id: sp.trace_id,
        span_id: sp.span_id,
        operation_name: sp.operation_name,
        span: sp,
    }
}

/// Upsert a span into the span table: a retransmission replaces its row.
pub open spec fn upsert_span_row(rows: Seq<SpanRowV>, sp: SpanV) -> Seq<SpanRowV>
    decreases rows.len(),
{
    if rows.len() == 0 {
        seq![span_row_of(sp)]
    } else if rows[0].trace_id == sp.trace_id && rows[0].span_id == sp.span_id {
        seq![span_row_of(sp)] + rows.drop_first()
    } else {
        seq![rows[0]] + upsert_span_row(rows.drop_first(), sp)
    }
}

/// What saving one span does to the whole store.
pub open spec fn save_one(st: StorageV, sp: SpanV) -> StorageV {
    StorageV {
        services: add_service(st.services, sp.process.service),
        operations: add_operation(st.operations, (sp.process.service, sp.operation_name)),
        traces: upsert_trace(st.traces, sp),
        spans: upsert_span_row(st.spans, sp),
    }
}

/// What saving a whole batch does: the spans are folded in, in order.
pub open spec fn save_batch(st: StorageV, sps: Seq<SpanV>) -> StorageV
    decreases sps.len(),
{
    if sps.len() == 0 {
        st
    } else {
        save_batch(save_one(st, sps[0]), sps.drop_first())
    }
}

// ---------------------------------------------------------------------------
// Correspondence between the scan-based writes and the upsert functions.
// ---------------------------------------------------------------------------

proof fn lemma_upsert_trace_found(rows: Seq<TraceRowV>, sp: SpanV, idx: int)
    requires
        0 <= idx < rows.len(),
        rows[idx].trace_id == sp.trace_id,
        forall|j: int| 0 <= j < idx ==> (#[trigger] rows[j]).trace_id != sp.trace_id,
    ensures
        upsert_trace(rows, sp) == rows.update(idx, combined_trace_row(rows[idx], sp)),
    decreases idx,
{
    if idx == 0 {
        assert(seq![combined_trace_row(rows[0], sp)] + rows.drop_first() =~= rows.update(
            0,
            combined_trace_row(rows[0], sp),
        ));
    } else {
        lemma_upsert_trace_found(rows.drop_first(), sp, idx - 1);
        assert(seq![rows[0]] + rows.drop_first().update(
            idx - 1,
            combined_trace_row(rows[idx], sp),
        ) =~= rows.update(idx, combined_trace_row(rows[idx], sp)));
    }
}

proof fn lemma_upsert_trace_absent(rows: Seq<TraceRowV>, sp: SpanV)
    requires
        forall|j: int| 0 <= j < rows.len() ==> (#[trigger] rows[j]).trace_id != sp.trace_id,
    ensures
        upsert_trace(rows, sp) == rows.push(new_trace_row(sp)),
    decreases rows.len(),
{
    if rows.len() == 0 {
        assert(seq![new_trace_row(sp)] =~= rows.push(new_trace_row(sp)));
    } else {
        lemma_upsert_trace_absent(rows.drop_first(), sp);
        assert(seq![rows[0]] + rows.drop_first().push(new_trace_row(sp)) =~= rows.push(
            new_trace_row(sp),
        ));
    }
}

proof fn lemma_upsert_span_row_found(rows: Seq<SpanRowV>, sp: SpanV, idx: int)
    requires
        0 <= idx < rows.len(),
        rows[idx].trace_id == sp.trace_id && rows[idx].span_id == sp.span_id,
        forall|j: int| 0 <= j < idx ==> !((#[trigger] rows[j]).trace_id == sp.trace_id
            && rows[j].span_id == sp.span_id),
    ensures
        upsert_span_row(rows, sp) == rows.update(idx, span_row_of(sp)),
    decreases idx,
{
    if idx == 0 {
        assert(seq![span_row_of(sp)] + rows.drop_first() =~= rows.update(0, span_row_of(sp)));
    } else {
        lemma_upsert_span_row_found(rows.drop_first(), sp, idx - 1);
        assert(seq![rows[0]] + rows.drop_first().update(idx - 1, span_row_of(sp)) =~= rows.update(
            idx,
            span_row_of(sp),
        ));
    }
}

proof fn lemma_upsert_span_row_absent(rows: Seq<SpanRowV>, sp: SpanV)
    requires
        forall|j: int| 0 <= j < rows.len() ==> !((#[trigger] rows[j]).trace_id == sp.trace_id
            && rows[j].span_id == sp.span_id),
    ensures
        upsert_span_row(rows, sp) == rows.push(span_row_of(sp)),
    decreases rows.len(),
{
    if rows.len() == 0 {
        assert(seq![span_row_of(sp)] =~= rows.push(span_row_of(sp)));
    } else {
        lemma_upsert_span_row_absent(rows.drop_first(), sp);
        assert(seq![rows[0]] + rows.drop_first().push(span_row_of(sp)) =~= rows.push(span_row_of(
            sp,
        )));
    }
}

/// One more span folds into a saved batch at its end.
proof fn lemma_save_batch_snoc(st: StorageV, sps: Seq<SpanV>, sp: SpanV)
    ensures
        save_batch(st, sps.push(sp)) == save_one(save_batch(st, sps), sp),
    decreases sps.len(),
{
    let t = sps.push(sp);
    if sps.len() == 0 {
        assert(t.drop_first() =~= Seq::<SpanV>::empty());
        assert(t[0] == sp);
        assert(save_batch(st, t) == save_batch(save_one(st, sp), t.drop_first()));
        assert(save_batch(save_one(st, sp), t.drop_first()) == save_one(st, sp));
        assert(save_batch(st, sps) == st);
    } else {
        assert(t[0] == sps[0]);
        assert(t.drop_first() =~= sps.drop_first().push(sp));
        assert(save_batch(st, t) == save_batch(save_one(st, sps[0]), t.drop_first()));
        lemma_save_batch_snoc(save_one(st, sps[0]), sps.drop_first(), sp);
        assert(save_batch(st, sps) == save_batch(save_one(st, sps[0]), sps.drop_first()));
    }
}

// ---------------------------------------------------------------------------
// The write path.
// ---------------------------------------------------------------------------

impl Storage {
    fn upsert_service(&mut self, svc: &String)
        requires
            old(self).wf(),
        ensures
            final(self).wf(),
            (final(self)@ == StorageV {
                services: add_service(old(self)@.services, svc@),
                ..old(self)@
            }),
    {
        let n = self.services.len();
        let mut i: usize = 0;
        while i < n
            invariant
                i <= n == self.services@.len(),
                *self == *old(self),
                old(self).wf(),
                forall|j: int| 0 <= j < i ==> (#[trigger] self.services@[j])@ != svc@,
            decreases n - i,
        {
            if self.services[i].eq(svc) {
                proof {
                    assert(self@.services[i as int] == self.services@[i as int]@);
                    assert(self@.services.contains(svc@));
                    assert(self@ =~= StorageV {
                        services: add_service(old(self)@.services, svc@),
                        ..old(self)@
                    });
                }
                return;
            }
            i = i + 1;
        }
        proof {
            assert(forall|j: int| 0 <= j < self@.services.len()
                ==> #[trigger] self@.services[j] == self.services@[j]@);
            assert(!old(self)@.services.contains(svc@));
        }
        let ghost pre = *self;
        self.services.push(svc.clone());
        proof {
            assert(self@.services =~= pre@.services.push(svc@));
            assert(self@ =~= StorageV { services: add_service(old(self)@.services, svc@), ..old(self)@ });
            assert(self@.traces =~= pre@.traces);
            assert(self@.spans =~= pre@.spans);
            assert(self@.operations =~= pre@.operations);
            assert forall|i2: int, j2: int| 0 <= i2 < j2 < self.services@.len() implies
                (#[trigger] self.services@[i2])@ != (#[trigger] self.services@[j2])@ by {
                if j2 < pre.services@.len() {
                } else {
                    assert(self.services@[j2]@ == svc@);
                    assert(pre@.services[i2] == pre.services@[i2]@);
                }
            }
        }
    }

    fn upsert_operation(&mut self, svc: &String, op: &String)
        requires
            old(self).wf(),
        ensures
            final(self).wf(),
            (final(self)@ == StorageV {
                operations: add_operation(old(self)@.operations, (svc@, op@)),
                ..old(self)@
            }),
    {
        let n = self.operations.len();
        let mut i: usize = 0;
        while i < n
            invariant
                i <= n == self.operations@.len(),
                *self == *old(self),
                old(self).wf(),
                forall|j: int| 0 <= j < i
                    ==> ((#[trigger] self.operations@[j]).0@, self.operations@[j].1@) != (svc@, op@),
            decreases n - i,
        {
            if self.operations[i].0.eq(svc) && self.operations[i].1.eq(op) {
                proof {
                    assert(self@.operations[i as int] == (
                        self.operations@[i as int].0@,
                        self.operations@[i as int].1@,
                    ));
                    assert(self@.operations.contains((svc@, op@)));
                    assert(self@ =~= StorageV {
                        operations: add_operation(old(self)@.operations, (svc@, op@)),
                        ..old(self)@
                    });
                }
                return;
            }
            i = i + 1;
        }
        proof {
            assert(forall|j: int| 0 <= j < self@.operations.len()
                ==> #[trigger] self@.operations[j] == (
                self.operations@[j].0@,
                self.operations@[j].1@,
            ));
            assert(!old(self)@.operations.contains((svc@, op@)));
        }
        let ghost pre = *self;
        self.operations.push((svc.clone(), op.clone()));
        proof {
            assert(self@.operations =~= pre@.operations.push((svc@, op@)));
            assert(self@ =~= StorageV {
                operations: add_operation(old(self)@.operations, (svc@, op@)),
                ..old(self)@
            });
            assert(self@.traces =~= pre@.traces);
            assert(self@.spans =~= pre@.spans);
            assert(self@.services =~= pre@.services);
            assert forall|i2: int, j2: int| 0 <= i2 < j2 < self.operations@.len() implies
                ((#[trigger] self.operations@[i2]).0@, self.operations@[i2].1@)
                != ((#[trigger] self.operations@[j2]).0@, self.operations@[j2].1@) by {
                if j2 < pre.operations@.len() {
                } else {
                    assert(pre@.operations[i2] == (
                        pre.operations@[i2].0@,
                        pre.operations@[i2].1@,
                    ));
                }
            }
        }
    }

    #[verifier::rlimit(50)]
    fn upsert_trace_summary(&mut self, sp: &Span)
        requires
            old(self).wf(),
            sp.wf(),
        ensures
            final(self).wf(),
            (final(self)@ == StorageV {
                traces: upsert_trace(old(self)@.traces, sp@),
                ..old(self)@
            }),
    {
        let start_us = sp.start.unix_micros();
        let dur_us = sp.duration.whole_microseconds();
        let n = self.traces.len();
        let mut i: usize = 0;
        while i < n
            invariant
                i <= n == self.traces@.len(),
                *self == *old(self),
                old(self).wf(),
                sp.wf(),
                start_us as int == start_micros(sp@),
                dur_us as int == duration_micros(sp@),
                forall|j: int| 0 <= j < i
                    ==> (#[trigger] self.traces@[j]).trace_id.spec_get() != sp.trace_id.spec_get(),
            decreases n - i,
        {
            if self.traces[i].trace_id == sp.trace_id {
                let ghost pre = *self;
                let row = &self.traces[i];
                let updated = TraceRow {
                    trace_id: row.trace_id,
                    service: row.service.clone(),
                    timestamp: if start_us < row.timestamp { start_us } else { row.timestamp },
                    min_duration: if dur_us < row.min_duration { dur_us } else { row.min_duration },
                    max_duration: if dur_us > row.max_duration { dur_us } else { row.max_duration },
                };
                self.traces[i] = updated;
                proof {
                    lemma_upsert_trace_found(pre@.traces, sp@, i as int);
                    assert(self@.traces =~= pre@.traces.update(
                        i as int,
                        combined_trace_row(pre@.traces[i as int], sp@),
                    ));
                    assert(self@ =~= StorageV {
                        traces: upsert_trace(old(self)@.traces, sp@),
                        ..old(self)@
                    });
                    assert(self@.spans =~= pre@.spans);
                    assert(self@.services =~= pre@.services);
                    assert(self@.operations =~= pre@.operations);
                }
                return;
            }
            proof {
                crate::ids::lemma_trace_id_eq(self.traces@[i as int].trace_id, sp.trace_id);
            }
            i = i + 1;
        }
        let ghost pre = *self;
        self.traces.push(TraceRow {
            trace_id: sp.trace_id,
            service: sp.process.service.clone(),
            timestamp: start_us,
            min_duration: dur_us,
            max_duration: dur_us,
        });
        proof {
            assert(forall|j: int| 0 <= j < pre@.traces.len()
                ==> (#[trigger] pre@.traces[j]).trace_id == pre.traces@[j].trace_id.spec_get());
            lemma_upsert_trace_absent(pre@.traces, sp@);
            assert(self@.traces =~= pre@.traces.push(new_trace_row(sp@)));
            assert(self@ =~= StorageV { traces: upsert_trace(old(self)@.traces, sp@), ..old(self)@ });
            assert(self@.spans =~= pre@.spans);
            assert(self@.services =~= pre@.services);
            assert(self@.operations =~= pre@.operations);
        }
    }

    #[verifier::rlimit(50)]
    fn upsert_span_record(&mut self, sp: &Span, payload: Vec<u8>)
        requires
            old(self).wf(),
            sp.wf(),
            payload_spec(payload@) == Some(sp@),
        ensures
            final(self).wf(),
            (final(self)@ == StorageV {
                spans: upsert_span_row(old(self)@.spans, sp@),
                ..old(self)@
            }),
    {
        let n = self.spans.len();
        let mut i: usize = 0;
        while i < n
            invariant
                i <= n == self.spans@.len(),
                *self == *old(self),
                old(self).wf(),
                sp.wf(),
                payload_spec(payload@) == Some(sp@),
                forall|j: int| 0 <= j < i ==> !((#[trigger] self.spans@[j]).trace_id.spec_get()
                    == sp.trace_id.spec_get() && self.spans@[j].span_id.spec_get()
                    == sp.span_id.spec_get()),
            decreases n - i,
        {
            if self.spans[i].trace_id == sp.trace_id && self.spans[i].span_id == sp.span_id {
                let ghost pre = *self;
                let op = self.spans[i].operation_name.clone();
                let updated = SpanRow {
                    trace_id: sp.trace_id,
                    span_id: sp.span_id,
                    operation_name: clone_op_name(sp),
                    payload,
                };
                self.spans[i] = updated;
                proof {
                    lemma_upsert_span_row_found(pre@.spans, sp@, i as int);
                    assert(self@.spans =~= pre@.spans.update(i as int, span_row_of(sp@)));
                    assert(self@ =~= StorageV {
                        spans: upsert_span_row(old(self)@.spans, sp@),
                        ..old(self)@
                    });
                    assert(self@.traces =~= pre@.traces);
                    assert(self@.services =~= pre@.services);
                    assert(self@.operations =~= pre@.operations);
                }
                return;
            }
            proof {
                crate::ids::lemma_trace_id_eq(self.spans@[i as int].trace_id, sp.trace_id);
                crate::ids::lemma_span_id_eq(self.spans@[i as int].span_id, sp.span_id);
            }
            i = i + 1;
        }
        let ghost pre = *self;
        self.spans.push(SpanRow {
            trace_id: sp.trace_id,
            span_id: sp.span_id,
            operation_name: clone_op_name(sp),
            payload,
        });
        proof {
            assert(forall|j: int| 0 <= j < pre@.spans.len() ==> (#[trigger] pre@.spans[j]).trace_id
                == pre.spans@[j].trace_id.spec_get() && pre@.spans[j].span_id
                == pre.spans@[j].span_id.spec_get());
            lemma_upsert_span_row_absent(pre@.spans, sp@);
            assert(self@.spans =~= pre@.spans.push(span_row_of(sp@)));
            assert(self@ =~= StorageV { spans: upsert_span_row(old(self)@.spans, sp@), ..old(self)@ });
            assert(self@.traces =~= pre@.traces);
            assert(self@.services =~= pre@.services);
            assert(self@.operations =~= pre@.operations);
        }
    }

    /// Persist a whole batch, all-or-nothing: every service name, operation
    /// pair, trace summary and span row is upserted, in batch order. The
    /// write fails, leaving the store untouched, only when a span's encoding
    /// outgrows the compressor's limit.
    #[verifier::rlimit(100)]
    pub fn save_spans(&mut self, spans: &Vec<Span>) -> (r: Result<(), StorageError>)
        requires
            old(self).wf(),
            forall|i: int| 0 <= i < spans@.len() ==> (#[trigger] spans@[i]).wf(),
        ensures
            final(self).wf(),
            match r {
                Ok(()) => final(self)@ == save_batch(old(self)@, spans.deep_view()),
                Err(_) => final(self)@ == old(self)@ && (exists|i: int| 0 <= i < spans@.len()
                    && 32 + enc_span(#[trigger] spans.deep_view()[i]).len() + enc_span(
                    spans.deep_view()[i],
                ).len() / 6 > 0xFFFFFFFF),
            },
    {
        let ghost dv = spans.deep_view();
        let mut payloads: Vec<Vec<u8>> = Vec::new();
        let mut i: usize = 0;
        while i < spans.len()
            invariant
                i <= spans@.len(),
                dv == spans.deep_view(),
                dv.len() == spans@.len(),
                *self == *old(self),
                old(self).wf(),
                forall|j: int| 0 <= j < spans@.len() ==> (#[trigger] spans@[j]).wf(),
                payloads@.len() == i,
                forall|j: int| 0 <= j < i
                    ==> payload_spec((#[trigger] payloads@[j])@) == Some(dv[j]),
            decreases spans@.len() - i,
        {
            proof {
                assert(dv[i as int] == spans@[i as int]@);
            }
            match encode_payload(&spans[i]) {
                Some(p) => {
                    payloads.push(p);
                }
                None => {
                    proof {
                        assert(32 + enc_span(dv[i as int]).len() + enc_span(
                            dv[i as int],
                        ).len() / 6 > 0xFFFFFFFF);
                    }
                    return Err(StorageError::PayloadTooLarge);
                }
            }
            i = i + 1;
        }
        let mut k: usize = 0;
        while k < spans.len()
            invariant
                k <= spans@.len(),
                dv == spans.deep_view(),
                dv.len() == spans@.len(),
                forall|j: int| 0 <= j < spans@.len() ==> (#[trigger] spans@[j]).wf(),
                payloads@.len() == spans@.len() - k,
                forall|j: int| 0 <= j < payloads@.len()
                    ==> payload_spec((#[trigger] payloads@[j])@) == Some(dv[k + j]),
                self.wf(),
                self@ == save_batch(old(self)@, dv.subrange(0, k as int)),
            decreases spans@.len() - k,
        {
            let sp = &spans[k];
            proof {
                assert(dv[k as int] == spans@[k as int]@);
            }
            let payload = payloads.remove(0);
            let ghost pre = self@;
            self.upsert_service(&sp.process.service);
            self.upsert_operation(&sp.process.service, &sp.operation_name);
            self.upsert_trace_summary(sp);
            self.upsert_span_record(sp, payload);
            proof {
                assert(self@ =~= save_one(pre, sp@));
                assert(dv.subrange(0, k + 1) =~= dv.subrange(0, k as int).push(dv[k as int]));
                lemma_save_batch_snoc(old(self)@, dv.subrange(0, k as int), dv[k as int]);
            }
            k = k + 1;
        }
        proof {
            assert(dv.subrange(0, dv.len() as int) =~= dv);
        }
        Ok(())
    }
}

/// A fresh copy of a span's operation name.
fn clone_op_name(sp: &Span) -> (r: String)
    ensures
        r@ == sp@.operation_name,
{
    sp.operation_name.clone()
}

// ---------------------------------------------------------------------------
// Alphabetical order on names.
// ---------------------------------------------------------------------------

/// Strict lexicographic order on char strings, by code point.
pub open spec fn lex_lt(a: Seq<char>, b: Seq<char>) -> bool
    decreases a.len(),
{
    if b.len() == 0 {
        false
    } else if a.len() == 0 {
        true
    } else if (a[0] as u32) < (b[0] as u32) {
        true
    } else if (a[0] as u32) > (b[0] as u32) {
        false
    } else {
        lex_lt(a.drop_first(), b.drop_first())
    }
}

/// The order is total: two unordered strings are equal.
proof fn lemma_lex_total(a: Seq<char>, b: Seq<char>)
    requires
        !lex_lt(a, b),
        !lex_lt(b, a),
    ensures
        a == b,
    decreases a.len(),
{
    if b.len() == 0 {
        assert(a =~= b);
    } else if a.len() == 0 {
    } else {
        if a[0] as u32 == b[0] as u32 {
            vstd::utf8::char_u32_cast(a[0], a[0] as u32);
            vstd::utf8::char_u32_cast(b[0], b[0] as u32);
            assert(a[0] == b[0]);
            lemma_lex_total(a.drop_first(), b.drop_first());
            assert(a =~= seq![a[0]] + a.drop_first());
            assert(b =~= seq![b[0]] + b.drop_first());
        }
    }
}

/// The order is transitive.
proof fn lemma_lex_trans(a: Seq<char>, b: Seq<char>, c: Seq<char>)
    requires
        lex_lt(a, b),
        lex_lt(b, c),
    ensures
        lex_lt(a, c),
    decreases a.len(),
{
    if a.len() == 0 {
    } else if b.len() == 0 {
    } else if c.len() == 0 {
    } else {
        if a[0] as u32 == b[0] as u32 && b[0] as u32 == c[0] as u32 {
            lemma_lex_trans(a.drop_first(), b.drop_first(), c.drop_first());
        }
    }
}

/// Compare two strings in the lexicographic order.
fn str_lt(a: &str, b: &str) -> (r: bool)
    ensures
        r == lex_lt(a@, b@),
{
    let na = a.unicode_len();
    let nb = b.unicode_len();
    proof {
        assert(a@.skip(0) =~= a@);
        assert(b@.skip(0) =~= b@);
    }
    let mut i: usize = 0;
    loop
        invariant
            i <= na,
            i <= nb,
            na == a@.len(),
            nb == b@.len(),
            lex_lt(a@, b@) == lex_lt(a@.skip(i as int), b@.skip(i as int)),
        decreases na - i,
    {
        if i >= nb {
            return false;
        }
        if i >= na {
            return true;
        }
        let ca = a.get_char(i) as u32;
        let cb = b.get_char(i) as u32;
        if ca < cb {
            return true;
        }
        if ca > cb {
            return false;
        }
        proof {
            assert(a@.skip(i as int).drop_first() =~= a@.skip(i + 1));
            assert(b@.skip(i as int).drop_first() =~= b@.skip(i + 1));
            assert(a@.skip(i as int)[0] == a@[i as int]);
            assert(b@.skip(i as int)[0] == b@[i as int]);
        }
        i = i + 1;
    }
}

/// A name list is alphabetical when it strictly increases.
pub open spec fn strict_sorted(s: Seq<Seq<char>>) -> bool {
    forall|i: int, j: int| 0 <= i < j < s.len() ==> lex_lt(#[trigger] s[i], #[trigger] s[j])
}

/// Insert a name into an alphabetical list, unless it is already there.
fn sorted_insert(out: &mut Vec<String>, s: String)
    requires
        strict_sorted(old(out).deep_view()),
    ensures
        strict_sorted(final(out).deep_view()),
        final(out).deep_view().to_set() == old(out).deep_view().to_set().insert(s@),
{
    let n = out.len();
    let mut k: usize = 0;
    let mut stop = false;
    while k < n && !stop
        invariant
            k <= n == out@.len(),
            *out == *old(out),
            strict_sorted(old(out).deep_view()),
            forall|j: int| 0 <= j < k ==> lex_lt(#[trigger] out.deep_view()[j], s@),
            stop ==> k < n && !lex_lt(out.deep_view()[k as int], s@),
        decreases n - k, (if stop { 0int } else { 1int }),
    {
        if str_lt(out[k].as_str(), s.as_str()) {
            proof {
                assert(out.deep_view()[k as int] == out@[k as int]@);
            }
            k = k + 1;
        } else {
            proof {
                assert(out.deep_view()[k as int] == out@[k as int]@);
            }
            stop = true;
        }
    }
    let ghost pre = out.deep_view();
    if k < out.len() {
        if out[k].eq(&s) {
            proof {
                assert(pre[k as int] == out@[k as int]@);
                assert(pre.contains(s@));
                assert(pre.to_set() =~= pre.to_set().insert(s@));
            }
            return;
        }
        proof {
            assert(!lex_lt(pre[k as int], s@));
            lemma_lex_total_helper(pre[k as int], s@);
        }
    }
    out.insert(k, s);
    proof {
        let post = out.deep_view();
        assert(out@ == old(out)@.insert(k as int, s));
        assert forall|j: int| 0 <= j < post.len() implies #[trigger] post[j] == (if j < k {
            pre[j]
        } else if j == k {
            s@
        } else {
            pre[j - 1]
        }) by {
            assert(post[j] == out@[j]@);
            if j < k {
                assert(out@[j] == old(out)@[j]);
            } else if j > k {
                assert(out@[j] == old(out)@[j - 1]);
            }
        }
        assert forall|i2: int, j2: int| 0 <= i2 < j2 < post.len() implies lex_lt(
            #[trigger] post[i2],
            #[trigger] post[j2],
        ) by {
            if i2 < k && j2 == k {
            } else if i2 == k && j2 > k {
                if k < pre.len() {
                    assert(lex_lt(s@, pre[k as int]));
                    if j2 - 1 > k {
                        lemma_lex_trans(s@, pre[k as int], pre[j2 - 1]);
                    }
                }
            } else if i2 < k && j2 > k {
            } else {
            }
        }
        assert forall|x: Seq<char>| post.to_set().contains(x) implies pre.to_set().insert(
            s@,
        ).contains(x) by {
            let j = choose|j: int| 0 <= j < post.len() && post[j] == x;
            if j < k {
                assert(pre[j] == x);
            } else if j > k {
                assert(pre[j - 1] == x);
            }
        }
        assert forall|x: Seq<char>| pre.to_set().insert(s@).contains(x) implies post.to_set()
            .contains(x) by {
            if x == s@ {
                assert(post[k as int] == x);
            } else {
                let j = choose|j: int| 0 <= j < pre.len() && pre[j] == x;
                if j < k {
                    assert(post[j] == x);
                } else {
                    assert(post[j + 1] == x);
                }
            }
        }
        assert(post.to_set() =~= pre.to_set().insert(s@));
    }
}

/// Between two distinct, unordered-one-way strings the other way holds.
proof fn lemma_lex_total_helper(a: Seq<char>, b: Seq<char>)
    requires
        !lex_lt(a, b),
        a != b,
    ensures
        lex_lt(b, a),
{
    if !lex_lt(b, a) {
        lemma_lex_total(a, b);
    }
}

impl Storage {
    /// All distinct service names, alphabetical.
    pub fn list_services(&self) -> (r: Vec<String>)
        requires
            self.wf(),
        ensures
            strict_sorted(r.deep_view()),
            r.deep_view().to_set() == self@.services.to_set(),
    {
        let mut out: Vec<String> = Vec::new();
        let mut i: usize = 0;
        while i < self.services.len()
            invariant
                i <= self.services@.len(),
                strict_sorted(out.deep_view()),
                out.deep_view().to_set() == self@.services.subrange(0, i as int).to_set(),
            decreases self.services@.len() - i,
        {
            let ghost preset = out.deep_view().to_set();
            sorted_insert(&mut out, self.services[i].clone());
            proof {
                let sub1 = self@.services.subrange(0, i + 1);
                let sub0 = self@.services.subrange(0, i as int);
                assert(sub1.drop_last() =~= sub0);
                assert(sub1.last() == self@.services[i as int]);
                assert(self@.services[i as int] == self.services@[i as int]@);
                assert forall|x: Seq<char>| sub1.to_set().contains(x) implies preset.insert(
                    self.services@[i as int]@,
                ).contains(x) by {
                    let j = choose|j: int| 0 <= j < sub1.len() && sub1[j] == x;
                    if j < i {
                        assert(sub0[j] == x);
                    }
                }
                assert forall|x: Seq<char>| preset.insert(self.services@[i as int]@).contains(
                    x,
                ) implies sub1.to_set().contains(x) by {
                    if x == self.services@[i as int]@ {
                        assert(sub1[i as int] == x);
                    } else {
                        let j = choose|j: int| 0 <= j < sub0.len() && sub0[j] == x;
                        assert(sub1[j] == x);
                    }
                }
                assert(sub1.to_set() =~= preset.insert(self.services@[i as int]@));
            }
            i = i + 1;
        }
        proof {
            assert(self@.services.subrange(0, self@.services.len() as int) =~= self@.services);
        }
        out
    }

    /// The operation names of one service, alphabetical.
    pub fn list_operations(&self, service: &String) -> (r: Vec<String>)
        requires
            self.wf(),
        ensures
            strict_sorted(r.deep_view()),
            forall|n: Seq<char>| r.deep_view().to_set().contains(n) <==> self@.operations.to_set()
                .contains((service@, n)),
    {
        let mut out: Vec<String> = Vec::new();
        let mut i: usize = 0;
        while i < self.operations.len()
            invariant
                i <= self.operations@.len(),
                strict_sorted(out.deep_view()),
                forall|n: Seq<char>| out.deep_view().to_set().contains(n) <==> self@.operations
                    .subrange(0, i as int).to_set().contains((service@, n)),
            decreases self.operations@.len() - i,
        {
            let ghost preset = out.deep_view().to_set();
            let ghost sub0 = self@.operations.subrange(0, i as int);
            let ghost sub1 = self@.operations.subrange(0, i + 1);
            proof {
                assert(sub1.drop_last() =~= sub0);
                assert(sub1.last() == self@.operations[i as int]);
                assert(self@.operations[i as int] == (
                    self.operations@[i as int].0@,
                    self.operations@[i as int].1@,
                ));
                assert forall|p: (Seq<char>, Seq<char>)| sub1.to_set().contains(p)
                    && p != self@.operations[i as int] implies sub0.to_set().contains(p) by {
                    let j = choose|j: int| 0 <= j < sub1.len() && sub1[j] == p;
                    assert(sub0[j] == p);
                }
                assert forall|p: (Seq<char>, Seq<char>)| sub0.to_set().contains(p) implies sub1
                    .to_set().contains(p) by {
                    let j = choose|j: int| 0 <= j < sub0.len() && sub0[j] == p;
                    assert(sub1[j] == p);
                }
            }
            if self.operations[i].0.eq(service) {
                sorted_insert(&mut out, self.operations[i].1.clone());
                proof {
                    assert(sub1.to_set().contains((service@, self.operations@[i as int].1@)));
                }
            } else {
            }
            i = i + 1;
        }
        proof {
            assert(self@.operations.subrange(0, self@.operations.len() as int) =~= self@
                .operations);
        }
        out
    }
}

// ---------------------------------------------------------------------------
// The tag filter and span retrieval.
// ---------------------------------------------------------------------------

/// The text a tag value is compared against: booleans as `true`/`false`,
/// integers in standard decimal, binary as lowercase hex, strings as
/// themselves. A float value has no comparison text here: rendering a float
/// is left to the unverified edge, so float tags match no filter.
pub open spec fn tag_text(v: TagValueV) -> Option<Seq<char>> {
    match v {
        TagValueV::String(s) => Some(s),
        TagValueV::Bool(b) => Some(
            if b {
                seq!['t', 'r', 'u', 'e']
            } else {
                seq!['f', 'a', 'l', 's', 'e']
            },
        ),
        TagValueV::I64(x) => Some(crate::fmt::dec_of_int(x as int)),
        TagValueV::F64(_) => None,
        TagValueV::Binary(b) => Some(crate::fmt::hex_of_bytes(b)),
    }
}

/// Every tag of a span, its own before its process's.
pub open spec fn all_tags(sp: SpanV) -> Seq<TagV> {
    sp.tags + sp.process.tags
}

/// One filter entry is satisfied when some tag has its key and renders to
/// its value.
pub open spec fn entry_matched(sp: SpanV, e: (Seq<char>, Seq<char>)) -> bool {
    exists|i: int| 0 <= i < all_tags(sp).len() && (#[trigger] all_tags(sp)[i]).key == e.0
        && tag_text(all_tags(sp)[i].value) == Some(e.1)
}

/// A span passes a filter when every entry of it is satisfied; the empty
/// filter passes everything.
pub open spec fn span_matches_filter(sp: SpanV, f: Seq<(Seq<char>, Seq<char>)>) -> bool {
    forall|k: int| 0 <= k < f.len() ==> entry_matched(sp, #[trigger] f[k])
}

/// The view of an executable filter.
pub open spec fn filter_view(f: Seq<(String, String)>) -> Seq<(Seq<char>, Seq<char>)> {
    Seq::new(f.len(), |i: int| (f[i].0@, f[i].1@))
}

/// Whether a tag value renders to the wanted text.
fn tag_value_text_eq(v: &TagValue, want: &String) -> (r: bool)
    ensures
        r == (tag_text(v@) == Some(want@)),
{
    match v {
        TagValue::String(x) => x.eq(want),
        TagValue::Bool(b) => {
            let t = if *b {
                String::from_str("true")
            } else {
                String::from_str("false")
            };
            proof {
                reveal_strlit("true");
                reveal_strlit("false");
                if *b {
                    assert(t@ =~= seq!['t', 'r', 'u', 'e']);
                } else {
                    assert(t@ =~= seq!['f', 'a', 'l', 's', 'e']);
                }
            }
            t.eq(want)
        }
        TagValue::I64(x) => {
            let t = crate::fmt::format_i64(*x);
            t.eq(want)
        }
        TagValue::F64(_) => false,
        TagValue::Binary(b) => {
            let t = crate::fmt::format_hex_bytes(b);
            t.eq(want)
        }
    }
}

/// Whether any tag of the span satisfies one filter entry.
fn entry_matched_exec(span: &Span, key: &String, val: &String) -> (r: bool)
    ensures
        r == entry_matched(span@, (key@, val@)),
{
    let ghost sp = span@;
    let mut i: usize = 0;
    while i < span.tags.len()
        invariant
            i <= span.tags@.len(),
            sp == span@,
            all_tags(sp).len() == span.tags@.len() + span.process.tags@.len(),
            forall|j: int| 0 <= j < i ==> !((#[trigger] all_tags(sp)[j]).key == key@ && tag_text(
                all_tags(sp)[j].value,
            ) == Some(val@)),
        decreases span.tags@.len() - i,
    {
        proof {
            assert(all_tags(sp)[i as int] == sp.tags[i as int]);
            assert(sp.tags[i as int] == span.tags@[i as int]@);
        }
        if span.tags[i].key.eq(key) && tag_value_text_eq(&span.tags[i].value, val) {
            proof {
                assert(all_tags(sp)[i as int].key == key@ && tag_text(
                    all_tags(sp)[i as int].value,
                ) == Some(val@));
            }
            return true;
        }
        i = i + 1;
    }
    let base = span.tags.len();
    let mut j: usize = 0;
    while j < span.process.tags.len()
        invariant
            j <= span.process.tags@.len(),
            sp == span@,
            base == span.tags@.len(),
            all_tags(sp).len() == span.tags@.len() + span.process.tags@.len(),
            forall|q: int| 0 <= q < base + j ==> !((#[trigger] all_tags(sp)[q]).key == key@
                && tag_text(all_tags(sp)[q].value) == Some(val@)),
        decreases span.process.tags@.len() - j,
    {
        proof {
            assert(all_tags(sp)[base + j] == sp.process.tags[j as int]);
            assert(sp.process.tags[j as int] == span.process.tags@[j as int]@);
        }
        if span.process.tags[j].key.eq(key) && tag_value_text_eq(&span.process.tags[j].value, val)
        {
            proof {
                assert(all_tags(sp)[base + j].key == key@ && tag_text(
                    all_tags(sp)[base + j].value,
                ) == Some(val@));
            }
            return true;
        }
        j = j + 1;
    }
    false
}

/// Whether a span passes the whole filter: every entry must be satisfied by
/// some tag; an empty filter passes everything.
pub fn span_contains_tag(span: &Span, filter: &Vec<(String, String)>) -> (r: bool)
    ensures
        r == span_matches_filter(span@, filter_view(filter@)),
{
    let ghost fv = filter_view(filter@);
    let mut k: usize = 0;
    while k < filter.len()
        invariant
            k <= filter@.len(),
            fv == filter_view(filter@),
            fv.len() == filter@.len(),
            forall|q: int| 0 <= q < k ==> entry_matched(span@, #[trigger] fv[q]),
        decreases filter@.len() - k,
    {
        proof {
            assert(fv[k as int] == (filter@[k as int].0@, filter@[k as int].1@));
        }
        if !entry_matched_exec(span, &filter[k].0, &filter[k].1) {
            return false;
        }
        k = k + 1;
    }
    true
}

/// The spans stored under one trace id that pass the filter, in row order.
pub open spec fn filtered_spans(
    rows: Seq<SpanRowV>,
    tid: u128,
    f: Seq<(Seq<char>, Seq<char>)>,
) -> Seq<SpanV>
    decreases rows.len(),
{
    if rows.len() == 0 {
        Seq::empty()
    } else if rows[0].trace_id == tid && span_matches_filter(rows[0].span, f) {
        seq![rows[0].span] + filtered_spans(rows.drop_first(), tid, f)
    } else {
        filtered_spans(rows.drop_first(), tid, f)
    }
}

proof fn lemma_filtered_spans_snoc(
    rows: Seq<SpanRowV>,
    r: SpanRowV,
    tid: u128,
    f: Seq<(Seq<char>, Seq<char>)>,
)
    ensures
        filtered_spans(rows.push(r), tid, f) == if r.trace_id == tid && span_matches_filter(
            r.span,
            f,
        ) {
            filtered_spans(rows, tid, f).push(r.span)
        } else {
            filtered_spans(rows, tid, f)
        },
    decreases rows.len(),
{
    let t = rows.push(r);
    if rows.len() == 0 {
        assert(t.drop_first() =~= Seq::<SpanRowV>::empty());
        assert(t[0] == r);
        if r.trace_id == tid && span_matches_filter(r.span, f) {
            assert(seq![r.span] + filtered_spans(t.drop_first(), tid, f) =~= filtered_spans(
                rows,
                tid,
                f,
            ).push(r.span));
        }
    } else {
        assert(t[0] == rows[0]);
        assert(t.drop_first() =~= rows.drop_first().push(r));
        lemma_filtered_spans_snoc(rows.drop_first(), r, tid, f);
        if rows[0].trace_id == tid && span_matches_filter(rows[0].span, f) {
            if r.trace_id == tid && span_matches_filter(r.span, f) {
                assert(seq![rows[0].span] + filtered_spans(rows.drop_first(), tid, f).push(r.span)
                    =~= (seq![rows[0].span] + filtered_spans(rows.drop_first(), tid, f)).push(
                    r.span,
                ));
            }
        }
    }
}

impl Storage {
    /// The stored spans of one trace id passing a filter, decoded, in row
    /// order.
    fn collect_spans(&self, trace_id: TraceId, filter: &Vec<(String, String)>) -> (r: Vec<Span>)
        requires
            self.wf(),
        ensures
            r.deep_view() == filtered_spans(self@.spans, trace_id.spec_get(), filter_view(
                filter@,
            )),
            forall|i: int| 0 <= i < r@.len() ==> (#[trigger] r@[i]).wf(),
    {
        let ghost fv = filter_view(filter@);
        let ghost tid = trace_id.spec_get();
        let mut out: Vec<Span> = Vec::new();
        let mut i: usize = 0;
        while i < self.spans.len()
            invariant
                i <= self.spans@.len(),
                self.wf(),
                fv == filter_view(filter@),
                tid == trace_id.spec_get(),
                out.deep_view() == filtered_spans(self@.spans.subrange(0, i as int), tid, fv),
                forall|q: int| 0 <= q < out@.len() ==> (#[trigger] out@[q]).wf(),
            decreases self.spans@.len() - i,
        {
            proof {
                assert(self@.spans.subrange(0, i + 1).drop_last() =~= self@.spans.subrange(
                    0,
                    i as int,
                ));
                assert(self@.spans.subrange(0, i + 1).last() == self@.spans[i as int]);
                lemma_filtered_spans_snoc(
                    self@.spans.subrange(0, i as int),
                    self@.spans[i as int],
                    tid,
                    fv,
                );
                assert(self@.spans.subrange(0, i as int).push(self@.spans[i as int]) =~= self@
                    .spans.subrange(0, i + 1));
                crate::ids::lemma_trace_id_eq(self.spans@[i as int].trace_id, trace_id);
            }
            if self.spans[i].trace_id == trace_id {
                let decoded = decode_payload(&self.spans[i].payload);
                if let Some(sp) = decoded {
                    let ghost prev = out.deep_view();
                    if span_contains_tag(&sp, filter) {
                        out.push(sp);
                        proof {
                            assert(out.deep_view() =~= prev.push(self@.spans[i as int].span));
                        }
                    }
                } else {
                    proof {
                        assert(false);
                    }
                }
            }
            i = i + 1;
        }
        proof {
            assert(self@.spans.subrange(0, self@.spans.len() as int) =~= self@.spans);
        }
        out
    }

    /// The decoded spans of one trace, in row order; empty exactly when no
    /// span with that id has been persisted.
    pub fn find_trace(&self, trace_id: TraceId) -> (r: Vec<Span>)
        requires
            self.wf(),
        ensures
            r.deep_view() == filtered_spans(self@.spans, trace_id.spec_get(), Seq::empty()),
            forall|i: int| 0 <= i < r@.len() ==> (#[trigger] r@[i]).wf(),
            (r@.len() == 0) <==> (forall|i: int| 0 <= i < self@.spans.len()
                ==> (#[trigger] self@.spans[i]).trace_id != trace_id.spec_get()),
    {
        let empty_filter: Vec<(String, String)> = Vec::new();
        let r = self.collect_spans(trace_id, &empty_filter);
        proof {
            assert(filter_view(empty_filter@) =~= Seq::<(Seq<char>, Seq<char>)>::empty());
            lemma_filtered_spans_empty_iff(self@.spans, trace_id.spec_get());
        }
        r
    }

    /// The decoded spans of several traces, grouped by trace id; ids whose
    /// traces hold no spans yield no group.
    pub fn find_traces(&self, ids: &Vec<TraceId>) -> (r: Vec<(TraceId, Vec<Span>)>)
        requires
            self.wf(),
        ensures
            groups_view(r@) == group_spans(self@, ids_view(ids@), Seq::empty()),
            forall|g: int, q: int| 0 <= g < r@.len() && 0 <= q < (#[trigger] r@[g]).1@.len()
                ==> (#[trigger] r@[g].1@[q]).wf(),
    {
        let empty_filter: Vec<(String, String)> = Vec::new();
        proof {
            assert(filter_view(empty_filter@) =~= Seq::<(Seq<char>, Seq<char>)>::empty());
        }
        self.collect_groups(ids, &empty_filter)
    }
}

/// With the empty filter, a trace's span list is empty exactly when no row
/// carries its id.
proof fn lemma_filtered_spans_empty_iff(rows: Seq<SpanRowV>, tid: u128)
    ensures
        (filtered_spans(rows, tid, Seq::empty()).len() == 0) <==> (forall|i: int| 0 <= i
            < rows.len() ==> (#[trigger] rows[i]).trace_id != tid),
    decreases rows.len(),
{
    if rows.len() > 0 {
        lemma_filtered_spans_empty_iff(rows.drop_first(), tid);
        if rows[0].trace_id != tid {
            assert forall|i: int| 0 <= i < rows.len() && (#[trigger] rows[i]).trace_id == tid
                implies false || exists|j: int| 0 <= j < rows.drop_first().len()
                && (#[trigger] rows.drop_first()[j]).trace_id == tid by {
                if rows[i].trace_id == tid {
                    assert(rows.drop_first()[i - 1].trace_id == tid);
                }
            }
        }
    }
}

/// The view of a group list.
pub open spec fn groups_view(gs: Seq<(TraceId, Vec<Span>)>) -> Seq<(u128, Seq<SpanV>)> {
    Seq::new(gs.len(), |i: int| (gs[i].0.spec_get(), gs[i].1.deep_view()))
}

/// The view of an id list.
pub open spec fn ids_view(ids: Seq<TraceId>) -> Seq<u128> {
    Seq::new(ids.len(), |i: int| ids[i].spec_get())
}

/// Group the filtered spans of each listed trace id, dropping empty groups.
pub open spec fn group_spans(
    st: StorageV,
    ids: Seq<u128>,
    f: Seq<(Seq<char>, Seq<char>)>,
) -> Seq<(u128, Seq<SpanV>)>
    decreases ids.len(),
{
    if ids.len() == 0 {
        Seq::empty()
    } else {
        let g = filtered_spans(st.spans, ids[0], f);
        let rest = group_spans(st, ids.drop_first(), f);
        if g.len() > 0 {
            seq![(ids[0], g)] + rest
        } else {
            rest
        }
    }
}

proof fn lemma_group_spans_snoc(
    st: StorageV,
    ids: Seq<u128>,
    id: u128,
    f: Seq<(Seq<char>, Seq<char>)>,
)
    ensures
        group_spans(st, ids.push(id), f) == if filtered_spans(st.spans, id, f).len() > 0 {
            group_spans(st, ids, f).push((id, filtered_spans(st.spans, id, f)))
        } else {
            group_spans(st, ids, f)
        },
    decreases ids.len(),
{
    let t = ids.push(id);
    if ids.len() == 0 {
        assert(t.drop_first() =~= Seq::<u128>::empty());
        assert(t[0] == id);
        if filtered_spans(st.spans, id, f).len() > 0 {
            assert(seq![(id, filtered_spans(st.spans, id, f))] + group_spans(
                st,
                t.drop_first(),
                f,
            ) =~= group_spans(st, ids, f).push((id, filtered_spans(st.spans, id, f))));
        }
    } else {
        assert(t[0] == ids[0]);
        assert(t.drop_first() =~= ids.drop_first().push(id));
        lemma_group_spans_snoc(st, ids.drop_first(), id, f);
        if filtered_spans(st.spans, ids[0], f).len() > 0 {
            if filtered_spans(st.spans, id, f).len() > 0 {
                assert(seq![(ids[0], filtered_spans(st.spans, ids[0], f))] + group_spans(
                    st,
                    ids.drop_first(),
                    f,
                ).push((id, filtered_spans(st.spans, id, f))) =~= (seq![
                    (ids[0], filtered_spans(st.spans, ids[0], f)),
                ] + group_spans(st, ids.drop_first(), f)).push((
                    id,
                    filtered_spans(st.spans, id, f),
                )));
            }
        }
    }
}

impl Storage {
    /// Collect the filtered span groups of the listed trace ids.
    fn collect_groups(&self, ids: &Vec<TraceId>, filter: &Vec<(String, String)>) -> (r: Vec<
        (TraceId, Vec<Span>),
    >)
        requires
            self.wf(),
        ensures
            groups_view(r@) == group_spans(self@, ids_view(ids@), filter_view(filter@)),
            forall|g: int, q: int| 0 <= g < r@.len() && 0 <= q < (#[trigger] r@[g]).1@.len()
                ==> (#[trigger] r@[g].1@[q]).wf(),
    {
        let ghost fv = filter_view(filter@);
        let ghost iv = ids_view(ids@);
        let mut out: Vec<(TraceId, Vec<Span>)> = Vec::new();
        let mut j: usize = 0;
        proof {
            assert(iv.subrange(0, 0) =~= Seq::<u128>::empty());
            assert(groups_view(out@) =~= group_spans(self@, iv.subrange(0, 0), fv));
        }
        while j < ids.len()
            invariant
                j <= ids@.len(),
                self.wf(),
                fv == filter_view(filter@),
                iv == ids_view(ids@),
                iv.len() == ids@.len(),
                groups_view(out@) == group_spans(self@, iv.subrange(0, j as int), fv),
                forall|g: int, q: int| 0 <= g < out@.len() && 0 <= q < (
                #[trigger] out@[g]).1@.len() ==> (#[trigger] out@[g].1@[q]).wf(),
            decreases ids@.len() - j,
        {
            let spans = self.collect_spans(ids[j], filter);
            let ghost prev = out@;
            proof {
                assert(iv.subrange(0, j + 1).drop_last() =~= iv.subrange(0, j as int));
                assert(iv.subrange(0, j + 1).last() == iv[j as int]);
                assert(iv[j as int] == ids@[j as int].spec_get());
                lemma_group_spans_snoc(self@, iv.subrange(0, j as int), iv[j as int], fv);
                assert(iv.subrange(0, j as int).push(iv[j as int]) =~= iv.subrange(0, j + 1));
            }
            if spans.len() > 0 {
                out.push((ids[j], spans));
                proof {
                    assert(groups_view(out@) =~= groups_view(prev).push((
                        iv[j as int],
                        filtered_spans(self@.spans, iv[j as int], fv),
                    )));
                }
            }
            j = j + 1;
        }
        proof {
            assert(iv.subrange(0, iv.len() as int) =~= iv);
        }
        out
    }
}

// ---------------------------------------------------------------------------
// The predicate query: top traces by recency, then their filtered spans.
// ---------------------------------------------------------------------------

/// The predicate query's parameters. Times are microseconds since the unix
/// epoch, the window half-open: `start <= timestamp < end`. The optional
/// duration bounds are whole microseconds; `operation` is carried for the
/// API's sake but does not narrow the stored query. The tag filter maps keys
/// to wanted comparison texts.
pub struct ListSpansParams {
    pub service: String,
    pub operation: Option<String>,
    pub start: i64,
    pub end: i64,
    pub duration_min: Option<i64>,
    pub duration_max: Option<i64>,
    pub limit: usize,
    pub tags: Vec<(String, String)>,
}

/// The predicate a trace-summary row must meet: the queried service, a start
/// inside the window, and when bounded, some span at least `duration_min`
/// long and some span at most `duration_max` long.
pub open spec fn row_matches(
    t: TraceRowV,
    service: Seq<char>,
    start: i64,
    end: i64,
    dmin: Option<i64>,
    dmax: Option<i64>,
) -> bool {
    &&& t.service == service
    &&& start <= t.timestamp < end
    &&& (dmin matches Some(d) ==> t.max_duration >= d)
    &&& (dmax matches Some(d) ==> t.min_duration <= d)
}

/// The matching rows, reduced to id and timestamp, in row order.
pub open spec fn cand_rows(
    rows: Seq<TraceRowV>,
    service: Seq<char>,
    start: i64,
    end: i64,
    dmin: Option<i64>,
    dmax: Option<i64>,
) -> Seq<(u128, i64)>
    decreases rows.len(),
{
    if rows.len() == 0 {
        Seq::empty()
    } else if row_matches(rows[0], service, start, end, dmin, dmax) {
        seq![(rows[0].trace_id, rows[0].timestamp)] + cand_rows(
            rows.drop_first(),
            service,
            start,
            end,
            dmin,
            dmax,
        )
    } else {
        cand_rows(rows.drop_first(), service, start, end, dmin, dmax)
    }
}

proof fn lemma_cand_rows_snoc(
    rows: Seq<TraceRowV>,
    r: TraceRowV,
    service: Seq<char>,
    start: i64,
    end: i64,
    dmin: Option<i64>,
    dmax: Option<i64>,
)
    ensures
        cand_rows(rows.push(r), service, start, end, dmin, dmax) == if row_matches(
            r,
            service,
            start,
            end,
            dmin,
            dmax,
        ) {
            cand_rows(rows, service, start, end, dmin, dmax).push((r.trace_id, r.timestamp))
        } else {
            cand_rows(rows, service, start, end, dmin, dmax)
        },
    decreases rows.len(),
{
    let t = rows.push(r);
    if rows.len() == 0 {
        assert(t.drop_first() =~= Seq::<TraceRowV>::empty());
        assert(t[0] == r);
        if row_matches(r, service, start, end, dmin, dmax) {
            assert(seq![(r.trace_id, r.timestamp)] + cand_rows(
                t.drop_first(),
                service,
                start,
                end,
                dmin,
                dmax,
            ) =~= cand_rows(rows, service, start, end, dmin, dmax).push((
                r.trace_id,
                r.timestamp,
            )));
        }
    } else {
        assert(t[0] == rows[0]);
        assert(t.drop_first() =~= rows.drop_first().push(r));
        lemma_cand_rows_snoc(rows.drop_first(), r, service, start, end, dmin, dmax);
        if row_matches(rows[0], service, start, end, dmin, dmax) {
            if row_matches(r, service, start, end, dmin, dmax) {
                assert(seq![(rows[0].trace_id, rows[0].timestamp)] + cand_rows(
                    rows.drop_first(),
                    service,
                    start,
                    end,
                    dmin,
                    dmax,
                ).push((r.trace_id, r.timestamp)) =~= (seq![(rows[0].trace_id, rows[0].timestamp)]
                    + cand_rows(rows.drop_first(), service, start, end, dmin, dmax)).push((
                    r.trace_id,
                    r.timestamp,
                )));
            }
        }
    }
}

/// The index of the earliest candidate with the greatest timestamp, from
/// position `i` on, with `b` the best seen so far.
pub open spec fn best_from(c: Seq<(u128, i64)>, i: int, b: int) -> int
    decreases c.len() - i,
{
    if i < 0 || b < 0 || i >= c.len() {
        b
    } else {
        best_from(
            c,
            i + 1,
            if c[i].1 > c[b].1 {
                i
            } else {
                b
            },
        )
    }
}

/// The most recent traces: repeatedly take the earliest candidate with the
/// greatest timestamp, up to the limit.
pub open spec fn sel_spec(c: Seq<(u128, i64)>, limit: nat) -> Seq<u128>
    decreases limit,
{
    if limit == 0 || c.len() == 0 {
        Seq::empty()
    } else {
        let b = best_from(c, 1, 0);
        seq![c[b].0] + sel_spec(c.remove(b), (limit - 1) as nat)
    }
}

/// The running best stays inside the candidate list.
proof fn lemma_best_from_range(c: Seq<(u128, i64)>, i: int, b: int)
    requires
        0 <= b < c.len(),
        0 <= i,
    ensures
        0 <= best_from(c, i, b) < c.len(),
    decreases c.len() - i,
{
    if i < c.len() {
        lemma_best_from_range(
            c,
            i + 1,
            if c[i].1 > c[b].1 {
                i
            } else {
                b
            },
        );
    }
}

impl Storage {
    /// Step one of the predicate query: up to `limit` trace ids matching the
    /// row predicate, the most recent first.
    pub fn select_traces(&self, params: &ListSpansParams) -> (r: Vec<TraceId>)
        requires
            self.wf(),
        ensures
            ids_view(r@) == sel_spec(
                cand_rows(
                    self@.traces,
                    params.service@,
                    params.start,
                    params.end,
                    params.duration_min,
                    params.duration_max,
                ),
                params.limit as nat,
            ),
    {
        let ghost svc = params.service@;
        let mut cands: Vec<(TraceId, i64)> = Vec::new();
        let mut i: usize = 0;
        proof {
            assert(self@.traces.subrange(0, 0) =~= Seq::<TraceRowV>::empty());
            assert(cands_view(cands@) =~= cand_rows(
                self@.traces.subrange(0, 0),
                svc,
                params.start,
                params.end,
                params.duration_min,
                params.duration_max,
            ));
        }
        while i < self.traces.len()
            invariant
                i <= self.traces@.len(),
                self.wf(),
                svc == params.service@,
                cands_view(cands@) == cand_rows(
                    self@.traces.subrange(0, i as int),
                    svc,
                    params.start,
                    params.end,
                    params.duration_min,
                    params.duration_max,
                ),
            decreases self.traces@.len() - i,
        {
            let row = &self.traces[i];
            let matches_service = row.service.eq(&params.service);
            let in_window = params.start <= row.timestamp && row.timestamp < params.end;
            let dmin_ok = match params.duration_min {
                Some(d) => row.max_duration >= d,
                None => true,
            };
            let dmax_ok = match params.duration_max {
                Some(d) => row.min_duration <= d,
                None => true,
            };
            let ghost prev = cands@;
            proof {
                assert(self@.traces.subrange(0, i + 1).drop_last() =~= self@.traces.subrange(
                    0,
                    i as int,
                ));
                assert(self@.traces.subrange(0, i + 1).last() == self@.traces[i as int]);
                lemma_cand_rows_snoc(
                    self@.traces.subrange(0, i as int),
                    self@.traces[i as int],
                    svc,
                    params.start,
                    params.end,
                    params.duration_min,
                    params.duration_max,
                );
                assert(self@.traces.subrange(0, i as int).push(self@.traces[i as int]) =~= self@
                    .traces.subrange(0, i + 1));
                assert(self@.traces[i as int].service == self.traces@[i as int].service@);
            }
            if matches_service && in_window && dmin_ok && dmax_ok {
                cands.push((row.trace_id, row.timestamp));
                proof {
                    assert(cands_view(cands@) =~= cands_view(prev).push((
                        self@.traces[i as int].trace_id,
                        self@.traces[i as int].timestamp,
                    )));
                }
            }
            i = i + 1;
        }
        proof {
            assert(self@.traces.subrange(0, self@.traces.len() as int) =~= self@.traces);
        }
        let mut out: Vec<TraceId> = Vec::new();
        let mut taken: usize = 0;
        let limit = params.limit;
        let ghost full = cands_view(cands@);
        proof {
            assert(ids_view(out@) =~= Seq::<u128>::empty());
            assert(Seq::<u128>::empty() + sel_spec(full, limit as nat) =~= sel_spec(
                full,
                limit as nat,
            ));
        }
        while taken < limit && cands.len() > 0
            invariant
                taken <= limit,
                ids_view(out@) + sel_spec(cands_view(cands@), (limit - taken) as nat) == sel_spec(
                    full,
                    limit as nat,
                ),
            decreases limit - taken,
        {
            let ghost c = cands_view(cands@);
            let n = cands.len();
            let mut b: usize = 0;
            let mut k: usize = 1;
            while k < n
                invariant
                    1 <= k <= n == cands@.len(),
                    c == cands_view(cands@),
                    c.len() == cands@.len(),
                    b < k,
                    best_from(c, k as int, b as int) == best_from(c, 1, 0),
                decreases n - k,
            {
                if cands[k].1 > cands[b].1 {
                    proof {
                        assert(c[k as int].1 == cands@[k as int].1);
                        assert(c[b as int].1 == cands@[b as int].1);
                    }
                    b = k;
                } else {
                    proof {
                        assert(c[k as int].1 == cands@[k as int].1);
                        assert(c[b as int].1 == cands@[b as int].1);
                    }
                }
                k = k + 1;
            }
            proof {
                assert(best_from(c, n as int, b as int) == b as int);
                lemma_best_from_range(c, 1, 0);
            }
            let ghost prev_out = out@;
            let chosen = cands.remove(b);
            out.push(chosen.0);
            taken = taken + 1;
            proof {
                assert(cands_view(cands@) =~= c.remove(b as int));
                assert(sel_spec(c, (limit - taken + 1) as nat) == seq![c[b as int].0] + sel_spec(
                    c.remove(b as int),
                    (limit - taken) as nat,
                ));
                assert(ids_view(out@) =~= ids_view(prev_out).push(c[b as int].0));
                assert(ids_view(prev_out).push(c[b as int].0) + sel_spec(
                    c.remove(b as int),
                    (limit - taken) as nat,
                ) =~= ids_view(prev_out) + (seq![c[b as int].0] + sel_spec(
                    c.remove(b as int),
                    (limit - taken) as nat,
                )));
            }
        }
        proof {
            if taken >= limit {
                assert(sel_spec(cands_view(cands@), (limit - taken) as nat) =~= Seq::<
                    u128,
                >::empty());
            } else {
                assert(cands@.len() == 0);
                assert(cands_view(cands@).len() == 0);
            }
            assert(ids_view(out@) + Seq::<u128>::empty() =~= ids_view(out@));
        }
        out
    }
}

/// The view of an executable candidate list.
pub open spec fn cands_view(c: Seq<(TraceId, i64)>) -> Seq<(u128, i64)> {
    Seq::new(c.len(), |i: int| (c[i].0.spec_get(), c[i].1))
}

impl Storage {
    /// The predicate query: select up to `limit` matching traces, the most
    /// recent first, then group their stored spans that pass the tag filter.
    pub fn list_spans(&self, params: &ListSpansParams) -> (r: Vec<(TraceId, Vec<Span>)>)
        requires
            self.wf(),
        ensures
            groups_view(r@) == list_spans_spec(self@, params_view(*params)),
            forall|g: int, q: int| 0 <= g < r@.len() && 0 <= q < (#[trigger] r@[g]).1@.len()
                ==> (#[trigger] r@[g].1@[q]).wf(),
    {
        let ids = self.select_traces(params);
        self.collect_groups(&ids, &params.tags)
    }
}

/// The mathematical value of the query parameters.
pub struct ParamsV {
    pub service: Seq<char>,
    pub start: i64,
    pub end: i64,
    pub duration_min: Option<i64>,
    pub duration_max: Option<i64>,
    pub limit: nat,
    pub tags: Seq<(Seq<char>, Seq<char>)>,
}

/// The view of executable query parameters.
pub open spec fn params_view(p: ListSpansParams) -> ParamsV {
    ParamsV {
        service: p.service@,
        start: p.start,
        end: p.end,
        duration_min: p.duration_min,
        duration_max: p.duration_max,
        limit: p.limit as nat,
        tags: filter_view(p.tags@),
    }
}

/// The whole predicate query, as a mathematical function: the most recent
/// matching traces up to the limit, each with its filtered spans, traces
/// whose spans are all filtered away dropped.
pub open spec fn list_spans_spec(st: StorageV, q: ParamsV) -> Seq<(u128, Seq<SpanV>)> {
    group_spans(st, selected_ids(st, q), q.tags)
}

/// The trace ids step one of the query selects.
pub open spec fn selected_ids(st: StorageV, q: ParamsV) -> Seq<u128> {
    sel_spec(
        cand_rows(st.traces, q.service, q.start, q.end, q.duration_min, q.duration_max),
        q.limit,
    )
}

// ---------------------------------------------------------------------------
// Laws of the storage engine.
// ---------------------------------------------------------------------------

/// Whether some summary row carries the trace id.
pub open spec fn has_trace(rows: Seq<TraceRowV>, tid: u128) -> bool {
    exists|i: int| 0 <= i < rows.len() && (#[trigger] rows[i]).trace_id == tid
}

/// The first summary row of a trace id.
pub open spec fn trace_row_of(rows: Seq<TraceRowV>, tid: u128) -> Option<TraceRowV>
    decreases rows.len(),
{
    if rows.len() == 0 {
        None
    } else if rows[0].trace_id == tid {
        Some(rows[0])
    } else {
        trace_row_of(rows.drop_first(), tid)
    }
}

/// The first span row of an id pair, as the span it holds.
pub open spec fn span_of(rows: Seq<SpanRowV>, tid: u128, sid: u64) -> Option<SpanV>
    decreases rows.len(),
{
    if rows.len() == 0 {
        None
    } else if rows[0].trace_id == tid && rows[0].span_id == sid {
        Some(rows[0].span)
    } else {
        span_of(rows.drop_first(), tid, sid)
    }
}

/// Upserting a span row settles exactly its own id pair.
proof fn lemma_upsert_span_row_of(rows: Seq<SpanRowV>, sp: SpanV, tid: u128, sid: u64)
    ensures
        span_of(upsert_span_row(rows, sp), tid, sid) == if tid == sp.trace_id && sid == sp.span_id {
            Some(sp)
        } else {
            span_of(rows, tid, sid)
        },
    decreases rows.len(),
{
    let u = upsert_span_row(rows, sp);
    if rows.len() == 0 {
        assert(u == seq![span_row_of(sp)]);
        assert(u[0] == span_row_of(sp));
        assert(u.drop_first() =~= Seq::<SpanRowV>::empty());
        assert(span_of(u.drop_first(), tid, sid) is None);
    } else if rows[0].trace_id == sp.trace_id && rows[0].span_id == sp.span_id {
        assert(u == seq![span_row_of(sp)] + rows.drop_first());
        assert(u[0] == span_row_of(sp));
        assert(u.len() > 0);
        assert(u.drop_first() =~= rows.drop_first());
        if tid == sp.trace_id && sid == sp.span_id {
            assert(span_of(u, tid, sid) == Some(u[0].span));
        } else {
            assert(span_of(u, tid, sid) == span_of(u.drop_first(), tid, sid));
            assert(span_of(rows, tid, sid) == span_of(rows.drop_first(), tid, sid));
        }
    } else {
        assert(u == seq![rows[0]] + upsert_span_row(rows.drop_first(), sp));
        assert(u[0] == rows[0]);
        assert(u.len() > 0);
        assert(u.drop_first() =~= upsert_span_row(rows.drop_first(), sp));
        lemma_upsert_span_row_of(rows.drop_first(), sp, tid, sid);
        if rows[0].trace_id == tid && rows[0].span_id == sid {
            assert(span_of(u, tid, sid) == Some(rows[0].span));
            assert(span_of(rows, tid, sid) == Some(rows[0].span));
        } else {
            assert(span_of(u, tid, sid) == span_of(u.drop_first(), tid, sid));
            assert(span_of(rows, tid, sid) == span_of(rows.drop_first(), tid, sid));
        }
    }
}

/// Upserting a summary row settles exactly its own trace id.
proof fn lemma_upsert_trace_row_of(rows: Seq<TraceRowV>, sp: SpanV, tid: u128)
    ensures
        trace_row_of(upsert_trace(rows, sp), tid) == if tid == sp.trace_id {
            Some(
                match trace_row_of(rows, tid) {
                    Some(t) => combined_trace_row(t, sp),
                    None => new_trace_row(sp),
                },
            )
        } else {
            trace_row_of(rows, tid)
        },
    decreases rows.len(),
{
    let u = upsert_trace(rows, sp);
    if rows.len() == 0 {
        assert(u == seq![new_trace_row(sp)]);
        assert(u[0] == new_trace_row(sp));
        assert(u.drop_first() =~= Seq::<TraceRowV>::empty());
        assert(trace_row_of(u.drop_first(), tid) is None);
    } else if rows[0].trace_id == sp.trace_id {
        assert(u == seq![combined_trace_row(rows[0], sp)] + rows.drop_first());
        assert(u[0] == combined_trace_row(rows[0], sp));
        assert(u.len() > 0);
        assert(u.drop_first() =~= rows.drop_first());
        if tid == sp.trace_id {
            assert(trace_row_of(u, tid) == Some(u[0]));
            assert(trace_row_of(rows, tid) == Some(rows[0]));
        } else {
            assert(trace_row_of(u, tid) == trace_row_of(u.drop_first(), tid));
            assert(trace_row_of(rows, tid) == trace_row_of(rows.drop_first(), tid));
        }
    } else {
        assert(u == seq![rows[0]] + upsert_trace(rows.drop_first(), sp));
        assert(u[0] == rows[0]);
        assert(u.len() > 0);
        assert(u.drop_first() =~= upsert_trace(rows.drop_first(), sp));
        lemma_upsert_trace_row_of(rows.drop_first(), sp, tid);
        if rows[0].trace_id == tid {
            assert(trace_row_of(u, tid) == Some(rows[0]));
            assert(trace_row_of(rows, tid) == Some(rows[0]));
        } else {
            assert(trace_row_of(u, tid) == trace_row_of(u.drop_first(), tid));
            assert(trace_row_of(rows, tid) == trace_row_of(rows.drop_first(), tid));
        }
    }
}

/// Saving batches one after the other is saving their concatenation.
pub proof fn lemma_save_batch_append(st: StorageV, a: Seq<SpanV>, b: Seq<SpanV>)
    ensures
        save_batch(save_batch(st, a), b) == save_batch(st, a + b),
    decreases a.len(),
{
    if a.len() == 0 {
        assert(a + b =~= b);
    } else {
        assert((a + b)[0] == a[0]);
        assert((a + b).drop_first() =~= a.drop_first() + b);
        lemma_save_batch_append(save_one(st, a[0]), a.drop_first(), b);
    }
}

/// After a batch is saved, every span of it is stored: the last occurrence
/// of its id pair in the batch is what its row decodes to.
pub proof fn lemma_save_batch_span_of(st: StorageV, sps: Seq<SpanV>, tid: u128, sid: u64)
    ensures
        span_of(save_batch(st, sps).spans, tid, sid) == if last_with_ids(sps, tid, sid) is Some {
            last_with_ids(sps, tid, sid)
        } else {
            span_of(st.spans, tid, sid)
        },
    decreases sps.len(),
{
    if sps.len() > 0 {
        lemma_save_batch_span_of(save_one(st, sps[0]), sps.drop_first(), tid, sid);
        lemma_upsert_span_row_of(st.spans, sps[0], tid, sid);
        lemma_last_with_ids_head(sps, tid, sid);
    }
}

/// The last span of a batch carrying the id pair.
pub open spec fn last_with_ids(sps: Seq<SpanV>, tid: u128, sid: u64) -> Option<SpanV>
    decreases sps.len(),
{
    if sps.len() == 0 {
        None
    } else {
        match last_with_ids(sps.drop_first(), tid, sid) {
            Some(v) => Some(v),
            None => if sps[0].trace_id == tid && sps[0].span_id == sid {
                Some(sps[0])
            } else {
                None
            },
        }
    }
}

proof fn lemma_last_with_ids_head(sps: Seq<SpanV>, tid: u128, sid: u64)
    requires
        sps.len() > 0,
    ensures
        last_with_ids(sps, tid, sid) == match last_with_ids(sps.drop_first(), tid, sid) {
            Some(v) => Some(v),
            None => if sps[0].trace_id == tid && sps[0].span_id == sid {
                Some(sps[0])
            } else {
                None::<SpanV>
            },
        },
{
}

/// After a batch is saved, every trace id of it has a summary row, and all
/// earlier trace ids keep theirs.
pub proof fn lemma_save_batch_has_trace(st: StorageV, sps: Seq<SpanV>, tid: u128)
    ensures
        trace_row_of(save_batch(st, sps).traces, tid) is Some <==> (trace_row_of(st.traces, tid)
            is Some || exists|i: int| 0 <= i < sps.len() && (#[trigger] sps[i]).trace_id == tid),
    decreases sps.len(),
{
    if sps.len() > 0 {
        lemma_save_batch_has_trace(save_one(st, sps[0]), sps.drop_first(), tid);
        lemma_upsert_trace_row_of(st.traces, sps[0], tid);
        if trace_row_of(save_batch(st, sps).traces, tid) is Some {
            if !(trace_row_of(st.traces, tid) is Some) {
                if sps[0].trace_id == tid {
                    assert(sps[0] == sps[0]);
                } else {
                    let i = choose|i: int| 0 <= i < sps.drop_first().len()
                        && (#[trigger] sps.drop_first()[i]).trace_id == tid;
                    assert(sps[i + 1].trace_id == tid);
                }
            }
        } else {
            assert(forall|i: int| 0 <= i < sps.drop_first().len()
                ==> (#[trigger] sps.drop_first()[i]).trace_id != tid);
            assert forall|i: int| 0 <= i < sps.len() implies (#[trigger] sps[i]).trace_id
                != tid by {
                if i > 0 {
                    assert(sps.drop_first()[i - 1] == sps[i]);
                }
            }
        }
    }
}

/// Two writes, each with its own traces, leave every trace of both visible:
/// the writer is serialized, so concurrent saves land one after the other.
pub proof fn lemma_saves_see_both(st: StorageV, a: Seq<SpanV>, b: Seq<SpanV>)
    ensures
        forall|i: int| 0 <= i < a.len() ==> trace_row_of(
            save_batch(save_batch(st, a), b).traces,
            (#[trigger] a[i]).trace_id,
        ) is Some,
        forall|i: int| 0 <= i < b.len() ==> trace_row_of(
            save_batch(save_batch(st, a), b).traces,
            (#[trigger] b[i]).trace_id,
        ) is Some,
{
    let st1 = save_batch(st, a);
    assert forall|i: int| 0 <= i < a.len() implies trace_row_of(
        save_batch(st1, b).traces,
        (#[trigger] a[i]).trace_id,
    ) is Some by {
        lemma_save_batch_has_trace(st, a, a[i].trace_id);
        lemma_save_batch_has_trace(st1, b, a[i].trace_id);
    }
    assert forall|i: int| 0 <= i < b.len() implies trace_row_of(
        save_batch(st1, b).traces,
        (#[trigger] b[i]).trace_id,
    ) is Some by {
        lemma_save_batch_has_trace(st1, b, b[i].trace_id);
    }
}

/// Folding a batch of spans into a summary row, one after another.
pub open spec fn fold_row(t: TraceRowV, sps: Seq<SpanV>) -> TraceRowV
    decreases sps.len(),
{
    if sps.len() == 0 {
        t
    } else {
        fold_row(combined_trace_row(t, sps[0]), sps.drop_first())
    }
}

/// Saving spans that all carry one trace id folds them into its row.
proof fn lemma_save_batch_fold(st: StorageV, sps: Seq<SpanV>, tid: u128)
    requires
        forall|i: int| 0 <= i < sps.len() ==> (#[trigger] sps[i]).trace_id == tid,
    ensures
        trace_row_of(save_batch(st, sps).traces, tid) == match trace_row_of(st.traces, tid) {
            Some(t) => Some(fold_row(t, sps)),
            None => if sps.len() == 0 {
                None::<TraceRowV>
            } else {
                Some(fold_row(new_trace_row(sps[0]), sps.drop_first()))
            },
        },
    decreases sps.len(),
{
    if sps.len() > 0 {
        assert(forall|i: int| 0 <= i < sps.drop_first().len()
            ==> (#[trigger] sps.drop_first()[i]).trace_id == tid);
        lemma_save_batch_fold(save_one(st, sps[0]), sps.drop_first(), tid);
        lemma_upsert_trace_row_of(st.traces, sps[0], tid);
    }
}

/// The least start of a non-empty batch, at storage precision.
pub open spec fn batch_min_start(sps: Seq<SpanV>) -> i64
    decreases sps.len(),
{
    if sps.len() <= 1 {
        start_micros(sps[0])
    } else {
        let rest = batch_min_start(sps.drop_first());
        if start_micros(sps[0]) < rest {
            start_micros(sps[0])
        } else {
            rest
        }
    }
}

/// The least duration of a non-empty batch, at storage precision.
pub open spec fn batch_min_duration(sps: Seq<SpanV>) -> i64
    decreases sps.len(),
{
    if sps.len() <= 1 {
        duration_micros(sps[0])
    } else {
        let rest = batch_min_duration(sps.drop_first());
        if duration_micros(sps[0]) < rest {
            duration_micros(sps[0])
        } else {
            rest
        }
    }
}

/// The greatest duration of a non-empty batch, at storage precision.
pub open spec fn batch_max_duration(sps: Seq<SpanV>) -> i64
    decreases sps.len(),
{
    if sps.len() <= 1 {
        duration_micros(sps[0])
    } else {
        let rest = batch_max_duration(sps.drop_first());
        if duration_micros(sps[0]) > rest {
            duration_micros(sps[0])
        } else {
            rest
        }
    }
}

/// Folding spans into a row takes the element-wise minima and maximum.
proof fn lemma_fold_row_minmax(t: TraceRowV, sps: Seq<SpanV>)
    ensures
        sps.len() > 0 ==> {
            &&& fold_row(t, sps).timestamp == if batch_min_start(sps) < t.timestamp {
                batch_min_start(sps)
            } else {
                t.timestamp
            }
            &&& fold_row(t, sps).min_duration == if batch_min_duration(sps) < t.min_duration {
                batch_min_duration(sps)
            } else {
                t.min_duration
            }
            &&& fold_row(t, sps).max_duration == if batch_max_duration(sps) > t.max_duration {
                batch_max_duration(sps)
            } else {
                t.max_duration
            }
            &&& fold_row(t, sps).trace_id == t.trace_id
            &&& fold_row(t, sps).service == t.service
        },
    decreases sps.len(),
{
    if sps.len() > 0 {
        let c = combined_trace_row(t, sps[0]);
        lemma_fold_row_minmax(c, sps.drop_first());
        assert(fold_row(t, sps) == fold_row(c, sps.drop_first()));
        if sps.len() == 1 {
            assert(sps.drop_first().len() == 0);
            assert(fold_row(c, sps.drop_first()) == c);
            assert(batch_min_start(sps) == start_micros(sps[0]));
        } else {
            assert(sps.drop_first().len() > 0);
            assert(batch_min_start(sps) == if start_micros(sps[0]) < batch_min_start(
                sps.drop_first(),
            ) {
                start_micros(sps[0])
            } else {
                batch_min_start(sps.drop_first())
            });
        }
    }
}

/// Writes of one trace id converge to one summary row whose timestamp is the
/// least supplied start and whose duration bounds are the least and greatest
/// supplied durations: here for two batches saved one after the other onto a
/// store that did not know the trace yet (the writer is serialized, so
/// concurrent saves land in some order; an existing row would simply fold in
/// as one more batch).
pub proof fn lemma_saves_converge(st: StorageV, a: Seq<SpanV>, b: Seq<SpanV>, tid: u128)
    requires
        trace_row_of(st.traces, tid) is None,
        a.len() + b.len() > 0,
        forall|i: int| 0 <= i < a.len() ==> (#[trigger] a[i]).trace_id == tid,
        forall|i: int| 0 <= i < b.len() ==> (#[trigger] b[i]).trace_id == tid,
    ensures
        ({
            let row = trace_row_of(save_batch(save_batch(st, a), b).traces, tid);
            &&& row is Some
            &&& row->Some_0.timestamp == batch_min_start(a + b)
            &&& row->Some_0.min_duration == batch_min_duration(a + b)
            &&& row->Some_0.max_duration == batch_max_duration(a + b)
        }),
{
    lemma_save_batch_append(st, a, b);
    let all = a + b;
    assert forall|i: int| 0 <= i < all.len() implies (#[trigger] all[i]).trace_id == tid by {
        if i < a.len() {
            assert(all[i] == a[i]);
        } else {
            assert(all[i] == b[i - a.len()]);
        }
    }
    lemma_save_batch_fold(st, all, tid);
    let first = new_trace_row(all[0]);
    lemma_fold_row_minmax(first, all.drop_first());
    if all.len() > 1 {
        lemma_batch_minmax_head(all);
    }
}

/// The batch minima and maximum decompose over the first element.
proof fn lemma_batch_minmax_head(sps: Seq<SpanV>)
    requires
        sps.len() > 1,
    ensures
        batch_min_start(sps) == if start_micros(sps[0]) < batch_min_start(sps.drop_first()) {
            start_micros(sps[0])
        } else {
            batch_min_start(sps.drop_first())
        },
        batch_min_duration(sps) == if duration_micros(sps[0]) < batch_min_duration(
            sps.drop_first(),
        ) {
            duration_micros(sps[0])
        } else {
            batch_min_duration(sps.drop_first())
        },
        batch_max_duration(sps) == if duration_micros(sps[0]) > batch_max_duration(
            sps.drop_first(),
        ) {
            duration_micros(sps[0])
        } else {
            batch_max_duration(sps.drop_first())
        },
{
}

/// A group list is as long as its id list exactly when every listed trace
/// still holds spans after filtering.
pub proof fn lemma_group_count(st: StorageV, ids: Seq<u128>, f: Seq<(Seq<char>, Seq<char>)>)
    ensures
        group_spans(st, ids, f).len() <= ids.len(),
        (group_spans(st, ids, f).len() == ids.len()) <==> (forall|j: int| 0 <= j < ids.len()
            ==> filtered_spans(st.spans, #[trigger] ids[j], f).len() > 0),
    decreases ids.len(),
{
    if ids.len() > 0 {
        lemma_group_count(st, ids.drop_first(), f);
        let g = filtered_spans(st.spans, ids[0], f);
        assert forall|j: int| 0 <= j < ids.drop_first().len() implies ids.drop_first()[j]
            == ids[j + 1] by {}
        if group_spans(st, ids, f).len() == ids.len() {
            assert(g.len() > 0);
            assert forall|j: int| 0 <= j < ids.len() implies filtered_spans(
                st.spans,
                #[trigger] ids[j],
                f,
            ).len() > 0 by {
                if j > 0 {
                    assert(ids.drop_first()[j - 1] == ids[j]);
                }
            }
        }
        if forall|j: int| 0 <= j < ids.len() ==> filtered_spans(
            st.spans,
            #[trigger] ids[j],
            f,
        ).len() > 0 {
            assert(filtered_spans(st.spans, ids[0], f).len() > 0);
        }
    }
}

/// Distinct trace ids across summary rows.
pub open spec fn rows_distinct(rows: Seq<TraceRowV>) -> bool {
    forall|i: int, j: int| 0 <= i < j < rows.len() ==> (#[trigger] rows[i]).trace_id
        != (#[trigger] rows[j]).trace_id
}

impl Storage {
    /// A well-formed store's summary rows carry distinct trace ids.
    pub proof fn lemma_wf_distinct(&self)
        requires
            self.wf(),
        ensures
            rows_distinct(self@.traces),
    {
        assert forall|i: int, j: int| 0 <= i < j < self@.traces.len() implies (#[trigger] self@
            .traces[i]).trace_id != (#[trigger] self@.traces[j]).trace_id by {
            assert(self@.traces[i].trace_id == self.traces@[i].trace_id.spec_get());
            assert(self@.traces[j].trace_id == self.traces@[j].trace_id.spec_get());
        }
    }
}

/// Every candidate comes from a matching row.
proof fn lemma_cand_from(
    rows: Seq<TraceRowV>,
    service: Seq<char>,
    start: i64,
    end: i64,
    dmin: Option<i64>,
    dmax: Option<i64>,
    j: int,
)
    requires
        0 <= j < cand_rows(rows, service, start, end, dmin, dmax).len(),
    ensures
        exists|i: int| 0 <= i < rows.len() && (#[trigger] rows[i]).trace_id == cand_rows(
            rows,
            service,
            start,
            end,
            dmin,
            dmax,
        )[j].0 && rows[i].timestamp == cand_rows(rows, service, start, end, dmin, dmax)[j].1
            && row_matches(rows[i], service, start, end, dmin, dmax),
    decreases rows.len(),
{
    let c = cand_rows(rows, service, start, end, dmin, dmax);
    if rows.len() > 0 {
        if row_matches(rows[0], service, start, end, dmin, dmax) {
            if j == 0 {
                assert(rows[0].trace_id == c[0].0 && rows[0].timestamp == c[0].1);
            } else {
                lemma_cand_from(rows.drop_first(), service, start, end, dmin, dmax, j - 1);
                let i = choose|i: int| 0 <= i < rows.drop_first().len()
                    && (#[trigger] rows.drop_first()[i]).trace_id == cand_rows(
                    rows.drop_first(),
                    service,
                    start,
                    end,
                    dmin,
                    dmax,
                )[j - 1].0 && rows.drop_first()[i].timestamp == cand_rows(
                    rows.drop_first(),
                    service,
                    start,
                    end,
                    dmin,
                    dmax,
                )[j - 1].1 && row_matches(rows.drop_first()[i], service, start, end, dmin, dmax);
                assert(rows[i + 1] == rows.drop_first()[i]);
            }
        } else {
            lemma_cand_from(rows.drop_first(), service, start, end, dmin, dmax, j);
            let i = choose|i: int| 0 <= i < rows.drop_first().len()
                && (#[trigger] rows.drop_first()[i]).trace_id == cand_rows(
                rows.drop_first(),
                service,
                start,
                end,
                dmin,
                dmax,
            )[j].0 && rows.drop_first()[i].timestamp == cand_rows(
                rows.drop_first(),
                service,
                start,
                end,
                dmin,
                dmax,
            )[j].1 && row_matches(rows.drop_first()[i], service, start, end, dmin, dmax);
            assert(rows[i + 1] == rows.drop_first()[i]);
        }
    }
}

/// Every matching row yields a candidate.
proof fn lemma_cand_complete(
    rows: Seq<TraceRowV>,
    service: Seq<char>,
    start: i64,
    end: i64,
    dmin: Option<i64>,
    dmax: Option<i64>,
    i: int,
)
    requires
        0 <= i < rows.len(),
        row_matches(rows[i], service, start, end, dmin, dmax),
    ensures
        exists|j: int| 0 <= j < cand_rows(rows, service, start, end, dmin, dmax).len()
            && #[trigger] cand_rows(rows, service, start, end, dmin, dmax)[j] == (
            rows[i].trace_id,
            rows[i].timestamp,
        ),
    decreases rows.len(),
{
    let c = cand_rows(rows, service, start, end, dmin, dmax);
    if i == 0 {
        assert(c[0] == (rows[0].trace_id, rows[0].timestamp));
    } else {
        lemma_cand_complete(rows.drop_first(), service, start, end, dmin, dmax, i - 1);
        let cr = cand_rows(rows.drop_first(), service, start, end, dmin, dmax);
        let j = choose|j: int| 0 <= j < cr.len() && #[trigger] cr[j] == (
            rows[i].trace_id,
            rows[i].timestamp,
        );
        if row_matches(rows[0], service, start, end, dmin, dmax) {
            assert(c[j + 1] == cr[j]);
        } else {
            assert(c[j] == cr[j]);
        }
    }
}

/// Every selected id is a candidate's.
proof fn lemma_sel_from(c: Seq<(u128, i64)>, limit: nat, x: u128)
    requires
        sel_spec(c, limit).contains(x),
    ensures
        exists|i: int| 0 <= i < c.len() && (#[trigger] c[i]).0 == x,
    decreases limit,
{
    if limit > 0 && c.len() > 0 {
        let b = best_from(c, 1, 0);
        lemma_best_from_range(c, 1, 0);
        if c[b].0 != x {
            let k = choose|k: int| 0 <= k < sel_spec(c, limit).len() && sel_spec(c, limit)[k] == x;
            assert(sel_spec(c.remove(b), (limit - 1) as nat)[k - 1] == x);
            lemma_sel_from(c.remove(b), (limit - 1) as nat, x);
            let i = choose|i: int| 0 <= i < c.remove(b).len() && (#[trigger] c.remove(b)[i]).0
                == x;
            if i < b {
                assert(c[i] == c.remove(b)[i]);
            } else {
                assert(c[i + 1] == c.remove(b)[i]);
            }
        }
    }
}

/// No more ids are selected than the limit allows.
proof fn lemma_sel_len(c: Seq<(u128, i64)>, limit: nat)
    ensures
        sel_spec(c, limit).len() <= limit,
    decreases limit,
{
    if limit > 0 && c.len() > 0 {
        let b = best_from(c, 1, 0);
        lemma_best_from_range(c, 1, 0);
        lemma_sel_len(c.remove(b), (limit - 1) as nat);
    }
}

/// Each group carries a listed id with spans left after filtering, and every
/// listed id with spans left has its group.
proof fn lemma_group_ids(st: StorageV, ids: Seq<u128>, f: Seq<(Seq<char>, Seq<char>)>)
    ensures
        group_spans(st, ids, f).len() <= ids.len(),
        forall|g: int| 0 <= g < group_spans(st, ids, f).len() ==> ids.contains(
            (#[trigger] group_spans(st, ids, f)[g]).0,
        ) && group_spans(st, ids, f)[g].1 == filtered_spans(
            st.spans,
            group_spans(st, ids, f)[g].0,
            f,
        ) && group_spans(st, ids, f)[g].1.len() > 0,
        forall|k: int| 0 <= k < ids.len() && filtered_spans(st.spans, #[trigger] ids[k], f).len()
            > 0 ==> exists|g: int| 0 <= g < group_spans(st, ids, f).len()
            && (#[trigger] group_spans(st, ids, f)[g]).0 == ids[k],
    decreases ids.len(),
{
    if ids.len() > 0 {
        lemma_group_ids(st, ids.drop_first(), f);
        let gs = group_spans(st, ids, f);
        let rest = group_spans(st, ids.drop_first(), f);
        let g0 = filtered_spans(st.spans, ids[0], f);
        assert forall|g: int| 0 <= g < gs.len() implies ids.contains((#[trigger] gs[g]).0)
            && gs[g].1 == filtered_spans(st.spans, gs[g].0, f) && gs[g].1.len() > 0 by {
            if g0.len() > 0 && g == 0 {
                assert(gs[0] == (ids[0], g0));
                assert(ids[0] == ids[0]);
            } else {
                let off: int = if g0.len() > 0 {
                    1
                } else {
                    0
                };
                assert(gs[g] == rest[g - off]);
                let k = choose|k: int| 0 <= k < ids.drop_first().len() && ids.drop_first()[k]
                    == rest[g - off].0;
                assert(ids[k + 1] == rest[g - off].0);
            }
        }
        assert forall|k: int| 0 <= k < ids.len() && filtered_spans(
            st.spans,
            #[trigger] ids[k],
            f,
        ).len() > 0 implies exists|g: int| 0 <= g < gs.len() && (#[trigger] gs[g]).0
            == ids[k] by {
            let off: int = if g0.len() > 0 {
                1
            } else {
                0
            };
            if k == 0 {
                assert(gs[0].0 == ids[0]);
            } else {
                assert(ids.drop_first()[k - 1] == ids[k]);
                let g = choose|g: int| 0 <= g < rest.len() && (#[trigger] rest[g]).0 == ids[k];
                assert(gs[g + off] == rest[g]);
            }
        }
    }
}

/// With distinct rows, the first row of a trace id is the row at any index
/// carrying it.
proof fn lemma_trace_row_of_index(rows: Seq<TraceRowV>, i: int)
    requires
        rows_distinct(rows),
        0 <= i < rows.len(),
    ensures
        trace_row_of(rows, rows[i].trace_id) == Some(rows[i]),
    decreases i,
{
    if i == 0 {
    } else {
        assert(rows[0].trace_id != rows[i].trace_id);
        assert(rows_distinct(rows.drop_first())) by {
            assert forall|x: int, y: int| 0 <= x < y < rows.drop_first().len() implies (
            #[trigger] rows.drop_first()[x]).trace_id != (#[trigger] rows.drop_first()[y]).trace_id
                by {
                assert(rows.drop_first()[x] == rows[x + 1]);
                assert(rows.drop_first()[y] == rows[y + 1]);
            }
        }
        assert(rows.drop_first()[i - 1] == rows[i]);
        lemma_trace_row_of_index(rows.drop_first(), i - 1);
    }
}

/// The whole predicate query returns at most `limit` groups, every one for a
/// trace whose summary row matches the query: the queried service, a start
/// inside the half-open window, and the duration bounds.
pub proof fn lemma_list_spans_laws(st: StorageV, q: ParamsV)
    requires
        rows_distinct(st.traces),
    ensures
        list_spans_spec(st, q).len() <= q.limit,
        forall|g: int| 0 <= g < list_spans_spec(st, q).len() ==> (trace_row_of(
            st.traces,
            (#[trigger] list_spans_spec(st, q)[g]).0,
        ) matches Some(t) && row_matches(
            t,
            q.service,
            q.start,
            q.end,
            q.duration_min,
            q.duration_max,
        )),
{
    let ids = selected_ids(st, q);
    let c = cand_rows(st.traces, q.service, q.start, q.end, q.duration_min, q.duration_max);
    lemma_sel_len(c, q.limit);
    lemma_group_ids(st, ids, q.tags);
    assert(ids == sel_spec(c, q.limit));
    assert(ids.len() <= q.limit);
    assert(list_spans_spec(st, q) == group_spans(st, ids, q.tags));
    assert(group_spans(st, ids, q.tags).len() <= ids.len());
    assert forall|g: int| 0 <= g < list_spans_spec(st, q).len() implies (trace_row_of(
        st.traces,
        (#[trigger] list_spans_spec(st, q)[g]).0,
    ) matches Some(t) && row_matches(
        t,
        q.service,
        q.start,
        q.end,
        q.duration_min,
        q.duration_max,
    )) by {
        assert(list_spans_spec(st, q) == group_spans(st, ids, q.tags));
        let x = (group_spans(st, ids, q.tags)[g]).0;
        assert(ids.contains(x));
        lemma_sel_from(c, q.limit, x);
        let j = choose|j: int| 0 <= j < c.len() && (#[trigger] c[j]).0 == x;
        lemma_cand_from(
            st.traces,
            q.service,
            q.start,
            q.end,
            q.duration_min,
            q.duration_max,
            j,
        );
        let i = choose|i: int| 0 <= i < st.traces.len() && (#[trigger] st.traces[i]).trace_id
            == c[j].0 && st.traces[i].timestamp == c[j].1 && row_matches(
            st.traces[i],
            q.service,
            q.start,
            q.end,
            q.duration_min,
            q.duration_max,
        );
        lemma_trace_row_of_index(st.traces, i);
        assert(trace_row_of(st.traces, x) == Some(st.traces[i]));
    }
}

/// The running best never loses to an already-scanned candidate.
proof fn lemma_best_from_ge(c: Seq<(u128, i64)>, i: int, b: int)
    requires
        0 <= b < c.len(),
        0 <= i,
        forall|j: int| 0 <= j < i ==> c[b].1 >= (#[trigger] c[j]).1,
    ensures
        forall|j: int| 0 <= j < c.len() ==> c[best_from(c, i, b)].1 >= (#[trigger] c[j]).1,
    decreases c.len() - i,
{
    if i < c.len() {
        let b2: int = if c[i].1 > c[b].1 {
            i
        } else {
            b
        };
        lemma_best_from_ge(c, i + 1, b2);
    }
}

/// Distinct candidate ids.
pub open spec fn cands_distinct(c: Seq<(u128, i64)>) -> bool {
    forall|i: int, j: int| 0 <= i < j < c.len() ==> (#[trigger] c[i]).0 != (#[trigger] c[j]).0
}

/// When more matching traces exist than the limit, the selected ones are the
/// most recent: any unselected candidate's timestamp is no greater than any
/// selected one's.
pub proof fn lemma_selection_most_recent(c: Seq<(u128, i64)>, limit: nat, i: int, j: int)
    requires
        cands_distinct(c),
        0 <= i < c.len(),
        0 <= j < c.len(),
        sel_spec(c, limit).contains(c[i].0),
        !sel_spec(c, limit).contains(c[j].0),
    ensures
        c[i].1 >= c[j].1,
    decreases limit,
{
    let sel = sel_spec(c, limit);
    if limit > 0 && c.len() > 0 {
        let b = best_from(c, 1, 0);
        lemma_best_from_range(c, 1, 0);
        lemma_best_from_ge(c, 1, 0);
        let c2 = c.remove(b);
        let rest = sel_spec(c2, (limit - 1) as nat);
        assert(sel == seq![c[b].0] + rest);
        assert(j != b) by {
            assert(sel[0] == c[b].0);
        }
        if i == b {
        } else {
            assert(c[i].0 != c[b].0);
            assert(rest.contains(c[i].0)) by {
                let k = choose|k: int| 0 <= k < sel.len() && sel[k] == c[i].0;
                assert(k != 0);
                assert(rest[k - 1] == c[i].0);
            }
            let i2: int = if i < b {
                i
            } else {
                i - 1
            };
            let j2: int = if j < b {
                j
            } else {
                j - 1
            };
            assert(c2[i2] == c[i]);
            assert(c2[j2] == c[j]);
            assert(cands_distinct(c2)) by {
                assert forall|x: int, y: int| 0 <= x < y < c2.len() implies (#[trigger] c2[x]).0
                    != (#[trigger] c2[y]).0 by {
                    let x0: int = if x < b {
                        x
                    } else {
                        x + 1
                    };
                    let y0: int = if y < b {
                        y
                    } else {
                        y + 1
                    };
                    assert(c2[x] == c[x0]);
                    assert(c2[y] == c[y0]);
                }
            }
            assert(!rest.contains(c2[j2].0)) by {
                if rest.contains(c2[j2].0) {
                    let k = choose|k: int| 0 <= k < rest.len() && rest[k] == c2[j2].0;
                    assert(sel[k + 1] == c2[j2].0);
                    assert(sel.contains(c[j].0));
                }
            }
            lemma_selection_most_recent(c2, (limit - 1) as nat, i2, j2);
        }
    }
}

/// A filter with one more entry passes no span a weaker filter refuses.
pub proof fn lemma_matches_monotonic(
    sp: SpanV,
    f: Seq<(Seq<char>, Seq<char>)>,
    e: (Seq<char>, Seq<char>),
)
    requires
        span_matches_filter(sp, f.push(e)),
    ensures
        span_matches_filter(sp, f),
{
    assert forall|k: int| 0 <= k < f.len() implies entry_matched(sp, #[trigger] f[k]) by {
        assert(f.push(e)[k] == f[k]);
    }
}

proof fn lemma_filtered_monotonic(
    rows: Seq<SpanRowV>,
    tid: u128,
    f: Seq<(Seq<char>, Seq<char>)>,
    e: (Seq<char>, Seq<char>),
)
    requires
        filtered_spans(rows, tid, f.push(e)).len() > 0,
    ensures
        filtered_spans(rows, tid, f).len() > 0,
    decreases rows.len(),
{
    if rows.len() > 0 {
        if rows[0].trace_id == tid && span_matches_filter(rows[0].span, f.push(e)) {
            lemma_matches_monotonic(rows[0].span, f, e);
        } else {
            lemma_filtered_monotonic(rows.drop_first(), tid, f, e);
        }
    }
}

/// Adding a tag filter entry returns a subset of the unfiltered result: the
/// selection of traces does not depend on the filter, and every trace listed
/// under the stronger filter is listed under the weaker one.
pub proof fn lemma_filter_monotonic(st: StorageV, q: ParamsV, e: (Seq<char>, Seq<char>), g: int)
    requires
        0 <= g < list_spans_spec(st, ParamsV { tags: q.tags.push(e), ..q }).len(),
    ensures
        exists|h: int| 0 <= h < list_spans_spec(st, q).len() && (#[trigger] list_spans_spec(
            st,
            q,
        )[h]).0 == list_spans_spec(st, ParamsV { tags: q.tags.push(e), ..q })[g].0,
{
    let q2 = ParamsV { tags: q.tags.push(e), ..q };
    assert(selected_ids(st, q2) == selected_ids(st, q));
    let ids = selected_ids(st, q);
    lemma_group_ids(st, ids, q2.tags);
    assert(list_spans_spec(st, q2) == group_spans(st, ids, q2.tags));
    assert(list_spans_spec(st, q) == group_spans(st, ids, q.tags));
    let x = (group_spans(st, ids, q2.tags)[g]).0;
    assert(ids.contains(x));
    let k = choose|k: int| 0 <= k < ids.len() && #[trigger] ids[k] == x;
    assert(group_spans(st, ids, q2.tags)[g].1 == filtered_spans(st.spans, x, q2.tags));
    assert(filtered_spans(st.spans, ids[k], q2.tags).len() > 0);
    lemma_filtered_monotonic(st.spans, ids[k], q.tags, e);
    lemma_group_ids(st, ids, q.tags);
    assert(filtered_spans(st.spans, ids[k], q.tags).len() > 0);
    let h = choose|h: int| 0 <= h < group_spans(st, ids, q.tags).len() && (#[trigger] group_spans(
        st,
        ids,
        q.tags,
    )[h]).0 == ids[k];
    assert((list_spans_spec(st, q)[h]).0 == list_spans_spec(st, q2)[g].0);
}

/// Whether a batch repeats an id pair.
pub open spec fn batch_distinct(sps: Seq<SpanV>) -> bool {
    forall|i: int, j: int| 0 <= i < j < sps.len() ==> !((#[trigger] sps[i]).trace_id
        == (#[trigger] sps[j]).trace_id && sps[i].span_id == sps[j].span_id)
}

proof fn lemma_last_with_ids_distinct(sps: Seq<SpanV>, i: int)
    requires
        batch_distinct(sps),
        0 <= i < sps.len(),
    ensures
        last_with_ids(sps, sps[i].trace_id, sps[i].span_id) == Some(sps[i]),
    decreases sps.len(),
{
    if i == 0 {
        assert forall|j: int| 0 <= j < sps.drop_first().len() implies !((#[trigger] sps
            .drop_first()[j]).trace_id == sps[0].trace_id && sps.drop_first()[j].span_id
            == sps[0].span_id) by {
            assert(sps.drop_first()[j] == sps[j + 1]);
        }
        lemma_last_with_ids_none(sps.drop_first(), sps[0].trace_id, sps[0].span_id);
    } else {
        assert(batch_distinct(sps.drop_first())) by {
            assert forall|x: int, y: int| 0 <= x < y < sps.drop_first().len() implies !((
            #[trigger] sps.drop_first()[x]).trace_id == (#[trigger] sps.drop_first()[y]).trace_id
                && sps.drop_first()[x].span_id == sps.drop_first()[y].span_id) by {
                assert(sps.drop_first()[x] == sps[x + 1]);
                assert(sps.drop_first()[y] == sps[y + 1]);
            }
        }
        assert(sps.drop_first()[i - 1] == sps[i]);
        lemma_last_with_ids_distinct(sps.drop_first(), i - 1);
    }
}

proof fn lemma_last_with_ids_none(sps: Seq<SpanV>, tid: u128, sid: u64)
    requires
        forall|j: int| 0 <= j < sps.len() ==> !((#[trigger] sps[j]).trace_id == tid
            && sps[j].span_id == sid),
    ensures
        last_with_ids(sps, tid, sid) is None,
    decreases sps.len(),
{
    if sps.len() > 0 {
        assert forall|j: int| 0 <= j < sps.drop_first().len() implies !((#[trigger] sps
            .drop_first()[j]).trace_id == tid && sps.drop_first()[j].span_id == sid) by {
            assert(sps.drop_first()[j] == sps[j + 1]);
        }
        lemma_last_with_ids_none(sps.drop_first(), tid, sid);
    }
}

proof fn lemma_span_of_in_filtered(rows: Seq<SpanRowV>, tid: u128, sid: u64)
    requires
        span_of(rows, tid, sid) is Some,
    ensures
        filtered_spans(rows, tid, Seq::empty()).contains(span_of(rows, tid, sid)->Some_0),
    decreases rows.len(),
{
    if rows.len() > 0 {
        if rows[0].trace_id == tid && rows[0].span_id == sid {
            assert(filtered_spans(rows, tid, Seq::empty())[0] == rows[0].span);
        } else if rows[0].trace_id == tid {
            lemma_span_of_in_filtered(rows.drop_first(), tid, sid);
            let v = span_of(rows, tid, sid)->Some_0;
            let k = choose|k: int| 0 <= k < filtered_spans(
                rows.drop_first(),
                tid,
                Seq::empty(),
            ).len() && filtered_spans(rows.drop_first(), tid, Seq::empty())[k] == v;
            assert(filtered_spans(rows, tid, Seq::empty())[k + 1] == v);
        } else {
            lemma_span_of_in_filtered(rows.drop_first(), tid, sid);
        }
    }
}

/// Ingest then fetch: after a batch of distinct spans is saved, fetching any
/// of their traces yields each span exactly as it went in, identifiers,
/// operation name, flags, start, duration, tags and logs alike. The law is
/// stated for batches that repeat no id pair: a repeated pair is upserted to
/// one row, so only its last occurrence survives.
pub proof fn lemma_store_retrieve(st: StorageV, sps: Seq<SpanV>, i: int)
    requires
        batch_distinct(sps),
        0 <= i < sps.len(),
    ensures
        filtered_spans(save_batch(st, sps).spans, sps[i].trace_id, Seq::empty()).contains(sps[i]),
{
    lemma_last_with_ids_distinct(sps, i);
    lemma_save_batch_span_of(st, sps, sps[i].trace_id, sps[i].span_id);
    lemma_span_of_in_filtered(save_batch(st, sps).spans, sps[i].trace_id, sps[i].span_id);
}

} // verus!
