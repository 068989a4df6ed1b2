//! The storage engine, the payload codec and the adapters, end to end.

use archer::codec;
use archer::ids::{SpanId, TraceId};
use archer::models::{
    Log, Process, RefType, Reference, SignedDuration, Span, Tag, TagValue, Timestamp,
};
use archer::storage::{ListSpansParams, Storage};
use archer::thrift;

fn span_for(tid: u128, sid: u64, service: &str, start_us: i64, dur_us: i64) -> Span {
    Span {
        trace_id: TraceId::new(tid),
        span_id: SpanId::new(sid),
        operation_name: "op".to_owned(),
        flags: 1,
        references: vec![Reference {
            ty: RefType::ChildOf,
            trace_id: TraceId::new(tid),
            span_id: SpanId::new(77),
        }],
        start: Timestamp {
            nanos: start_us as i128 * 1000,
        },
        duration: SignedDuration {
            nanos: dur_us as i128 * 1000,
        },
        tags: vec![
            Tag {
                key: "answer".to_owned(),
                value: TagValue::I64(42),
            },
            Tag {
                key: "blob".to_owned(),
                value: TagValue::Binary(vec![0xde, 0xad]),
            },
            Tag {
                key: "ok".to_owned(),
                value: TagValue::Bool(true),
            },
            Tag {
                key: "ratio".to_owned(),
                value: TagValue::F64(0x3FF0000000000000),
            },
        ],
        logs: vec![Log {
            timestamp: Timestamp { nanos: 1_500 },
            fields: vec![Tag {
                key: "event".to_owned(),
                value: TagValue::String("boom".to_owned()),
            }],
        }],
        process: Process {
            service: service.to_owned(),
            tags: Vec::new(),
        },
    }
}

fn params(service: &str, start: i64, end: i64, limit: usize) -> ListSpansParams {
    ListSpansParams {
        service: service.to_owned(),
        operation: None,
        start,
        end,
        duration_min: None,
        duration_max: None,
        limit,
        tags: Vec::new(),
    }
}

#[test]
fn codec_round_trip_preserves_everything() {
    let sp = span_for(5, 9, "svc", 1_000_000, 250);
    let bytes = codec::encode_span(&sp);
    let back = codec::decode_span(&bytes).unwrap();
    assert_eq!(sp, back);

    let payload = codec::encode_payload(&sp).unwrap();
    assert_ne!(payload, bytes);
    let back2 = codec::decode_payload(&payload).unwrap();
    assert_eq!(sp, back2);
}

#[test]
fn codec_rejects_trailing_bytes() {
    let sp = span_for(5, 9, "svc", 1_000_000, 250);
    let mut bytes = codec::encode_span(&sp);
    bytes.push(0);
    assert!(codec::decode_span(&bytes).is_none());
}

#[test]
fn trace_id_hex_round_trip() {
    let id = TraceId::new(5);
    let text = id.format();
    assert_eq!(text, "00000000000000000000000000000005");
    assert_eq!(TraceId::parse(&text).unwrap(), id);

    let sid = SpanId::new(9);
    assert_eq!(sid.format(), "0000000000000009");
    assert_eq!(SpanId::parse("0000000000000009").unwrap(), sid);

    assert_eq!(
        TraceId::parse("00000000000000000000000000000000"),
        Err(archer::ParseIdError::Zero)
    );
    assert_eq!(TraceId::parse("zz"), Err(archer::ParseIdError::ParseInt));
    assert_eq!(TraceId::parse(""), Err(archer::ParseIdError::ParseInt));
}

#[test]
fn zero_wire_ids_become_nonzero() {
    let t = thrift::Span {
        trace_id_low: 0,
        trace_id_high: 0,
        span_id: 0,
        parent_span_id: 0,
        operation_name: "x".to_owned(),
        references: None,
        flags: 1,
        start_time: 1_000_000,
        duration: 250,
        tags: None,
        logs: None,
    };
    let p = thrift::Process {
        service_name: "svc".to_owned(),
        tags: None,
    };
    let sp = thrift::span(t, p).unwrap();
    assert_ne!(sp.trace_id.get(), 0);
    assert_ne!(sp.span_id.get(), 0);
}

#[test]
fn save_then_find_round_trip() {
    let mut st = Storage::new();
    let sp = span_for(5, 9, "svc", 1_000_000, 250);
    st.save_spans(&vec![sp.clone()]).unwrap();
    let got = st.find_trace(TraceId::new(5));
    assert_eq!(got, vec![sp]);
    assert!(st.find_trace(TraceId::new(6)).is_empty());
}

#[test]
fn list_spans_respects_window_and_service() {
    let mut st = Storage::new();
    st.save_spans(&vec![span_for(1, 1, "svc", 100, 10)]).unwrap();
    st.save_spans(&vec![span_for(2, 2, "svc", 200, 10)]).unwrap();
    st.save_spans(&vec![span_for(3, 3, "other", 150, 10)]).unwrap();

    let r = st.list_spans(&params("svc", 100, 201, 10));
    let ids: Vec<u128> = r.iter().map(|g| g.0.get()).collect();
    assert_eq!(ids.len(), 2);
    assert!(ids.contains(&1) && ids.contains(&2));

    // The window is half-open: a start equal to `end` is out.
    let r = st.list_spans(&params("svc", 100, 200, 10));
    let ids: Vec<u128> = r.iter().map(|g| g.0.get()).collect();
    assert_eq!(ids, vec![1]);
}

#[test]
fn list_spans_limit_keeps_most_recent() {
    let mut st = Storage::new();
    st.save_spans(&vec![span_for(1, 1, "svc", 1_000_000, 10)]).unwrap();
    st.save_spans(&vec![span_for(2, 2, "svc", 3_601_000_000, 10)]).unwrap();
    let r = st.list_spans(&params("svc", 0, 4_000_000_000, 1));
    assert_eq!(r.len(), 1);
    assert_eq!(r[0].0.get(), 2);
}

#[test]
fn tag_filter_returns_subset() {
    let mut st = Storage::new();
    st.save_spans(&vec![span_for(1, 1, "svc", 100, 10)]).unwrap();
    st.save_spans(&vec![span_for(2, 2, "svc", 200, 10)]).unwrap();

    let all = st.list_spans(&params("svc", 0, 1_000, 10));
    let mut p = params("svc", 0, 1_000, 10);
    p.tags = vec![("answer".to_owned(), "42".to_owned())];
    let filtered = st.list_spans(&p);
    assert!(filtered.len() <= all.len());
    for g in &filtered {
        assert!(all.iter().any(|h| h.0 == g.0));
    }

    let mut none = params("svc", 0, 1_000, 10);
    none.tags = vec![("answer".to_owned(), "43".to_owned())];
    assert!(st.list_spans(&none).is_empty());

    // Booleans compare as text, binary as lowercase hex.
    let mut by_bool = params("svc", 0, 1_000, 10);
    by_bool.tags = vec![("ok".to_owned(), "true".to_owned())];
    assert_eq!(st.list_spans(&by_bool).len(), 2);
    let mut by_blob = params("svc", 0, 1_000, 10);
    by_blob.tags = vec![("blob".to_owned(), "dead".to_owned())];
    assert_eq!(st.list_spans(&by_blob).len(), 2);
}

#[test]
fn concurrent_saves_see_both_traces() {
    let mut st = Storage::new();
    st.save_spans(&vec![span_for(1, 1, "svc", 100, 10)]).unwrap();
    st.save_spans(&vec![span_for(2, 2, "svc", 200, 10)]).unwrap();
    assert!(!st.find_trace(TraceId::new(1)).is_empty());
    assert!(!st.find_trace(TraceId::new(2)).is_empty());
}

#[test]
fn same_trace_saves_converge_to_min_and_max() {
    let mut st = Storage::new();
    st.save_spans(&vec![span_for(7, 1, "svc", 500, 30)]).unwrap();
    st.save_spans(&vec![span_for(7, 2, "svc", 100, 90)]).unwrap();
    // The summary row keeps the earliest start: only a window covering it
    // lists the trace, and the duration bounds span both writes.
    let r = st.list_spans(&params("svc", 100, 101, 10));
    assert_eq!(r.len(), 1);
    assert_eq!(r[0].0.get(), 7);
    assert_eq!(r[0].1.len(), 2);
    let mut p = params("svc", 0, 1_000, 10);
    p.duration_min = Some(90);
    assert_eq!(st.list_spans(&p).len(), 1);
    let mut p = params("svc", 0, 1_000, 10);
    p.duration_min = Some(91);
    assert!(st.list_spans(&p).is_empty());
    let mut p = params("svc", 0, 1_000, 10);
    p.duration_max = Some(30);
    assert_eq!(st.list_spans(&p).len(), 1);
}

#[test]
fn services_and_operations_are_sorted_and_distinct() {
    let mut st = Storage::new();
    st.save_spans(&vec![span_for(1, 1, "zeta", 100, 10)]).unwrap();
    st.save_spans(&vec![span_for(2, 2, "alpha", 100, 10)]).unwrap();
    st.save_spans(&vec![span_for(3, 3, "alpha", 100, 10)]).unwrap();
    let services = st.list_services();
    assert_eq!(services, vec!["alpha".to_owned(), "zeta".to_owned()]);
    let ops = st.list_operations(&"alpha".to_owned());
    assert_eq!(ops, vec!["op".to_owned()]);
}

#[test]
fn ingest_thrift_then_fetch_preserves_fields() {
    let wire = thrift::Span {
        trace_id_low: 5,
        trace_id_high: 0,
        span_id: 9,
        parent_span_id: 0,
        operation_name: "x".to_owned(),
        references: None,
        flags: 1,
        start_time: 1_000_000,
        duration: 250,
        tags: Some(vec![thrift::Tag {
            key: "k".to_owned(),
            v_type: thrift::TagType::Long,
            v_str: None,
            v_double: None,
            v_bool: None,
            v_long: Some(7),
            v_binary: None,
        }]),
        logs: None,
    };
    let process = thrift::Process {
        service_name: "svc".to_owned(),
        tags: None,
    };
    let sp = thrift::span(wire, process).unwrap();
    let mut st = Storage::new();
    st.save_spans(&vec![sp]).unwrap();

    let got = st.find_trace(TraceId::parse("00000000000000000000000000000005").unwrap());
    assert_eq!(got.len(), 1);
    let sp = &got[0];
    assert_eq!(sp.span_id.format(), "0000000000000009");
    assert_eq!(sp.operation_name, "x");
    assert_eq!(sp.start.nanos, 1_000_000_000);
    assert_eq!(sp.duration.nanos, 250_000);
    assert_eq!(sp.tags.len(), 1);
    assert_eq!(sp.tags[0].key, "k");
    assert_eq!(sp.tags[0].value, TagValue::I64(7));

    let ui = archer::jsonout::trace(sp.trace_id, got.clone());
    assert_eq!(ui.spans.len(), 1);
    assert_eq!(ui.spans[0].start_time, 1_000_000);
    assert_eq!(ui.spans[0].duration, 250);
    assert_eq!(ui.spans[0].process_id.id, "p1");
    assert_eq!(ui.processes.len(), 1);
    assert_eq!(ui.processes[0].0, "p1");
    assert_eq!(ui.processes[0].1.service_name, "svc");
}

#[test]
fn trace_ids_query_not_found_names_first_id() {
    // A backend holding only id 5, asked for ids 5 and 6, answers 404 and
    // names the first requested id.
    let mut st = Storage::new();
    st.save_spans(&vec![span_for(5, 9, "svc", 100, 10)]).unwrap();
    let ids =
        archer::query::trace_ids(&format!("traceID={:032x}&traceID={:032x}", 5, 6)).unwrap();
    match archer::api::trace_ids_response(&st, &ids) {
        archer::jsonout::ApiResponse::Error(e) => {
            assert_eq!(e.code, 404);
            assert_eq!(
                e.trace_id.unwrap().format(),
                "00000000000000000000000000000005"
            );
        }
        archer::jsonout::ApiResponse::Data(_) => panic!("a missing id must answer 404"),
    }

    // With every requested id held, the traces come back.
    st.save_spans(&vec![span_for(6, 10, "svc", 100, 10)]).unwrap();
    match archer::api::trace_ids_response(&st, &ids) {
        archer::jsonout::ApiResponse::Data(d) => {
            assert_eq!(d.len(), 2);
            assert_eq!(d[0].trace_id.get(), 5);
            assert_eq!(d[1].trace_id.get(), 6);
        }
        archer::jsonout::ApiResponse::Error(_) => panic!("all ids held must answer data"),
    }
}

#[test]
fn payload_codec_uses_real_compression() {
    // A long repetitive operation name compresses well: the payload must be
    // smaller than the raw encoding, so the compressor really ran.
    let mut sp = span_for(5, 9, "svc", 1_000_000, 250);
    sp.operation_name = "abcdefgh".repeat(512);
    let raw = codec::encode_span(&sp);
    let payload = codec::encode_payload(&sp).unwrap();
    assert!(payload.len() < raw.len());
    assert_eq!(codec::decode_payload(&payload).unwrap(), sp);
}
