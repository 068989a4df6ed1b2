//! The endpoint decisions, the client layer, and the OTLP adapter.

use archer::api;
use archer::client;
use archer::client::ActorAction;
use archer::client::ActorEvent;
use archer::client::ConnState;
use archer::api::AssetOutcome;
use archer::api::TracesRequest;
use archer::jsonout;
use archer::otlp;
use archer::proto;

#[test]
fn otlp_content_type_check() {
    assert!(api::content_type_is_protobuf("application/x-protobuf"));
    assert!(api::content_type_is_protobuf("application/x-protobuf; charset=utf-8"));
    assert!(api::content_type_is_protobuf("Application/X-Protobuf"));
    assert!(!api::content_type_is_protobuf("application/json"));
    assert!(!api::content_type_is_protobuf(""));
}

fn otlp_span(trace_id: u128, span_id: u64) -> otlp::Span {
    otlp::Span {
        trace_id,
        span_id,
        parent_span_id: 0,
        name: "query".to_owned(),
        kind: otlp::SpanKind::Server,
        trace_state: String::new(),
        start_time_unix_nano: 1_000_000_000,
        end_time_unix_nano: 1_000_000_250,
        attributes: vec![otlp::KeyValue {
            key: "nested".to_owned(),
            value: Some(otlp::AnyValue::Arr(vec![
                otlp::AnyValue::Int(1),
                otlp::AnyValue::Str("a\"b".to_owned()),
                otlp::AnyValue::Bool(true),
            ])),
        }],
        events: Vec::new(),
        links: Vec::new(),
        status: otlp::Status {
            code: otlp::StatusCode::Failed,
            message: "bad".to_owned(),
        },
    }
}

#[test]
fn otlp_zero_trace_id_is_replaced() {
    let req = vec![otlp::ResourceSpans {
        resource: None,
        scope_spans: vec![otlp::ScopeSpans {
            scope: None,
            spans: vec![otlp_span(0, 0)],
        }],
    }];
    let spans = otlp::convert_resource_spans(req).unwrap();
    assert_eq!(spans.len(), 1);
    assert_ne!(spans[0].trace_id.get(), 0);
    assert_ne!(spans[0].span_id.get(), 0);
    assert_eq!(spans[0].process.service, "OTLPResourceNoServiceName");

    let mut st = archer::Storage::new();
    st.save_spans(&spans).unwrap();
    assert_eq!(
        st.list_services(),
        vec!["OTLPResourceNoServiceName".to_owned()]
    );
}

#[test]
fn otlp_enrichment_tags_and_json_values() {
    let spans = otlp::convert_resource_spans(vec![otlp::ResourceSpans {
        resource: Some(otlp::Resource {
            attributes: vec![otlp::KeyValue {
                key: "service.name".to_owned(),
                value: Some(otlp::AnyValue::Str("svc".to_owned())),
            }],
        }),
        scope_spans: vec![otlp::ScopeSpans {
            scope: Some(otlp::InstrumentationScope {
                name: "lib".to_owned(),
                version: "1.2".to_owned(),
            }),
            spans: vec![otlp_span(5, 9)],
        }],
    }])
    .unwrap();
    assert_eq!(spans.len(), 1);
    let sp = &spans[0];
    assert_eq!(sp.process.service, "svc");
    let get = |key: &str| -> &archer::TagValue {
        &sp.tags.iter().find(|t| t.key == key).unwrap().value
    };
    assert_eq!(get("span.kind"), &archer::TagValue::String("server".to_owned()));
    assert_eq!(
        get("otel.status_code"),
        &archer::TagValue::String("ERROR".to_owned())
    );
    assert_eq!(get("error"), &archer::TagValue::Bool(true));
    assert_eq!(
        get("otel.status_description"),
        &archer::TagValue::String("bad".to_owned())
    );
    assert_eq!(get("otel.library.name"), &archer::TagValue::String("lib".to_owned()));
    assert_eq!(
        get("otel.library.version"),
        &archer::TagValue::String("1.2".to_owned())
    );
    assert_eq!(
        get("nested"),
        &archer::TagValue::String("[1,\"a\\\"b\",true]".to_owned())
    );
}

#[test]
fn otlp_kvlist_renders_as_compact_json_object() {
    let v = otlp::AnyValue::Kvlist(vec![
        ("a".to_owned(), otlp::AnyValue::Int(-3)),
        ("b".to_owned(), otlp::AnyValue::Bytes(vec![1, 2])),
    ]);
    assert_eq!(otlp::render_any(&v), "{\"a\":-3,\"b\":[1,2]}");
}

#[test]
fn envelope_shapes() {
    let resp: jsonout::ApiResponse<u32> = jsonout::ApiResponse::Data(vec![1, 2, 3]);
    assert_eq!(resp.status_code(), 200);
    let env = resp.serialize();
    assert_eq!(env.total, 3);
    assert_eq!(env.limit, 0);
    assert_eq!(env.offset, 0);
    assert!(env.errors.is_none());

    let err: jsonout::ApiResponse<u32> = jsonout::ApiResponse::Error(jsonout::ApiError {
        code: 404,
        msg: "trace ID not found".to_owned(),
        trace_id: None,
    });
    assert_eq!(err.status_code(), 404);
    let env = err.serialize();
    assert_eq!(env.total, 0);
    assert_eq!(env.errors.unwrap()[0].code, 404);

    assert_eq!(api::metrics_status(), 501);
    match api::dependencies() {
        jsonout::ApiResponse::Data(d) => assert!(d.is_empty()),
        jsonout::ApiResponse::Error(_) => panic!("dependencies must be empty data"),
    }
}

#[test]
fn timings_fold_enter_and_exit() {
    let mut t = client::Timings::new(100);
    t.on_enter(130);
    assert_eq!((t.busy, t.idle, t.last), (0, 30, 130));
    t.on_exit(150);
    assert_eq!((t.busy, t.idle, t.last), (20, 30, 150));
    t.on_enter(151);
    assert_eq!((t.busy, t.idle, t.last), (20, 31, 151));
}

#[test]
fn span_builder_and_transport_payload() {
    let root = client::SpanBuilder::new(None, "root".to_owned(), 1_000);
    let child = client::SpanBuilder::new(
        Some((root.trace_id, root.span_id)),
        "child".to_owned(),
        2_000,
    );
    assert_eq!(child.trace_id, root.trace_id);
    let mut child = child;
    child.record(archer::Tag {
        key: "k".to_owned(),
        value: archer::TagValue::String("v".to_owned()),
    });
    let timings = client::Timings {
        busy: 7,
        idle: 3,
        last: 0,
    };
    let sp = client::build_span(child, timings, 2_500, "app".to_owned(), "0.1".to_owned())
        .unwrap();
    assert_eq!(sp.duration.nanos, 500);
    assert_eq!(sp.references.len(), 1);
    assert_eq!(sp.references[0].span_id, root.span_id);
    assert_eq!(sp.tags[0].key, "busy_ns");
    assert_eq!(sp.tags[0].value, archer::TagValue::I64(7));
    assert_eq!(sp.tags[1].key, "idle_ns");
    assert_eq!(sp.process.tags[0].key, "service.version");

    // The quiver stream payload is the compressed stable encoding: the
    // listener side decodes it back exactly.
    let payload = archer::codec::encode_payload(&sp).unwrap();
    let back = archer::codec::decode_payload(&payload).unwrap();
    assert_eq!(back, sp);
}

#[test]
fn actor_state_machine_transitions() {
    assert_eq!(
        client::handle_message(ConnState::Disconnected, ActorEvent::SendRequested),
        (ConnState::Disconnected, ActorAction::Connect)
    );
    assert_eq!(
        client::handle_message(ConnState::Disconnected, ActorEvent::ConnectSucceeded),
        (ConnState::Connected, ActorAction::SendOverStream)
    );
    assert_eq!(
        client::handle_message(ConnState::Connected, ActorEvent::SendFailed),
        (ConnState::Disconnected, ActorAction::Idle)
    );
    assert_eq!(
        client::handle_message(ConnState::Connected, ActorEvent::ShutdownRequested),
        (ConnState::Draining, ActorAction::Drain)
    );
    assert_eq!(
        client::handle_message(ConnState::Draining, ActorEvent::DrainFinished),
        (ConnState::Closed, ActorAction::CloseConnection)
    );
    assert_eq!(
        client::handle_message(ConnState::Closed, ActorEvent::SendRequested),
        (ConnState::Closed, ActorAction::Idle)
    );
}

#[test]
fn layer_plumbing_helpers() {
    assert_eq!(client::parse_thread_id("ThreadId(42)"), Some(42));
    assert_eq!(client::parse_thread_id("nope"), None);
    assert!(client::skip_target("quinn::endpoint", "tracer"));
    assert!(client::skip_target("tracer::layer", "tracer"));
    assert!(!client::skip_target("myapp::module", "tracer"));

    let b = client::Builder::new();
    assert_eq!(b.build(), Err(client::BuildLayerError::MissingCertificate));
    let b = client::Builder::new()
        .with_server_cert("PEM".to_owned())
        .with_server_name("localhost".to_owned())
        .with_resource("app".to_owned(), "0.1".to_owned());
    assert!(b.build().is_ok());
}

#[test]
fn thrift_parent_reference_synthesis() {
    let wire = archer::thrift::Span {
        trace_id_low: 5,
        trace_id_high: 0,
        span_id: 9,
        parent_span_id: 3,
        operation_name: "x".to_owned(),
        references: None,
        flags: 1,
        start_time: 1_000_000,
        duration: 250,
        tags: None,
        logs: None,
    };
    let p = archer::thrift::Process {
        service_name: "svc".to_owned(),
        tags: None,
    };
    let sp = archer::thrift::span(wire, p).unwrap();
    assert_eq!(sp.references.len(), 1);
    assert_eq!(sp.references[0].ty, archer::RefType::ChildOf);
    assert_eq!(sp.references[0].span_id.get(), 3);
    assert_eq!(sp.references[0].trace_id.get(), 5);
}

#[test]
fn thrift_bad_timestamp_and_empty_names_are_rejected() {
    let mut wire = archer::thrift::Span {
        trace_id_low: 5,
        trace_id_high: 0,
        span_id: 9,
        parent_span_id: 0,
        operation_name: "x".to_owned(),
        references: None,
        flags: 1,
        start_time: i64::MAX,
        duration: 250,
        tags: None,
        logs: None,
    };
    let p = || archer::thrift::Process {
        service_name: "svc".to_owned(),
        tags: None,
    };
    let clone_span = |w: &archer::thrift::Span| archer::thrift::Span {
        trace_id_low: w.trace_id_low,
        trace_id_high: w.trace_id_high,
        span_id: w.span_id,
        parent_span_id: w.parent_span_id,
        operation_name: w.operation_name.clone(),
        references: None,
        flags: w.flags,
        start_time: w.start_time,
        duration: w.duration,
        tags: None,
        logs: None,
    };
    assert_eq!(
        archer::thrift::span(clone_span(&wire), p()),
        Err(archer::thrift::ConvertError::BadTimestamp)
    );
    wire.start_time = 1_000_000;
    wire.operation_name = String::new();
    assert_eq!(
        archer::thrift::span(clone_span(&wire), p()),
        Err(archer::thrift::ConvertError::EmptyOperation)
    );
    wire.operation_name = "x".to_owned();
    let empty = archer::thrift::Process {
        service_name: String::new(),
        tags: None,
    };
    assert_eq!(
        archer::thrift::span(clone_span(&wire), empty),
        Err(archer::thrift::ConvertError::EmptyService)
    );
}

#[test]
fn otlp_events_become_logs() {
    let mut wire = otlp_span(5, 9);
    wire.events = vec![otlp::Event {
        time_unix_nano: 1_000_000_100,
        name: "checkpoint".to_owned(),
        attributes: vec![otlp::KeyValue {
            key: "n".to_owned(),
            value: Some(otlp::AnyValue::Int(3)),
        }],
    }];
    let sp = otlp::span(
        wire,
        String::new(),
        String::new(),
        archer::Process {
            service: "svc".to_owned(),
            tags: Vec::new(),
        },
    )
    .unwrap();
    assert_eq!(sp.logs.len(), 1);
    assert_eq!(sp.logs[0].timestamp.nanos, 1_000_000_100);
    assert_eq!(sp.logs[0].fields.len(), 2);
    assert_eq!(sp.logs[0].fields[0].key, "event");
    assert_eq!(
        sp.logs[0].fields[0].value,
        archer::TagValue::String("checkpoint".to_owned())
    );
    assert_eq!(sp.logs[0].fields[1].key, "n");
    assert_eq!(sp.logs[0].fields[1].value, archer::TagValue::I64(3));
}

#[test]
fn otlp_resource_extracts_and_removes_service_name() {
    let p = otlp::resource(Some(otlp::Resource {
        attributes: vec![
            otlp::KeyValue {
                key: "host".to_owned(),
                value: Some(otlp::AnyValue::Str("box1".to_owned())),
            },
            otlp::KeyValue {
                key: "service.name".to_owned(),
                value: Some(otlp::AnyValue::Str("svc".to_owned())),
            },
        ],
    }));
    assert_eq!(p.service, "svc");
    assert_eq!(p.tags.len(), 1);
    assert_eq!(p.tags[0].key, "host");

    // A present but attribute-less resource falls back like a missing one.
    let p = otlp::resource(Some(otlp::Resource {
        attributes: Vec::new(),
    }));
    assert_eq!(p.service, "OTLPResourceNoServiceName");
    assert!(p.tags.is_empty());
}

#[test]
fn classify_traces_request_shapes() {
    match archer::api::classify_traces_request(&format!("traceID={:032x}&service=x", 5)) {
        TracesRequest::Conflicting => {}
        _ => panic!("both shapes must conflict"),
    }
    match archer::api::classify_traces_request(&format!("traceID={:032x}", 5)) {
        TracesRequest::ByIds(ids) => assert_eq!(ids, vec![archer::TraceId::new(5)]),
        _ => panic!("a pure id list must be an id lookup"),
    }
    match archer::api::classify_traces_request("service=svc") {
        TracesRequest::ByQuery(q) => assert_eq!(q.service, "svc"),
        _ => panic!("a predicate query must parse"),
    }
    match archer::api::classify_traces_request("operation=x") {
        TracesRequest::Invalid(_) => {}
        _ => panic!("a query without a service is invalid"),
    }
    let err = archer::api::conflicting_query();
    assert_eq!(err.code, 400);
    assert_eq!(err.msg, "can't search by trace IDs and query at the same time");
}

#[test]
fn make_log_leads_with_level_and_target() {
    let l = client::make_log(
        1_500,
        client::LogLevel::Warn,
        "mymod".to_owned(),
        Some(client::Location {
            filepath: "src/x.rs".to_owned(),
            namespace: "mymod".to_owned(),
            lineno: 7,
        }),
        vec![archer::Tag {
            key: "k".to_owned(),
            value: archer::TagValue::Bool(false),
        }],
    )
    .unwrap();
    assert_eq!(l.timestamp.nanos, 1_500);
    let keys: Vec<&str> = l.fields.iter().map(|t| t.key.as_ref()).collect();
    assert_eq!(
        keys,
        vec!["level", "target", "code.filepath", "code.namespace", "code.lineno", "k"]
    );
    assert_eq!(
        l.fields[0].value,
        archer::TagValue::String("WARN".to_owned())
    );
    assert_eq!(
        l.fields[1].value,
        archer::TagValue::String("mymod".to_owned())
    );
}

#[test]
fn proto_span_preserves_fields() {
    let wire = proto::ProtoSpan {
        trace_id: {
            let mut b = vec![0u8; 16];
            b[15] = 5;
            b
        },
        span_id: {
            let mut b = vec![0u8; 8];
            b[7] = 9;
            b
        },
        operation_name: "x".to_owned(),
        references: vec![proto::ProtoSpanRef {
            ref_type: proto::ProtoRefType::FollowsFrom,
            trace_id: vec![0u8; 3],
            span_id: Vec::new(),
        }],
        flags: 1,
        start_time: Some(proto::ProtoTimestamp {
            seconds: 1,
            nanos: 250,
        }),
        duration: Some(proto::ProtoDuration {
            seconds: 0,
            nanos: 250_000,
        }),
        tags: vec![proto::ProtoKeyValue {
            key: "f".to_owned(),
            v_type: proto::ProtoValueType::Float64,
            v_str: String::new(),
            v_bool: false,
            v_int64: 0,
            v_float64: 0x3FF0000000000000,
            v_binary: Vec::new(),
        }],
        logs: vec![proto::ProtoLog {
            timestamp: None,
            fields: Vec::new(),
        }],
        process: Some(proto::ProtoProcess {
            service_name: "svc".to_owned(),
            tags: Vec::new(),
        }),
    };
    let sp = proto::proto_span(wire).unwrap();
    assert_eq!(sp.trace_id.get(), 5);
    assert_eq!(sp.span_id.get(), 9);
    assert_eq!(sp.operation_name, "x");
    assert_eq!(sp.start.nanos, 1_000_000_250);
    assert_eq!(sp.duration.nanos, 250_000);
    assert_eq!(sp.tags[0].value, archer::TagValue::F64(0x3FF0000000000000));
    // A wrong-length reference id is replaced with a fresh non-zero one.
    assert_ne!(sp.references[0].trace_id.get(), 0);
    assert_ne!(sp.references[0].span_id.get(), 0);
    assert_eq!(sp.logs[0].timestamp.nanos, 0);
    assert_eq!(sp.process.service, "svc");
}

#[test]
fn proto_span_rejects_missing_process() {
    let wire = proto::ProtoSpan {
        trace_id: Vec::new(),
        span_id: Vec::new(),
        operation_name: "x".to_owned(),
        references: Vec::new(),
        flags: 0,
        start_time: None,
        duration: None,
        tags: Vec::new(),
        logs: Vec::new(),
        process: None,
    };
    assert_eq!(
        proto::proto_span(wire),
        Err(archer::thrift::ConvertError::MissingProcess)
    );
}

#[test]
fn limit_must_be_positive() {
    assert!(archer::query::parse_traces_query("service=svc&limit=0").is_err());
    assert!(archer::query::parse_traces_query("service=svc&limit=1").is_ok());
}

#[test]
fn asset_resolution_and_etag() {
    let assets = vec![
        archer::api::Asset {
            path: "/index.html".to_owned(),
            mime: "text/html".to_owned(),
            etag: "W/\"11111111111111111111111111111111\"".to_owned(),
        },
        archer::api::Asset {
            path: "/app.js".to_owned(),
            mime: "application/javascript".to_owned(),
            etag: "W/\"22222222222222222222222222222222\"".to_owned(),
        },
    ];
    assert_eq!(
        archer::api::resolve_asset(&assets, "/app.js", None),
        AssetOutcome::Serve(1)
    );
    // A miss falls back to the index.
    assert_eq!(
        archer::api::resolve_asset(&assets, "/nowhere", None),
        AssetOutcome::Serve(0)
    );
    // A matching entity tag answers without a body.
    let held = assets[1].etag.clone();
    assert_eq!(
        archer::api::resolve_asset(&assets, "/app.js", Some(&held)),
        AssetOutcome::NotModified(1)
    );
    let stale = "W/\"33333333333333333333333333333333\"".to_owned();
    assert_eq!(
        archer::api::resolve_asset(&assets, "/app.js", Some(&stale)),
        AssetOutcome::Serve(1)
    );
    let empty: Vec<archer::api::Asset> = Vec::new();
    assert_eq!(
        archer::api::resolve_asset(&empty, "/x", None),
        AssetOutcome::NotFound
    );
}
