//! The query-string parsers, on the wire shapes the HTTP API receives.

use archer::ids::TraceId;
use archer::models::SignedDuration;
use archer::query;

fn base_query(service: &str) -> archer::TracesQuery {
    archer::TracesQuery {
        service: service.to_owned(),
        operation: String::new(),
        start: None,
        end: None,
        min_duration: None,
        max_duration: None,
        limit: None,
        tags: Vec::new(),
    }
}

#[test]
fn query_deser_trace_ids() {
    let input = format!("traceID={:032x}&traceID={:032x}", 5, 6);
    let result = query::trace_ids(&input).unwrap();
    assert_eq!(result, vec![TraceId::new(5), TraceId::new(6)]);
}

#[test]
fn query_deser_query_basic() {
    let expect = base_query("test");
    let result = query::parse_traces_query("service=test").unwrap();
    assert_eq!(expect, result);
}

#[test]
fn query_deser_query_tags_tuple() {
    let mut expect = base_query("test");
    expect.tags = vec![("a".to_owned(), "1".to_owned())];
    let result = query::parse_traces_query("service=test&tag=a:1").unwrap();
    assert_eq!(expect, result);
}

#[test]
fn query_deser_query_tags_json() {
    let mut expect = base_query("test");
    expect.tags = vec![("a".to_owned(), "1".to_owned())];
    let result = query::parse_traces_query(r#"service=test&tags={"a":"1"}"#).unwrap();
    assert_eq!(expect, result);
}

#[test]
fn query_deser_query_limit() {
    let mut expect = base_query("test");
    expect.limit = Some(5);
    let result = query::parse_traces_query("service=test&limit=5").unwrap();
    assert_eq!(expect, result);
}

#[test]
fn query_deser_query_durations() {
    let mut expect = base_query("test");
    expect.min_duration = Some(SignedDuration { nanos: 10_000_000 });
    expect.max_duration = Some(SignedDuration {
        nanos: (3600 + 12 * 60 + 30 * 60 + 45) * 1_000_000_000 + 120_000_000 + 200_000,
    });
    let result = query::parse_traces_query(
        "service=test&minDuration=10ms&maxDuration=1.2h30m45s120.2ms",
    )
    .unwrap();
    assert_eq!(expect, result);
}

#[test]
fn query_deser_query_all() {
    let mut expect = base_query("test");
    expect.operation = "op1".to_owned();
    expect.start = Some(1_661_232_631_416_000);
    expect.end = Some(1_661_236_231_416_000);
    expect.limit = Some(20);
    expect.tags = vec![
        ("a".to_owned(), "1".to_owned()),
        ("b".to_owned(), "2".to_owned()),
    ];
    let result = query::parse_traces_query(
        "service=test&operation=op1&start=1661232631416000&end=1661236231416000&minDuration&maxDuration&lookback=1h&tag=a:1&limit=20&tags={\"b\":\"2\"}",
    )
    .unwrap();
    assert_eq!(expect, result);
}

#[test]
fn mod_deser_trace_ids() {
    let input = format!("traceID={:032x}&traceID={:032x}", 5, 6);
    let result = query::trace_ids(&input).unwrap();
    assert_eq!(result, vec![TraceId::new(5), TraceId::new(6)]);
}

#[test]
fn mod_deser_query_basic() {
    let expect = base_query("test");
    let result = query::parse_traces_query("service=test").unwrap();
    assert_eq!(expect, result);
}

#[test]
fn mod_deser_query_tags_tuple() {
    let mut expect = base_query("test");
    expect.tags = vec![("a".to_owned(), "1".to_owned())];
    let result = query::parse_traces_query("service=test&tag=a:1").unwrap();
    assert_eq!(expect, result);
}

#[test]
fn mod_deser_query_tags_json() {
    let mut expect = base_query("test");
    expect.tags = vec![("a".to_owned(), "1".to_owned())];
    let result = query::parse_traces_query(r#"service=test&tags={"a":"1"}"#).unwrap();
    assert_eq!(expect, result);
}

#[test]
fn mod_deser_query_limit() {
    let mut expect = base_query("test");
    expect.limit = Some(5);
    let result = query::parse_traces_query("service=test&limit=5").unwrap();
    assert_eq!(expect, result);
}

#[test]
fn mod_deser_query_durations() {
    let mut expect = base_query("test");
    expect.min_duration = Some(SignedDuration { nanos: 10_000_000 });
    expect.max_duration = Some(SignedDuration {
        nanos: (3600 + 12 * 60 + 30 * 60 + 45) * 1_000_000_000 + 120_000_000 + 200_000,
    });
    let result = query::parse_traces_query(
        "service=test&minDuration=10ms&maxDuration=1.2h30m45s120.2ms",
    )
    .unwrap();
    assert_eq!(expect, result);
}

#[test]
fn mod_deser_query_all() {
    let mut expect = base_query("test");
    expect.operation = "op1".to_owned();
    expect.start = Some(1_661_232_631_416_000);
    expect.end = Some(1_661_236_231_416_000);
    expect.limit = Some(20);
    expect.tags = vec![
        ("a".to_owned(), "1".to_owned()),
        ("b".to_owned(), "2".to_owned()),
    ];
    let result = query::parse_traces_query(
        "service=test&operation=op1&start=1661232631416000&end=1661236231416000&minDuration&maxDuration&lookback=1h&tag=a:1&limit=20&tags={\"b\":\"2\"}",
    )
    .unwrap();
    assert_eq!(expect, result);
}

#[test]
fn duration_simple_milliseconds() {
    let d = query::duration_human("10ms").unwrap().unwrap();
    assert_eq!(d.nanos, 10_000_000);
}

#[test]
fn duration_combined_groups() {
    let d = query::duration_human("1.2h30m45s120.2ms").unwrap().unwrap();
    assert_eq!(
        d.nanos,
        (3600 + 12 * 60 + 30 * 60 + 45) * 1_000_000_000 + 120_000_000 + 200_000
    );
}

#[test]
fn duration_negative() {
    let d = query::duration_human("-5s").unwrap().unwrap();
    assert_eq!(d.nanos, -5_000_000_000);
}

#[test]
fn duration_empty_is_unset() {
    assert_eq!(query::duration_human("").unwrap(), None);
}

#[test]
fn duration_bad_unit_is_error() {
    assert!(query::duration_human("5x").is_err());
}

#[test]
fn duration_micro_unit_both_spellings() {
    assert_eq!(query::duration_human("7us").unwrap().unwrap().nanos, 7_000);
    assert_eq!(query::duration_human("7µs").unwrap().unwrap().nanos, 7_000);
}

#[test]
fn trace_ids_reject_unknown_key_and_zero() {
    assert!(query::trace_ids("traceID=5&other=1").is_err());
    assert!(query::trace_ids("").is_err());
    assert!(query::trace_ids(&format!("traceID={:032x}", 0)).is_err());
}

#[test]
fn duplicate_scalar_parameter_is_error() {
    assert!(query::parse_traces_query("service=a&service=b").is_err());
}

#[test]
fn missing_service_is_error() {
    assert!(query::parse_traces_query("operation=x").is_err());
}

#[test]
fn into_db_defaults_and_window() {
    let q = query::parse_traces_query("service=svc").unwrap();
    let now = 1_000_000_000_000i64;
    let p = q.into_db(now).unwrap();
    assert_eq!(p.start, now - 172_800_000_000);
    assert_eq!(p.end, now);
    assert_eq!(p.limit, 20);
    assert_eq!(p.operation, None);

    let q2 = query::parse_traces_query("service=svc&start=9&end=3").unwrap();
    assert!(q2.into_db(now).is_err());
}

#[test]
fn tags_json_parse_errors() {
    assert!(archer::api::tags(r#"{"a":"1","b":"2"}"#).is_ok());
    assert!(archer::api::tags(r#"{"a":1}"#).is_err());
    assert!(archer::api::tags("no json").is_err());
}
