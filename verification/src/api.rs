//! Decisions of the HTTP endpoints: which request shape is answered how.
//!
//! The network edge parses requests and writes responses; what a request
//! means — which content type the OTLP ingest accepts, how the traces
//! endpoint treats its two query shapes, what an unknown trace id answers —
//! is decided here.

use vstd::prelude::*;

verus! {

use crate::ids::TraceId;
use crate::jsonout::ApiError;
use crate::jsonout::ApiResponse;
use crate::jsonout::Trace;
use crate::query::QueryError;
use crate::storage::Storage;

/// The Jaeger query API's port.
pub const QUERY_HTTP_PORT: u16 = 16686;

/// The Jaeger collector's HTTP port.
pub const JAEGER_COLLECTOR_HTTP_PORT: u16 = 14268;

/// The Jaeger collector's gRPC port.
pub const JAEGER_COLLECTOR_GRPC_PORT: u16 = 14250;

/// The Jaeger agent's compact-protocol UDP port.
pub const JAEGER_AGENT_COMPACT_PORT: u16 = 6831;

/// The Jaeger agent's binary-protocol UDP port.
pub const JAEGER_AGENT_BINARY_PORT: u16 = 6832;

/// The OTLP collector's gRPC port.
pub const OTLP_COLLECTOR_GRPC_PORT: u16 = 4317;

/// The OTLP collector's HTTP port.
pub const OTLP_COLLECTOR_HTTP_PORT: u16 = 4318;

/// The Quiver transport's UDP port.
pub const QUIVER_PORT: u16 = 14000;

/// An upper-case ASCII letter folded to lower case.
pub open spec fn lower(c: char) -> char {
    if 'A' <= c && c <= 'Z' {
        ((c as u32) + 32) as char
    } else {
        c
    }
}

/// The media type proper of a content-type header: everything before the
/// first `;`, ASCII letters folded to lower case.
pub open spec fn media_type_of(s: Seq<char>) -> Seq<char> {
    let cut = crate::query::find_char(s, 0, ';');
    Seq::new(cut as nat, |i: int| lower(s[i]))
}

/// Whether an OTLP ingest request's content type is acceptable: its media
/// type must be exactly `application/x-protobuf`; anything else is answered
/// as an unsupported media type.
pub fn content_type_is_protobuf(ct: &str) -> (r: bool)
    ensures
        r == (media_type_of(ct@) == "application/x-protobuf"@),
{
    let n = ct.unicode_len();
    let cut = crate::query::find_char_exec(ct, 0, n, ';');
    let want = String::from_str("application/x-protobuf");
    let wn = want.unicode_len();
    proof {
        crate::query::lemma_find_char_range_pub(ct@, 0, ';');
    }
    if cut != wn {
        proof {
            assert(media_type_of(ct@).len() == cut as int);
            assert(("application/x-protobuf"@).len() == wn) by {
                reveal_strlit("application/x-protobuf");
            }
        }
        return false;
    }
    let mut i: usize = 0;
    while i < cut
        invariant
            i <= cut <= n == ct@.len(),
            cut as int == crate::query::find_char(ct@, 0, ';'),
            wn == want@.len(),
            want@ == "application/x-protobuf"@,
            cut == wn,
            forall|j: int| 0 <= j < i ==> media_type_of(ct@)[j] == want@[j],
        decreases cut - i,
    {
        let c = ct.get_char(i);
        let u = c as u32;
        let folded: char = if u >= 'A' as u32 && u <= 'Z' as u32 {
            proof {
                vstd::utf8::char_is_scalar(c);
                assert(vstd::utf8::is_scalar((u + 32) as u32));
            }
            match crate::codec::char_from_u32(u + 32) {
                Some(c2) => c2,
                None => {
                    proof {
                        assert(false);
                    }
                    c
                }
            }
        } else {
            c
        };
        if folded != want.as_str().get_char(i) {
            proof {
                assert(media_type_of(ct@)[i as int] == lower(ct@[i as int]));
                assert(media_type_of(ct@)[i as int] != want@[i as int]);
            }
            return false;
        }
        proof {
            assert(media_type_of(ct@)[i as int] == lower(ct@[i as int]));
        }
        i = i + 1;
    }
    proof {
        assert(media_type_of(ct@) =~= want@);
    }
    true
}

/// The answer of the trace-by-id endpoint: the trace, or a not-found error
/// exactly when no span with the id is stored.
pub fn trace_response(trace_id: TraceId, spans: Vec<crate::models::Span>) -> (r: ApiResponse<
    Trace,
>)
    requires
        forall|i: int| 0 <= i < spans@.len() ==> (#[trigger] spans@[i]).wf(),
    ensures
        spans@.len() == 0 ==> (r matches ApiResponse::Error(e) && e.code == 404 && e.msg@
            == "trace ID not found"@ && e.trace_id is None),
        spans@.len() > 0 ==> (r matches ApiResponse::Data(d) && d@.len() == 1
            && d@[0].trace_id == trace_id && d@[0].spans@.len() == spans@.len()),
{
    if spans.len() == 0 {
        ApiResponse::Error(
            ApiError {
                code: 404,
                msg: String::from_str("trace ID not found"),
                trace_id: None,
            },
        )
    } else {
        let t = crate::jsonout::trace(trace_id, spans);
        let mut data: Vec<Trace> = Vec::new();
        data.push(t);
        ApiResponse::Data(data)
    }
}

/// The answer of the trace-ids shape when nothing was found: a not-found
/// error naming the first requested id.
pub fn trace_ids_not_found(first: TraceId) -> (r: ApiError)
    ensures
        r.code == 404,
        r.trace_id matches Some(t) && t == first,
{
    ApiError {
        code: 404,
        msg: String::from_str("trace id not found"),
        trace_id: Some(first),
    }
}

/// The answer when a request carries both a predicate query and trace ids:
/// the two shapes exclude each other.
pub fn conflicting_query() -> (r: ApiError)
    ensures
        r.code == 400,
        r.msg@ == "can't search by trace IDs and query at the same time"@,
        r.trace_id is None,
{
    ApiError {
        code: 400,
        msg: String::from_str("can't search by trace IDs and query at the same time"),
        trace_id: None,
    }
}

/// The answer to a malformed query.
pub fn bad_request(e: QueryError) -> (r: ApiError)
    ensures
        r.code == 400,
{
    let msg = match e {
        QueryError::BadNumber => String::from_str("invalid number"),
        QueryError::BadUnit => String::from_str("invalid duration"),
        QueryError::BadTags => String::from_str("invalid tags"),
        QueryError::BadTraceIds => String::from_str("invalid trace IDs"),
        QueryError::BadQuery => String::from_str("invalid query"),
    };
    ApiError { code: 400, msg, trace_id: None }
}

/// The dependency endpoint's fixed answer: no edges.
pub fn dependencies() -> (r: ApiResponse<crate::jsonout::DependencyLink>)
    ensures
        r matches ApiResponse::Data(d) && d@.len() == 0,
{
    ApiResponse::Data(Vec::new())
}

/// The status of the unimplemented metric endpoints.
pub fn metrics_status() -> (r: u16)
    ensures
        r == 501,
{
    501
}

/// Parse one `tags` parameter value: a JSON map of strings.
pub fn tags(v: &str) -> (r: Result<Vec<(String, String)>, QueryError>)
    ensures
        match crate::query::json_str_map_of(v@) {
            Some(es) => r matches Ok(out) && crate::storage::filter_view(out@) == es,
            None => r is Err,
        },
{
    match crate::query::parse_json_map(v) {
        Some(out) => Ok(out),
        None => Err(QueryError::BadTags),
    }
}

/// Whether some pair of the query string carries this key.
pub open spec fn has_pair_key(ps: Seq<(Seq<char>, Seq<char>)>, key: Seq<char>) -> bool {
    exists|i: int| 0 <= i < ps.len() && (#[trigger] ps[i]).0 == key
}

/// Whether some pair carries a key other than this one.
pub open spec fn has_other_key(ps: Seq<(Seq<char>, Seq<char>)>, key: Seq<char>) -> bool {
    exists|i: int| 0 <= i < ps.len() && (#[trigger] ps[i]).0 != key
}

/// The shape of a traces request.
pub enum TracesRequest {
    /// Both shapes at once: the request is refused.
    Conflicting,
    /// A lookup of whole traces by id.
    ByIds(Vec<TraceId>),
    /// A predicate query.
    ByQuery(crate::query::TracesQuery),
    /// Neither shape parses.
    Invalid(QueryError),
}

/// Decide which shape a traces request takes: trace-id pairs and anything
/// else together conflict; trace-id pairs alone are an id lookup; everything
/// else is read as a predicate query.
pub fn classify_traces_request(s: &str) -> (r: TracesRequest)
    ensures
        ({
            let ps = crate::query::pairs_from(s@, 0);
            let ids_present = has_pair_key(ps, crate::query::key_trace_id());
            &&& (ids_present && has_other_key(ps, crate::query::key_trace_id())
                ==> r is Conflicting)
            &&& (ids_present && !has_other_key(ps, crate::query::key_trace_id()) ==> (
            match crate::query::trace_ids_val(s@) {
                Some(ids) => r matches TracesRequest::ByIds(v) && crate::storage::ids_view(v@)
                    == ids,
                None => r is Invalid,
            }))
            &&& (!ids_present ==> (match crate::query::traces_query_val(s@) {
                Some(qv) => r matches TracesRequest::ByQuery(q)
                    && crate::query::query_corresponds(q, qv),
                None => r is Invalid,
            }))
        }),
{
    let pairs = crate::query::parse_query_pairs(s);
    let ghost ps = crate::storage::filter_view(pairs@);
    let k_tid = String::from_str("traceID");
    proof {
        reveal_strlit("traceID");
        assert(k_tid@ =~= crate::query::key_trace_id());
    }
    let mut ids_present = false;
    let mut other_present = false;
    let n = pairs.len();
    let mut i: usize = 0;
    while i < n
        invariant
            i <= n == pairs@.len(),
            ps == crate::storage::filter_view(pairs@),
            ps.len() == n,
            k_tid@ == crate::query::key_trace_id(),
            ids_present <==> (exists|j: int| 0 <= j < i && (#[trigger] ps[j]).0
                == crate::query::key_trace_id()),
            other_present <==> (exists|j: int| 0 <= j < i && (#[trigger] ps[j]).0
                != crate::query::key_trace_id()),
        decreases n - i,
    {
        proof {
            assert(ps[i as int] == (pairs@[i as int].0@, pairs@[i as int].1@));
        }
        if pairs[i].0.eq(&k_tid) {
            ids_present = true;
        } else {
            other_present = true;
        }
        i = i + 1;
    }
    if ids_present && other_present {
        return TracesRequest::Conflicting;
    }
    if ids_present {
        match crate::query::trace_ids(s) {
            Ok(v) => TracesRequest::ByIds(v),
            Err(e) => TracesRequest::Invalid(e),
        }
    } else {
        match crate::query::parse_traces_query(s) {
            Ok(q) => TracesRequest::ByQuery(q),
            Err(e) => TracesRequest::Invalid(e),
        }
    }
}

/// Answer a trace-ids lookup: a not-found error naming the first requested
/// id whenever any requested trace holds no spans, the looked-up traces in
/// the UI shape otherwise.
pub fn trace_ids_response(st: &Storage, ids: &Vec<TraceId>) -> (r: ApiResponse<Trace>)
    requires
        st.wf(),
        ids@.len() > 0,
    ensures
        ({
            let missing = exists|j: int| 0 <= j < ids@.len() && crate::storage::filtered_spans(
                st@.spans,
                (#[trigger] ids@[j]).spec_get(),
                Seq::empty(),
            ).len() == 0;
            let groups = crate::storage::group_spans(
                st@,
                crate::storage::ids_view(ids@),
                Seq::empty(),
            );
            &&& (missing ==> (r matches ApiResponse::Error(e) && e.code == 404
                && e.trace_id == Some(ids@[0])))
            &&& (!missing ==> (r matches ApiResponse::Data(d) && d@.len() == groups.len()
                && forall|g: int| 0 <= g < d@.len() ==> (#[trigger] d@[g]).trace_id.spec_get()
                == groups[g].0 && d@[g].spans@.len() == groups[g].1.len()))
        }),
{
    let groups = st.find_traces(ids);
    proof {
        crate::storage::lemma_group_count(
            st@,
            crate::storage::ids_view(ids@),
            Seq::empty(),
        );
        assert(crate::storage::groups_view(groups@).len() == groups@.len());
        assert forall|j: int| 0 <= j < ids@.len() implies crate::storage::ids_view(ids@)[j] == (
        #[trigger] ids@[j]).spec_get() by {}
    }
    if groups.len() < ids.len() {
        return ApiResponse::Error(trace_ids_not_found(ids[0]));
    }
    let ghost gsv = crate::storage::group_spans(
        st@,
        crate::storage::ids_view(ids@),
        Seq::empty(),
    );
    let mut data: Vec<Trace> = Vec::new();
    let mut rest = groups;
    let ng = rest.len();
    let mut g: usize = 0;
    while rest.len() > 0
        invariant
            g + rest@.len() == ng,
            gsv == crate::storage::group_spans(
                st@,
                crate::storage::ids_view(ids@),
                Seq::empty(),
            ),
            gsv.len() == ng,
            data@.len() == g,
            forall|q: int| 0 <= q < rest@.len() ==> {
                let entry = #[trigger] rest@[q];
                &&& entry.0.spec_get() == gsv[g + q].0
                &&& entry.1.deep_view() == gsv[g + q].1
                &&& forall|x: int| 0 <= x < entry.1@.len() ==> (#[trigger] entry.1@[x]).wf()
            },
            forall|q: int| 0 <= q < g ==> (#[trigger] data@[q]).trace_id.spec_get() == gsv[q].0
                && data@[q].spans@.len() == gsv[q].1.len(),
        decreases rest@.len(),
    {
        let ghost pre = rest@;
        let (id, spans) = rest.remove(0);
        proof {
            assert(pre[0] == (id, spans));
            assert(rest@ =~= pre.drop_first());
            assert forall|q: int| 0 <= q < rest@.len() implies {
                let entry = #[trigger] rest@[q];
                &&& entry.0.spec_get() == gsv[g + 1 + q].0
                &&& entry.1.deep_view() == gsv[g + 1 + q].1
                &&& forall|x: int| 0 <= x < entry.1@.len() ==> (#[trigger] entry.1@[x]).wf()
            } by {
                assert(rest@[q] == pre[q + 1]);
            }
            assert(spans.deep_view().len() == spans@.len());
        }
        let t = crate::jsonout::trace(id, spans);
        data.push(t);
        g = g + 1;
    }
    ApiResponse::Data(data)
}

/// One embedded UI asset: its path, its media type, and its precomputed
/// entity tag. The content bytes stay at the serving edge.
#[derive(Debug, PartialEq)]
pub struct Asset {
    pub path: String,
    pub mime: String,
    pub etag: String,
}

/// How an asset request is answered.
#[derive(Clone, Copy, Debug, PartialEq, Eq, Structural)]
pub enum AssetOutcome {
    /// Nothing matches, not even the index fallback.
    NotFound,
    /// The entry at this position matches and the caller already holds it:
    /// no body travels.
    NotModified(usize),
    /// The entry at this position is served with its media type, entity
    /// tag, the fixed epoch last-modified date, and the month-long
    /// revalidating cache rule.
    Serve(usize),
}

/// The index fallback path.
pub open spec fn index_path() -> Seq<char> {
    seq!['/', 'i', 'n', 'd', 'e', 'x', '.', 'h', 't', 'm', 'l']
}

/// The first position whose asset has this path, or the length.
pub open spec fn asset_idx(assets: Seq<Asset>, path: Seq<char>, i: int) -> int
    decreases assets.len() - i,
{
    if i < 0 || i >= assets.len() {
        assets.len() as int
    } else if assets[i].path@ == path {
        i
    } else {
        asset_idx(assets, path, i + 1)
    }
}

/// Resolve a non-API request path against the asset table: an exact match
/// first, the index fallback next; a matching entity tag in the caller's
/// `If-None-Match` header answers without a body.
pub fn resolve_asset(assets: &Vec<Asset>, path: &str, if_none_match: Option<&String>) -> (r:
    AssetOutcome)
    ensures
        ({
            let direct = asset_idx(assets@, path@, 0);
            let fall = asset_idx(assets@, index_path(), 0);
            let chosen: int = if direct < assets@.len() {
                direct
            } else {
                fall
            };
            if chosen < assets@.len() {
                if (match if_none_match {
                    Some(m) => m@ == assets@[chosen].etag@,
                    None => false,
                }) {
                    r == AssetOutcome::NotModified(chosen as usize)
                } else {
                    r == AssetOutcome::Serve(chosen as usize)
                }
            } else {
                r == AssetOutcome::NotFound
            }
        }),
{
    let n = assets.len();
    let wanted = path.to_owned();
    let mut idx = scan_assets(assets, &wanted);
    proof {
        assert(wanted@ == path@);
    }
    if idx >= n {
        let index = String::from_str("/index.html");
        proof {
            reveal_strlit("/index.html");
            assert(index@ =~= index_path());
        }
        idx = scan_assets(assets, &index);
    }
    if idx >= n {
        return AssetOutcome::NotFound;
    }
    match if_none_match {
        Some(m) => {
            if m.eq(&assets[idx].etag) {
                AssetOutcome::NotModified(idx)
            } else {
                AssetOutcome::Serve(idx)
            }
        }
        None => AssetOutcome::Serve(idx),
    }
}

/// The first asset with this path, or the length.
fn scan_assets(assets: &Vec<Asset>, path: &String) -> (r: usize)
    ensures
        r as int == asset_idx(assets@, path@, 0),
        r <= assets@.len(),
{
    let n = assets.len();
    let mut i: usize = 0;
    while i < n
        invariant
            i <= n == assets@.len(),
            asset_idx(assets@, path@, 0) == asset_idx(assets@, path@, i as int),
        decreases n - i,
    {
        if assets[i].path.eq(path) {
            return i;
        }
        i = i + 1;
    }
    n
}

} // verus!
