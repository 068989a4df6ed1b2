//! A self-contained distributed-tracing backend library in the Jaeger /
//! OpenTelemetry ecosystem: wire-format adapters into one canonical span
//! model, an embedded storage engine with predicate queries, the Quiver
//! transport codec, and the span-builder layer of the tracing client.

use vstd::prelude::*;

pub mod api;
pub mod client;
pub mod codec;
pub mod compress;
pub mod fmt;
pub mod ids;
pub mod jsonout;
pub mod models;
pub mod otlp;
pub mod proto;
pub mod query;
pub mod rng;
pub mod storage;
pub mod thrift;

pub use ids::ParseIdError;
pub use ids::SpanId;
pub use ids::TraceId;
pub use models::Log;
pub use models::Process;
pub use models::RefType;
pub use models::Reference;
pub use models::SignedDuration;
pub use models::Span;
pub use models::Tag;
pub use models::TagValue;
pub use models::Timestamp;
pub use query::QueryError;
pub use query::TracesQuery;
pub use storage::ListSpansParams;
pub use storage::Storage;
pub use storage::StorageError;

verus! {

} // verus!
