//! Fresh random identifiers.
//!
//! A wire span may arrive with a zero trace or span id; the adapters replace
//! such an id with a fresh random non-zero value rather than reject the span.

use vstd::prelude::*;

verus! {

use crate::ids::SpanId;
use crate::ids::TraceId;

/// Relies on `rand::random`: draws one value of the standard distribution.
/// Nothing is promised of the outcome.
pub assume_specification<T>[ rand::random::<T> ]() -> (r: T)
    where
        rand::distributions::Standard: rand::distributions::Distribution<T>,
;

/// A fresh random non-zero 128-bit identifier: on the rare zero draw, a
/// second draw with its lowest bit forced.
pub fn random_trace_id() -> (r: TraceId)
    ensures
        r.wf(),
{
    let v = rand::random::<u128>();
    if v != 0 {
        TraceId::new(v)
    } else {
        let w = rand::random::<u128>();
        proof {
            assert((w | 1) != 0) by (bit_vector);
        }
        TraceId::new(w | 1)
    }
}

/// A fresh random non-zero 64-bit identifier: on the rare zero draw, a
/// second draw with its lowest bit forced.
pub fn random_span_id() -> (r: SpanId)
    ensures
        r.wf(),
{
    let v = rand::random::<u64>();
    if v != 0 {
        SpanId::new(v)
    } else {
        let w = rand::random::<u64>();
        proof {
            assert((w | 1) != 0) by (bit_vector);
        }
        SpanId::new(w | 1)
    }
}

/// The wire value if it is non-zero, a fresh random identifier otherwise.
pub fn trace_id_or_random(v: u128) -> (r: TraceId)
    ensures
        r.wf(),
        v != 0 ==> r.spec_get() == v,
{
    if v != 0 {
        TraceId::new(v)
    } else {
        random_trace_id()
    }
}

/// The wire value if it is non-zero, a fresh random identifier otherwise.
pub fn span_id_or_random(v: u64) -> (r: SpanId)
    ensures
        r.wf(),
        v != 0 ==> r.spec_get() == v,
{
    if v != 0 {
        SpanId::new(v)
    } else {
        random_span_id()
    }
}

} // verus!
