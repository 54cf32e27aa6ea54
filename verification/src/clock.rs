//! Wall-clock access for snapshot timestamps.
//!
//! Timestamps only label outgoing snapshots; no book or candle decision
//! depends on them, so nothing is claimed about the value read.

use vstd::prelude::*;

verus! {

/// Relies on chrono::Utc::now: the current wall-clock time, read here as
/// milliseconds since the Unix epoch.
#[verifier::external_body]
pub(crate) fn now_millis() -> i64 {
    chrono::Utc::now().timestamp_millis()
}

} // verus!
