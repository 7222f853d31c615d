//! Classification of a single connect attempt.
//!
//! The connector tries one connection-oriented handshake per port and reduces
//! every outcome to two cases: the handshake completed (`Open`) or anything
//! else happened (`Closed`). Refusal, timeout and unreachability are all
//! folded into `Closed` on purpose: the scanner trades diagnostic precision
//! for simplicity and never retries a port.

use vstd::prelude::*;

verus! {

/// What one probe of one port concluded.
#[derive(Clone, Copy, PartialEq, Eq, Structural, Debug)]
pub enum PortStatus {
    /// The connection attempt completed within the platform's default
    /// timeout.
    Open,
    /// The attempt failed in any way: refused, timed out, unreachable, or
    /// any other transport error.
    Closed,
}

/// The meaning of a probe: `Open` exactly when the connect attempt
/// succeeded, `Closed` in every other case.
pub open spec fn classification(connected: bool) -> PortStatus {
    if connected {
        PortStatus::Open
    } else {
        PortStatus::Closed
    }
}

/// Classifies one connect attempt. `connected` reports whether the handshake
/// to the probed port completed; every failure is handed in as `false` and
/// classified `Closed`, indistinguishable from a closed port by design.
pub fn classify(connected: bool) -> (r: PortStatus)
    ensures
        r == classification(connected),
{
    if connected {
        PortStatus::Open
    } else {
        PortStatus::Closed
    }
}

/// Whether a worker reports the probed port: exactly the `Open` probes are
/// sent to the collector.
pub fn should_report(status: PortStatus) -> (r: bool)
    ensures
        r == (status is Open),
{
    match status {
        PortStatus::Open => true,
        PortStatus::Closed => false,
    }
}

/// Idempotence of classification: against a fixed endpoint, modeled by the
/// set of ports on which a connect attempt succeeds, every independent probe
/// of a port yields the same status — `Open` when the endpoint accepts the
/// port, `Closed` when it does not, on every probe alike.
pub proof fn lemma_classification_idempotent(accepts: Set<u16>, p: u16)
    ensures
        accepts.contains(p) ==> classification(accepts.contains(p)) == PortStatus::Open,
        !accepts.contains(p) ==> classification(accepts.contains(p)) == PortStatus::Closed,
{
}

} // verus!
