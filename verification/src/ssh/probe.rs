//! What a network probe of a host measured.

use std::time::Duration;

use vstd::prelude::*;

verus! {

/// The outcome of an SSH handshake probe.
pub struct ShhProbeResult {
    /// How long the handshake took.
    pub latency: Duration,
}

} // verus!
