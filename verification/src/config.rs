//! The daemon configuration as plain values: the UDP endpoints, the probed
//! targets, the retention windows, and the pacing precision.  Reading the
//! configuration text from disk happens outside the library.

use vstd::prelude::*;

verus! {

/// One target to ping: its address literal and probes per second.
#[derive(Debug, Clone, PartialEq, Eq, PartialOrd, Ord)]
pub struct TargetHost {
    pub address: String,
    pub frequency: u32,
}

impl TargetHost {
    pub fn new(address: &str, frequency: u32) -> (r: Self)
        ensures
            r.address@ == address@,
            r.frequency == frequency,
    {
        Self { address: address.to_owned(), frequency }
    }
}

/// How long each queue keeps old probes, in seconds.
#[derive(Debug, Clone, Copy, PartialEq, Eq, PartialOrd, Ord, Structural)]
pub struct ForgetConfig {
    pub inflight_secs: u64,
    pub lost_secs: u64,
    pub recv_secs: u64,
}

/// The daemon's configuration.
#[derive(Debug, Clone)]
pub struct ServerConfig {
    /// Where the daemon listens for consumers, as `host:port`.
    pub udp_listen_address: String,
    /// Where the stats datagrams go, as `host:port`.
    pub udp_client_address: String,
    /// The hosts to ping.
    pub ping_targets: Vec<TargetHost>,
    /// Retention windows.
    pub keep_packets: ForgetConfig,
    /// Pacing precision multiplier, thousandths.
    pub precision_mult_x1000: u32,
    /// Refreshes per second.
    pub refresh_freq: u32,
}

} // verus!
