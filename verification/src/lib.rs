//! Network reachability telemetry: ICMP echo probing, reply matching and
//! retention, per-refresh statistics, and a compact tagged-record byte format
//! for the on-disk latency logs, with a lossy quantizing codec on top.

use vstd::prelude::*;

pub mod config;
pub mod corrector;
pub mod custom_errors;
pub mod dynrmp;
pub mod flags;
pub mod framedata;
pub mod framedataq;
pub mod framestats;
pub mod graph_plot;
pub mod huffman;
pub mod huffmapper;
pub mod icmp;
pub mod numutil;
pub mod predict;
pub mod quantize;
pub mod transport;
pub mod udp_comm;
pub mod vtype;

verus! {

} // verus!
