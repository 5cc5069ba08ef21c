//! The consumer's side of the stats datagram: decoding the five-field record.

use vstd::prelude::*;
use crate::custom_errors::UnexpectedError;
use crate::dynrmp::{
    ascii_seq, is_ascii_bytes, read_array_len, read_str, read_u16, read_u32, parse_strbytes,
};
use crate::framestats::parse_stats;

verus! {

/// One destination's statistics as read back from a datagram.
pub struct UdpStats {
    pub addr: String,
    pub inflight_count: u16,
    pub avg_time_us: u32,
    pub last_pckt_ms: u32,
    pub packet_loss_x100_000: u32,
}

impl UdpStats {
    /// Decodes a stats datagram; the record must be the five-field tuple.
    pub fn from_buf(v: &[u8]) -> (r: Result<Self, UnexpectedError>)
        ensures
            r matches Ok(st) ==> (parse_stats(v@, 0) matches Some(p) && st.inflight_count == p.0.1
                && st.avg_time_us == p.0.2 && st.last_pckt_ms == p.0.3
                && st.packet_loss_x100_000 == p.0.4 && (is_ascii_bytes(p.0.0) ==> st.addr@
                == ascii_seq(p.0.0))),
            parse_stats(v@, 0) is None ==> r is Err,
            (parse_stats(v@, 0) matches Some(p) && is_ascii_bytes(p.0.0)) ==> r is Ok,
    {
        let (len, p1) = match read_array_len(v, 0) {
            Ok(x) => x,
            Err(_) => {
                return Err(UnexpectedError::new("Couldn't read array length"));
            },
        };
        if len != 5 {
            return Err(UnexpectedError::new("Array must be length 5"));
        }
        let (addr, p2) = match read_str(v, p1) {
            Ok(x) => x,
            Err(_) => {
                return Err(UnexpectedError::new("Couldn't read string"));
            },
        };
        let (inflight_count, p3) = match read_u16(v, p2) {
            Ok(x) => x,
            Err(_) => {
                return Err(UnexpectedError::new("Couldn't read inflight count"));
            },
        };
        let (avg_time_us, p4) = match read_u32(v, p3) {
            Ok(x) => x,
            Err(_) => {
                return Err(UnexpectedError::new("Couldn't read average time"));
            },
        };
        let (last_pckt_ms, p5) = match read_u32(v, p4) {
            Ok(x) => x,
            Err(_) => {
                return Err(UnexpectedError::new("Couldn't read last packet age"));
            },
        };
        let (packet_loss_x100_000, _p6) = match read_u32(v, p5) {
            Ok(x) => x,
            Err(_) => {
                return Err(UnexpectedError::new("Couldn't read packet loss"));
            },
        };
        Ok(Self { addr, inflight_count, avg_time_us, last_pckt_ms, packet_loss_x100_000 })
    }
}

} // verus!
