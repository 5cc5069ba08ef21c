//! The per-destination stats record sent to local consumers: a tagged
//! five-field tuple `(address, in-flight, average RTT in us, age of the last
//! reply in ms, loss scaled by 100000)`.

use vstd::prelude::*;
use crate::dynrmp::{
    enc_array_len, enc_strbytes, enc_u16, enc_u32, parse_array_len, parse_strbytes, parse_u16,
    parse_u32, write_array_len, write_str, write_u16, write_u32, lemma_parse_array_len_enc,
    lemma_parse_strbytes_enc, lemma_parse_u16_enc, lemma_parse_u32_enc,
};

verus! {

use vstd::string::StringSliceAdditionalSpecFns;
use vstd::utf8::encode_utf8;

/// An oversized count saturates at the field width.
pub open spec fn sat_u16(v: int) -> u16 {
    if v > 0xffff {
        0xffff_u16
    } else {
        v as u16
    }
}

/// An oversized count saturates at the field width.
pub open spec fn sat_u32(v: int) -> u32 {
    if v > 0xffffffff {
        0xffffffff_u32
    } else {
        v as u32
    }
}

/// The bytes of one stats record.
pub open spec fn enc_stats_record(
    addr: Seq<u8>,
    inflight: u16,
    avg_us: u32,
    last_ms: u32,
    loss: u32,
) -> Seq<u8> {
    enc_array_len(5) + enc_strbytes(addr) + enc_u16(inflight) + enc_u32(avg_us) + enc_u32(last_ms)
        + enc_u32(loss)
}

/// Reads one stats record: a five-element tuple of string, u16 and three u32.
pub open spec fn parse_stats(s: Seq<u8>, pos: int) -> Option<((Seq<u8>, u16, u32, u32, u32), int)> {
    match parse_array_len(s, pos) {
        Some((n, p1)) => if n != 5 {
            None
        } else {
            match parse_strbytes(s, p1) {
                Some((addr, p2)) => match parse_u16(s, p2) {
                    Some((infl, p3)) => match parse_u32(s, p3) {
                        Some((avg, p4)) => match parse_u32(s, p4) {
                            Some((last, p5)) => match parse_u32(s, p5) {
                                Some((loss, p6)) => Some(((addr, infl, avg, last, loss), p6)),
                                None => None,
                            },
                            None => None,
                        },
                        None => None,
                    },
                    None => None,
                },
                None => None,
            }
        },
        None => None,
    }
}

/// One refresh's statistics for one destination, ready for the wire.
pub struct FrameStats {
    pub addr_str: String,
    pub inflight_count: usize,
    pub avg_time_us: u128,
    pub last_pckt_ms: u128,
    pub packet_loss_x100_000: u32,
}

impl FrameStats {
    /// Appends the record for this frame; oversized counts saturate at their
    /// field width.
    pub fn encode(&self, out: &mut Vec<u8>)
        requires
            encode_utf8(self.addr_str@).len() < 0x100000000,
        ensures
            final(out)@ == old(out)@ + enc_stats_record(
                encode_utf8(self.addr_str@),
                sat_u16(self.inflight_count as int),
                sat_u32(self.avg_time_us as int),
                sat_u32(self.last_pckt_ms as int),
                self.packet_loss_x100_000,
            ),
    {
        write_array_len(out, 5);
        write_str(out, self.addr_str.as_str());
        let infl: u16 = if self.inflight_count > 0xffff {
            0xffff
        } else {
            self.inflight_count as u16
        };
        write_u16(out, infl);
        let avg: u32 = if self.avg_time_us > 0xffffffff {
            0xffffffff
        } else {
            self.avg_time_us as u32
        };
        write_u32(out, avg);
        let last: u32 = if self.last_pckt_ms > 0xffffffff {
            0xffffffff
        } else {
            self.last_pckt_ms as u32
        };
        write_u32(out, last);
        write_u32(out, self.packet_loss_x100_000);
        assert(final(out)@ =~= old(out)@ + enc_stats_record(
            encode_utf8(self.addr_str@),
            sat_u16(self.inflight_count as int),
            sat_u32(self.avg_time_us as int),
            sat_u32(self.last_pckt_ms as int),
            self.packet_loss_x100_000,
        ));
    }

    /// Builds the datagram for one destination's refresh.
    pub fn encode_stats(
        addr_str: &str,
        inflight_count: usize,
        avg_time_us: u128,
        last_pckt_ms: u128,
        packet_loss_x100_000: u32,
    ) -> (r: Vec<u8>)
        requires
            addr_str.spec_bytes().len() < 0x100000000,
        ensures
            r@ == enc_stats_record(
                addr_str.spec_bytes(),
                sat_u16(inflight_count as int),
                sat_u32(avg_time_us as int),
                sat_u32(last_pckt_ms as int),
                packet_loss_x100_000,
            ),
    {
        let stat = FrameStats {
            addr_str: addr_str.to_owned(),
            inflight_count,
            avg_time_us,
            last_pckt_ms,
            packet_loss_x100_000,
        };
        let mut v: Vec<u8> = Vec::new();
        stat.encode(&mut v);
        v
    }
}

/// A written stats record reads back field for field.
pub proof fn lemma_parse_stats_enc(addr: Seq<u8>, infl: u16, avg: u32, last: u32, loss: u32)
    requires
        addr.len() < 0x100000000,
    ensures
        parse_stats(enc_stats_record(addr, infl, avg, last, loss), 0) == Some(
            ((addr, infl, avg, last, loss), enc_stats_record(addr, infl, avg, last, loss).len() as int),
        ),
{
    let s = enc_stats_record(addr, infl, avg, last, loss);
    let a1 = enc_array_len(5);
    let a2 = enc_strbytes(addr);
    let a3 = enc_u16(infl);
    let a4 = enc_u32(avg);
    let a5 = enc_u32(last);
    let a6 = enc_u32(loss);
    let p1 = a1.len() as int;
    let p2 = p1 + a2.len();
    let p3 = p2 + a3.len();
    let p4 = p3 + a4.len();
    let p5 = p4 + a5.len();
    let p6 = p5 + a6.len();
    assert(s.len() == p6);
    assert(s.subrange(0, p1) =~= a1);
    assert(s.subrange(p1, p2) =~= a2);
    assert(s.subrange(p2, p3) =~= a3);
    assert(s.subrange(p3, p4) =~= a4);
    assert(s.subrange(p4, p5) =~= a5);
    assert(s.subrange(p5, p6) =~= a6);
    lemma_parse_array_len_enc(s, 0, 5);
    lemma_parse_strbytes_enc(s, p1, addr);
    lemma_parse_u16_enc(s, p2, infl);
    lemma_parse_u32_enc(s, p3, avg);
    lemma_parse_u32_enc(s, p4, last);
    lemma_parse_u32_enc(s, p5, loss);
}

} // verus!
