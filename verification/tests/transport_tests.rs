//! The probing pipeline: reply matching, pacing, retention, statistics, and
//! the stats wire format.

use zzping::framestats::FrameStats;
use zzping::icmp::{PacketData, PacketSent};
use zzping::transport::{parse_ipaddr, Comms, CommConfig, Destination};
use zzping::udp_comm::UdpStats;

fn dest(addr: &str, interval_us: u64, now: u64) -> Destination {
    Destination::new(addr, interval_us, now).expect("address must parse")
}

#[test]
fn parse_ipaddr_accepts_dotted_quads() {
    assert_eq!(parse_ipaddr("192.168.0.1"), Some([192, 168, 0, 1]));
    assert_eq!(parse_ipaddr("0.0.0.0"), Some([0, 0, 0, 0]));
    assert_eq!(parse_ipaddr("255.255.255.255"), Some([255, 255, 255, 255]));
    assert_eq!(parse_ipaddr("10.0.0.1"), Some([10, 0, 0, 1]));
}

#[test]
fn parse_ipaddr_rejects_bad_literals() {
    assert_eq!(parse_ipaddr(""), None);
    assert_eq!(parse_ipaddr("1.2.3"), None);
    assert_eq!(parse_ipaddr("1.2.3.4.5"), None);
    assert_eq!(parse_ipaddr("256.1.1.1"), None);
    assert_eq!(parse_ipaddr("01.2.3.4"), None);
    assert_eq!(parse_ipaddr("a.b.c.d"), None);
    assert_eq!(parse_ipaddr("1..2.3"), None);
}

#[test]
fn echo_packet_layout_and_checksum() {
    let p = PacketData::new(7, 0x1234, [192, 168, 0, 1]);
    let bytes = p.create_echo_packet();
    assert_eq!(bytes.len(), 24);
    assert_eq!(bytes[0], 8); // Echo Request
    assert_eq!(bytes[1], 0);
    assert_eq!(bytes[4], 0x12);
    assert_eq!(bytes[5], 0x34);
    assert_eq!(bytes[6], 0);
    assert_eq!(bytes[7], 7);
    // the one's-complement sum over the whole packet folds to all ones
    let mut sum: u32 = 0;
    for w in bytes.chunks(2) {
        sum += ((w[0] as u32) << 8) + w[1] as u32;
    }
    while sum > 0xffff {
        sum = (sum >> 16) + (sum & 0xffff);
    }
    assert_eq!(sum, 0xffff);
    // a reply with the same bytes parses back
    let back = PacketData::parse(&bytes, [192, 168, 0, 1]).unwrap();
    assert_eq!(back.ident, 0x1234);
    assert_eq!(back.seqn, 7);
}

#[test]
fn matcher_settles_one_probe() {
    let t0: u64 = 1_000_000;
    let mut d = dest("192.168.0.1", 100_000, t0);
    d.ident = 0x1234;
    d.seq = 7;
    let pkt = PacketData::new(7, 0x1234, d.addr);
    d.inflight_packets.push(PacketSent::new(pkt, t0, 500));
    let mut reply = PacketData::new(7, 0x1234, d.addr);
    reply.received = Some(t0 + 3_000);
    let r = d.recv(&reply);
    let (addr, rtt) = r.expect("the reply must match");
    assert_eq!(addr, [192, 168, 0, 1]);
    assert_eq!(rtt, 3_000);
    assert_eq!(d.inflight_packets.len(), 0);
    assert_eq!(d.recv_packets.len(), 1);
    assert_eq!(d.recv_packets[0].received, Some(3_000));
    assert_eq!(d.recv_count, 1);
    // a duplicate reply changes nothing further
    let mut dup = PacketData::new(7, 0x1234, d.addr);
    dup.received = Some(t0 + 9_000);
    let r2 = d.recv(&dup);
    assert!(r2.is_none());
    assert_eq!(d.inflight_packets.len(), 0);
    assert_eq!(d.recv_packets.len(), 1);
    assert_eq!(d.recv_count, 1);
}

#[test]
fn matcher_promotes_exactly_the_first_of_two() {
    let t0: u64 = 1_000_000;
    let mut d = dest("192.168.0.1", 100_000, t0);
    d.ident = 0x1234;
    // two probes in flight with the same sequence
    d.inflight_packets.push(PacketSent::new(PacketData::new(7, 0x1234, d.addr), t0, 1));
    d.inflight_packets.push(PacketSent::new(PacketData::new(7, 0x1234, d.addr), t0 + 100, 2));
    let mut reply = PacketData::new(7, 0x1234, d.addr);
    reply.received = Some(t0 + 3_000);
    let (_, rtt) = d.recv(&reply).expect("the reply must match");
    // only the first is settled; the later duplicate stays in flight
    assert_eq!(rtt, 3_000);
    assert_eq!(d.inflight_packets.len(), 1);
    assert_eq!(d.inflight_packets[0].when, 2);
    assert_eq!(d.recv_packets.len(), 1);
    assert_eq!(d.recv_count, 1);
}

#[test]
fn matcher_ignores_other_ident() {
    let t0: u64 = 1_000_000;
    let mut d = dest("192.168.0.1", 100_000, t0);
    d.ident = 0x1234;
    let pkt = PacketData::new(9, 0x1234, d.addr);
    d.inflight_packets.push(PacketSent::new(pkt, t0, 500));
    let mut reply = PacketData::new(9, 0x9999, d.addr);
    reply.received = Some(t0 + 1000);
    assert!(d.recv(&reply).is_none());
    assert_eq!(d.inflight_packets.len(), 1);
    assert_eq!(d.recv_packets.len(), 0);
}

#[test]
fn send_fires_when_due_and_idle() {
    let t0: u64 = 10_000_000;
    let mut d = dest("10.0.0.2", 100_000, t0);
    // the destination was created eligible: the first send fires at once
    let seq0 = d.seq;
    let ident0 = d.ident;
    let bytes = d.send(t0, 42, 0).expect("an idle, due destination must send");
    assert_eq!(bytes.len(), 24);
    assert_eq!(bytes[4], (ident0 / 256) as u8);
    assert_eq!(bytes[5], (ident0 % 256) as u8);
    assert_eq!(bytes[6], (seq0 / 256) as u8);
    assert_eq!(bytes[7], (seq0 % 256) as u8);
    assert_eq!(d.inflight_packets.len(), 1);
    assert_eq!(d.sent_count, 1);
    // immediately after, pacing holds it back
    let r2 = d.send(t0 + 10, 42, 0);
    assert!(r2.is_none());
}

#[test]
fn cleanup_moves_old_inflight_to_lost() {
    let t0: u64 = 100_000_000;
    let cfg = CommConfig {
        forget_inflight: 10_000_000,
        forget_lost: 10_000_000,
        forget_recv: 10_000_000,
        precision_mult_x1000: 1000,
    };
    let mut c = Comms::new(cfg);
    c.add_destination("192.168.0.1", 100_000, t0).unwrap();
    let d = &mut c.dest[0];
    let old_pkt = PacketData::new(1, d.ident, d.addr);
    // sent long before the receive window: past hope of a reply
    d.inflight_packets.push(PacketSent::new(old_pkt, t0 - 15_000_000, 1));
    let fresh_pkt = PacketData::new(2, d.ident, d.addr);
    d.inflight_packets.push(PacketSent::new(fresh_pkt, t0 - 1_000, 2));
    c.cleanup(t0);
    assert_eq!(c.dest[0].inflight_packets.len(), 1);
    assert_eq!(c.dest[0].inflight_packets[0].data.seqn, 2);
    assert_eq!(c.dest[0].lost_packets.len(), 1);
    assert_eq!(c.dest[0].lost_packets[0].data.seqn, 1);
}

#[test]
fn cleanup_drops_expired_received_and_lost() {
    let t0: u64 = 200_000_000;
    let cfg = CommConfig {
        forget_inflight: 10_000_000,
        forget_lost: 5_000_000,
        forget_recv: 5_000_000,
        precision_mult_x1000: 1000,
    };
    let mut c = Comms::new(cfg);
    c.add_destination("192.168.0.1", 100_000, t0).unwrap();
    let d = &mut c.dest[0];
    let mut kept = PacketSent::new(PacketData::new(1, d.ident, d.addr), t0 - 1_000_000, 1);
    kept.received = Some(500);
    // received longer ago than the compound window: forgotten
    let mut gone = PacketSent::new(PacketData::new(2, d.ident, d.addr), t0 - 16_000_000, 1);
    gone.received = Some(700);
    d.recv_packets.push(kept);
    d.recv_packets.push(gone);
    c.cleanup(t0);
    assert_eq!(c.dest[0].recv_packets.len(), 1);
    assert_eq!(c.dest[0].recv_packets[0].data.seqn, 1);
}

#[test]
fn received_last_and_mean() {
    let t0: u64 = 50_000_000;
    let mut d = dest("192.168.0.1", 100_000, t0);
    let mut a = PacketSent::new(PacketData::new(1, d.ident, d.addr), t0 - 2_000_000, 1);
    a.received = Some(1_000);
    let mut b = PacketSent::new(PacketData::new(2, d.ident, d.addr), t0 - 100_000, 1);
    b.received = Some(3_000);
    d.recv_packets.push(a);
    d.recv_packets.push(b);
    // only the recent one is within half a second
    let recent = d.received_last(t0, 500_000);
    assert_eq!(recent.len(), 1);
    assert_eq!(recent[0].data.seqn, 2);
    // the mean over a wide window covers both
    assert_eq!(d.mean_recv_time(t0, 10_000_000), Some(2_000));
    // the mean over a narrow window covers one
    assert_eq!(d.mean_recv_time(t0, 500_000), Some(3_000));
    let empty = dest("192.168.0.1", 100_000, t0);
    assert_eq!(empty.mean_recv_time(t0, 10_000_000), None);
}

#[test]
fn get_delay_matches_aggregate_rate() {
    let t0: u64 = 1_000_000;
    let cfg = CommConfig {
        forget_inflight: 10_000_000,
        forget_lost: 10_000_000,
        forget_recv: 10_000_000,
        precision_mult_x1000: 1000,
    };
    let mut c = Comms::new(cfg);
    assert_eq!(c.get_delay(), 1000);
    c.add_destination("192.168.0.1", 1_000_000, t0).unwrap();
    // one target at one probe per second: a wake-up each second
    assert_eq!(c.delay, 1_000_000);
    c.add_destination("192.168.0.2", 1_000_000, t0).unwrap();
    assert_eq!(c.delay, 500_000);
}

#[test]
fn send_all_respects_limit() {
    let t0: u64 = 5_000_000;
    let cfg = CommConfig {
        forget_inflight: 10_000_000,
        forget_lost: 10_000_000,
        forget_recv: 10_000_000,
        precision_mult_x1000: 1000,
    };
    let mut c = Comms::new(cfg);
    c.add_destination("192.168.0.1", 100_000, t0).unwrap();
    c.add_destination("192.168.0.2", 100_000, t0).unwrap();
    c.add_destination("192.168.0.3", 100_000, t0).unwrap();
    let orders = c.send_all(t0, 99, 2);
    assert!(orders.len() <= 2);
    for o in &orders {
        assert_eq!(o.packet.len(), 24);
    }
}

#[test]
fn recv_all_matches_buffered_replies() {
    let t0: u64 = 9_000_000;
    let cfg = CommConfig {
        forget_inflight: 10_000_000,
        forget_lost: 10_000_000,
        forget_recv: 10_000_000,
        precision_mult_x1000: 1000,
    };
    let mut c = Comms::new(cfg);
    c.add_destination("192.168.0.1", 100_000, t0).unwrap();
    let ident = c.dest[0].ident;
    let addr = c.dest[0].addr;
    c.dest[0].inflight_packets.push(PacketSent::new(PacketData::new(3, ident, addr), t0, 1));
    let mut reply = PacketData::new(3, ident, addr);
    reply.received = Some(t0 + 2_500);
    c.recv_all(&vec![reply]);
    assert_eq!(c.dest[0].recv_packets.len(), 1);
    assert_eq!(c.dest[0].recv_packets[0].received, Some(2_500));
}

#[test]
fn refresh_stats_formulas() {
    let t0: u64 = 80_000_000;
    let mut d = dest("192.168.0.1", 100_000, t0);
    // one probe stuck for half a second, one reply within the last second
    d.inflight_packets.push(PacketSent::new(PacketData::new(1, d.ident, d.addr), t0 - 500_000, 1));
    let mut got = PacketSent::new(PacketData::new(2, d.ident, d.addr), t0 - 200_000, 1);
    got.received = Some(4_000);
    d.recv_packets.push(got);
    let st = d.refresh_stats(t0, 1_000_000, t0, 30_000_000, 10_000_000);
    assert_eq!(st.inflight_count, 1);
    assert_eq!(st.packets_lost, 1);
    assert_eq!(st.packets_recv, 1);
    // 1_000_000 * 1 / (10 * 2 + 1) = 47619: about 4.76% loss
    assert_eq!(st.packet_loss_x100_000, 47619);
    assert_eq!(st.avg_time_us, 4_000);
    assert_eq!(st.last_pckt_us, 200_000);
    // one reply kept over a ten-second window: 0.1 per second
    assert_eq!(st.recv_per_sec_x1000, 100);
}

#[test]
fn stats_datagram_round_trip() {
    // (addr "10.0.0.1", 3 in flight, 2500 us, 150 ms, 1.25% loss -> 1250)
    let bytes = FrameStats::encode_stats("10.0.0.1", 3, 2500, 150, 1250);
    let mut want: Vec<u8> = vec![];
    rmp::encode::write_array_len(&mut want, 5).unwrap();
    rmp::encode::write_str(&mut want, "10.0.0.1").unwrap();
    rmp::encode::write_u16(&mut want, 3).unwrap();
    rmp::encode::write_u32(&mut want, 2500).unwrap();
    rmp::encode::write_u32(&mut want, 150).unwrap();
    rmp::encode::write_u32(&mut want, 1250).unwrap();
    assert_eq!(bytes, want);
    let st = UdpStats::from_buf(&bytes).expect("own datagram must decode");
    assert_eq!(st.addr, "10.0.0.1");
    assert_eq!(st.inflight_count, 3);
    assert_eq!(st.avg_time_us, 2500);
    assert_eq!(st.last_pckt_ms, 150);
    assert_eq!(st.packet_loss_x100_000, 1250);
}

#[test]
fn stats_encode_saturates_wide_counts() {
    let bytes = FrameStats::encode_stats("10.0.0.1", 70000, 5_000_000_000, 1, 1);
    let st = UdpStats::from_buf(&bytes).unwrap();
    assert_eq!(st.inflight_count, u16::MAX);
    assert_eq!(st.avg_time_us, u32::MAX);
}

#[test]
fn from_buf_rejects_short_tuple() {
    let mut bytes: Vec<u8> = vec![];
    rmp::encode::write_array_len(&mut bytes, 4).unwrap();
    rmp::encode::write_str(&mut bytes, "10.0.0.1").unwrap();
    assert!(UdpStats::from_buf(&bytes).is_err());
}
