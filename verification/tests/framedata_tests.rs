//! The frame log byte form, including the timestamp text round trip, and
//! the viewer's rolling window.

use zzping::framedata::{FrameData, FrameDataVec, FrameTime};
use zzping::framedataq::{FrameDataQ, SubSecType};
use zzping::graph_plot::LatencyGraph;
use zzping::udp_comm::UdpStats;

#[test]
fn frame_round_trip_keyframe() {
    let fd = FrameData {
        time: FrameTime::Timestamp(1_700_000_000, 123_456),
        inflight: 4,
        lost_packets: 1,
        recv_us: vec![100, 200, 350],
    };
    let mut out: Vec<u8> = vec![];
    fd.encode(&mut out);
    let (back, used) = FrameData::decode(&out, 0).expect("own frame must parse");
    assert_eq!(used, out.len());
    assert_eq!(back.time, FrameTime::Timestamp(1_700_000_000, 123_456));
    assert_eq!(back.inflight, 4);
    assert_eq!(back.lost_packets, 1);
    assert_eq!(back.recv_us, vec![100, 200, 350]);
}

#[test]
fn frame_round_trip_elapsed() {
    let fd = FrameData {
        time: FrameTime::Elapsed(2_500_000),
        inflight: 0,
        lost_packets: 0,
        recv_us: vec![],
    };
    let mut out: Vec<u8> = vec![];
    fd.encode(&mut out);
    let (back, used) = FrameData::decode(&out, 0).expect("own frame must parse");
    assert_eq!(used, out.len());
    assert_eq!(back.time, FrameTime::Elapsed(2_500_000));
    assert_eq!(back.recv_us.len(), 0);
}

#[test]
fn frame_vec_resolves_deltas_against_keyframe() {
    let mut out: Vec<u8> = vec![];
    FrameData {
        time: FrameTime::Timestamp(1_700_000_000, 900_000),
        inflight: 1,
        lost_packets: 0,
        recv_us: vec![100],
    }
        .encode(&mut out);
    FrameData {
        time: FrameTime::Elapsed(2_500_000),
        inflight: 2,
        lost_packets: 0,
        recv_us: vec![150],
    }
        .encode(&mut out);
    let mut fv = FrameDataVec::new();
    let end = fv.read(&out, 0, 2).expect("both frames must read");
    assert_eq!(end, out.len());
    assert_eq!(fv.v.len(), 2);
    assert_eq!(fv.v[0].time, FrameTime::Timestamp(1_700_000_000, 900_000));
    // 0.9 s + 2.5 s elapsed crosses into 3.4 s after the keyframe second
    assert_eq!(fv.v[1].time, FrameTime::Timestamp(1_700_000_003, 400_000));
}

#[test]
fn frame_reduces_to_quantiles() {
    let fd = FrameData {
        time: FrameTime::Timestamp(1_700_000_000, 250_999),
        inflight: 2,
        lost_packets: 1,
        recv_us: vec![100, 200, 300, 400, 500, 600, 700, 800, 900],
    };
    let q = FrameDataQ::from_framedata(&fd);
    assert_eq!(q.timestamp, Some(1_700_000_000));
    assert_eq!(q.subsec_ms, SubSecType::Abs(250));
    assert_eq!(q.inflight, 2);
    assert_eq!(q.lost_packets, 1);
    assert_eq!(q.recv_us_len, 9);
    assert_eq!(q.recv_us, [100, 200, 300, 500, 700, 800, 900]);
}

fn stat(addr: &str, avg: u32, loss: u32) -> UdpStats {
    UdpStats {
        addr: addr.to_owned(),
        inflight_count: 1,
        avg_time_us: avg,
        last_pckt_ms: 10,
        packet_loss_x100_000: loss,
    }
}

#[test]
fn graph_keeps_matching_samples_up_to_budget() {
    let mut g = LatencyGraph::new("10.0.0.1", 3, 0);
    let fed = g.update(
        1000,
        &vec![stat("10.0.0.1", 1500, 10), stat("10.0.0.9", 9, 9), stat("10.0.0.1", 2500, 20)],
    );
    assert!(fed);
    assert_eq!(g.latency_us, vec![1500, 2500]);
    assert_eq!(g.packet_loss_x100_000, vec![10, 20]);
    assert_eq!(g.current, 1000);
    // an unmatched refresh soon after changes nothing
    let quiet = g.update(2000, &vec![stat("10.0.0.9", 1, 1)]);
    assert!(!quiet);
    assert_eq!(g.current, 1000);
    // the budget of three keeps the two newest after a third arrives
    let more = g.update(3000, &vec![stat("10.0.0.1", 3500, 30)]);
    assert!(more);
    assert_eq!(g.latency_us, vec![2500, 3500]);
    assert_eq!(g.packet_loss_x100_000, vec![20, 30]);
}

#[test]
fn graph_caps_displayed_latency() {
    let mut g = LatencyGraph::new("10.0.0.1", 10, 0);
    g.update(1, &vec![stat("10.0.0.1", 900_000, 0)]);
    assert_eq!(g.latency_us, vec![500_000]);
}
