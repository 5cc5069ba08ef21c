//! The quantile summaries and the stateful codec: percentiles, the
//! quantizer, the record and header byte forms, and their round trips.

use zzping::framedataq::{
    Complete, FDCodecCfg, FDCodecIter, FDCodecIterFold, FDCodecState, FrameDataQ, SubSecType,
};
use zzping::quantize::LinearLogQuantizer;
use zzping::vtype::VType;

fn complete(
    ts: i64,
    sub: u32,
    inflight: u32,
    lost: u32,
    len: usize,
    recv: [i64; 7],
) -> FrameDataQ<Complete> {
    FrameDataQ {
        phantom: Complete,
        timestamp: Some(ts),
        subsec_ms: SubSecType::Abs(sub),
        inflight,
        lost_packets: lost,
        recv_us_len: len,
        recv_us: recv,
    }
}

#[test]
fn percentiles_nine_sorted_values() {
    let v: Vec<u128> = vec![100, 200, 300, 400, 500, 600, 700, 800, 900];
    let p = FrameDataQ::<Complete>::compute_percentiles(&v);
    assert_eq!(p, [100, 200, 300, 500, 700, 800, 900]);
}

#[test]
fn percentiles_empty_is_sentinel() {
    let v: Vec<u128> = vec![];
    let p = FrameDataQ::<Complete>::compute_percentiles(&v);
    assert_eq!(p, [-1, -1, -1, -1, -1, -1, -1]);
}

#[test]
fn percentiles_single_value_repeats() {
    let v: Vec<u128> = vec![42];
    let p = FrameDataQ::<Complete>::compute_percentiles(&v);
    assert_eq!(p, [42, 42, 42, 42, 42, 42, 42]);
}

#[test]
fn percentiles_are_monotone() {
    let v: Vec<u128> = vec![10, 11, 30, 99, 100, 240, 500, 900, 1000, 1500, 9000];
    let p = FrameDataQ::<Complete>::compute_percentiles(&v);
    for i in 0..6 {
        assert!(p[i] <= p[i + 1]);
    }
}

#[test]
fn quantizer_exact_in_linear_range() {
    let q = LinearLogQuantizer::new(10);
    for v in [-1000i64, -1, 0, 1, 5, 1023] {
        let e = q.encode(v);
        assert_eq!(q.decode(e), v);
    }
}

#[test]
fn quantizer_bounded_error_above_linear_range() {
    let q = LinearLogQuantizer::new(10);
    for v in [1024i64, 5000, 123_456, 30_000_000, 4_000_000_000] {
        let e = q.encode(v);
        let d = q.decode(e);
        assert!(d <= v);
        // relative error stays below 2^-10 of the magnitude
        assert!((v - d) * 1024 <= v);
    }
}

#[test]
fn codec_round_trip_without_quantizer() {
    let cfg = FDCodecCfg { full_encode_secs: 60, recv_llq: None, delta_enc: false };
    let mut enc = FDCodecState::new(cfg);
    let mut dec = FDCodecState::new(cfg);
    let records = vec![
        complete(1000, 500, 3, 1, 9, [100, 200, 300, 500, 700, 800, 900]),
        complete(1000, 900, 2, 0, 4, [90, 100, 110, 150, 180, 200, 220]),
        complete(1030, 100, 0, 0, 0, [-1, -1, -1, -1, -1, -1, -1]),
    ];
    for r in &records {
        let e = enc.encode(*r);
        let b = dec.decode(e);
        assert_eq!(b.timestamp, r.timestamp);
        assert_eq!(b.subsec_ms, r.subsec_ms);
        assert_eq!(b.inflight, r.inflight);
        assert_eq!(b.lost_packets, r.lost_packets);
        assert_eq!(b.recv_us_len, r.recv_us_len);
        assert_eq!(b.recv_us, r.recv_us);
    }
}

#[test]
fn codec_round_trip_with_quantizer_bounded() {
    let cfg = FDCodecCfg {
        full_encode_secs: 60,
        recv_llq: Some(LinearLogQuantizer::new(10)),
        delta_enc: false,
    };
    let mut enc = FDCodecState::new(cfg);
    let mut dec = FDCodecState::new(cfg);
    let r = complete(1000, 500, 3, 1, 9, [100, 2000, 30000, 50000, 70000, 80000, 90000]);
    let e = enc.encode(r);
    let b = dec.decode(e);
    for i in 0..7 {
        let orig = r.recv_us[i];
        let back = b.recv_us[i];
        assert!(back <= orig);
        assert!((orig - back) * 1024 <= orig);
    }
}

#[test]
fn codec_timestamp_delta_boundary() {
    // a keyframe at T, one record just inside the window, one outside
    let cfg = FDCodecCfg { full_encode_secs: 60, recv_llq: None, delta_enc: false };
    let mut enc = FDCodecState::new(cfg);
    let t0 = complete(1000, 0, 1, 0, 0, [-1; 7]);
    let first = enc.encode(t0);
    assert!(first.timestamp.is_some());
    let t59 = complete(1059, 0, 1, 0, 0, [-1; 7]);
    let within = enc.encode(t59);
    assert!(within.timestamp.is_none());
    assert!(matches!(within.subsec_ms, SubSecType::Delta(_)));
    let t61 = complete(1120, 0, 1, 0, 0, [-1; 7]);
    let outside = enc.encode(t61);
    assert_eq!(outside.timestamp, Some(1120));
    assert!(matches!(outside.subsec_ms, SubSecType::Abs(_)));
}

#[test]
fn fold_vec_single_constant_record_is_identity() {
    let r = complete(1000, 500, 3, 2, 7, [250, 250, 250, 250, 250, 250, 250]);
    let f = FrameDataQ::fold_vec(&vec![r]);
    assert_eq!(f.timestamp, r.timestamp);
    assert_eq!(f.subsec_ms, r.subsec_ms);
    assert_eq!(f.inflight, r.inflight);
    assert_eq!(f.lost_packets, r.lost_packets);
    assert_eq!(f.recv_us_len, r.recv_us_len);
    assert_eq!(f.recv_us, r.recv_us);
}

#[test]
fn fold_vec_single_nonconstant_record_is_identity() {
    let r = complete(1000, 500, 3, 2, 7, [0, 0, 0, 0, 0, 0, 48]);
    let f = FrameDataQ::fold_vec(&vec![r]);
    assert_eq!(f.recv_us, r.recv_us);
    assert_eq!(f.timestamp, r.timestamp);
    assert_eq!(f.subsec_ms, r.subsec_ms);
    assert_eq!(f.inflight, r.inflight);
    assert_eq!(f.lost_packets, r.lost_packets);
    assert_eq!(f.recv_us_len, r.recv_us_len);
}

#[test]
fn fold_vec_single_empty_record_is_identity() {
    let r = complete(1000, 1, 4, 0, 0, [-1; 7]);
    let f = FrameDataQ::fold_vec(&vec![r]);
    assert_eq!(f.timestamp, r.timestamp);
    assert_eq!(f.subsec_ms, r.subsec_ms);
    assert_eq!(f.inflight, r.inflight);
    assert_eq!(f.recv_us, r.recv_us);
}

#[test]
fn fold_vec_two_records_averages() {
    let a = complete(1000, 0, 3, 2, 4, [100, 100, 100, 100, 100, 100, 100]);
    let b = complete(1000, 500, 4, 4, 6, [300, 300, 300, 300, 300, 300, 300]);
    let f = FrameDataQ::fold_vec(&vec![a, b]);
    assert_eq!(f.timestamp, Some(1000));
    assert_eq!(f.subsec_ms, SubSecType::Abs(250));
    // quadratic mean of 3 and 4 is sqrt(12.5), floored to 3
    assert_eq!(f.inflight, 3);
    assert_eq!(f.lost_packets, 3);
    assert_eq!(f.recv_us_len, 5);
    // pooled percentiles over seven 100s and seven 300s
    assert_eq!(f.recv_us[0], 100);
    assert_eq!(f.recv_us[6], 300);
}

#[test]
fn windowed_fold_walks_and_passes_through() {
    let frames = vec![
        complete(1000, 0, 1, 0, 7, [10, 10, 10, 10, 10, 10, 10]),
        complete(1001, 0, 2, 0, 7, [20, 20, 20, 20, 20, 20, 20]),
        complete(1002, 0, 3, 0, 7, [30, 30, 30, 30, 30, 30, 30]),
    ];
    // window and step of one pass records through unchanged
    let mut pass = FDCodecIterFold::from_iter(frames.clone(), 1, 1);
    let mut seen = 0;
    while let Some(d) = pass.next_fold() {
        assert_eq!(d.timestamp, frames[seen].timestamp);
        assert_eq!(d.recv_us, frames[seen].recv_us);
        seen += 1;
    }
    assert_eq!(seen, 3);
    // a window of two folds neighbouring records
    let mut fold = FDCodecIterFold::from_iter(frames, 2, 1);
    let first = fold.next_fold().expect("one record folds");
    assert_eq!(first.timestamp, Some(1000));
    let second = fold.next_fold().expect("two records fold");
    // mean of 1000.0 s and 1001.0 s
    assert_eq!(second.timestamp, Some(1000));
    assert_eq!(second.subsec_ms, SubSecType::Abs(500));
    assert_eq!(second.recv_us[0], 10);
    assert_eq!(second.recv_us[6], 20);
}

#[test]
fn record_bytes_round_trip() {
    let cfg = FDCodecCfg { full_encode_secs: 60, recv_llq: None, delta_enc: false };
    let mut enc = FDCodecState::new(cfg);
    let r = complete(1700000000, 250, 5, 2, 9, [100, 200, 300, 500, 700, 800, 900]);
    let e = enc.encode(r);
    let bytes = e.to_rmp();
    let (back, used) = FrameDataQ::from_rmp(&bytes, 0).expect("record must parse");
    assert_eq!(used, bytes.len());
    assert_eq!(back.timestamp, e.timestamp);
    assert_eq!(back.subsec_ms, e.subsec_ms);
    assert_eq!(back.inflight, e.inflight);
    assert_eq!(back.lost_packets, e.lost_packets);
    assert_eq!(back.recv_us_len, e.recv_us_len);
    assert_eq!(back.recv_us, e.recv_us);
}

#[test]
fn header_fields_and_version_checks() {
    let cfg = FDCodecCfg { full_encode_secs: 60, recv_llq: None, delta_enc: false };
    let hdr = FDCodecState::get_header(cfg);
    // cross-check the exact bytes against an independent writer
    let mut want: Vec<u8> = vec![];
    rmp::encode::write_map_len(&mut want, 5).unwrap();
    rmp::encode::write_str(&mut want, "schema").unwrap();
    rmp::encode::write_str(&mut want, "FDCodec").unwrap();
    rmp::encode::write_str(&mut want, "version").unwrap();
    rmp::encode::write_uint(&mut want, 101).unwrap();
    rmp::encode::write_str(&mut want, "full_encode_secs").unwrap();
    rmp::encode::write_uint(&mut want, 60).unwrap();
    rmp::encode::write_str(&mut want, "recv_llq").unwrap();
    rmp::encode::write_nil(&mut want).unwrap();
    rmp::encode::write_str(&mut want, "delta_enc").unwrap();
    rmp::encode::write_bool(&mut want, false).unwrap();
    assert_eq!(hdr, want);
    let (cfg2, used) = FDCodecState::try_from_header(&hdr, 0).expect("own header must parse");
    assert_eq!(used, hdr.len());
    assert_eq!(cfg2.full_encode_secs, 60);
    assert!(cfg2.recv_llq.is_none());
    assert!(!cfg2.delta_enc);
}

#[test]
fn header_fields_read_in_any_order() {
    let mut hdr: Vec<u8> = vec![];
    rmp::encode::write_map_len(&mut hdr, 5).unwrap();
    rmp::encode::write_str(&mut hdr, "delta_enc").unwrap();
    rmp::encode::write_bool(&mut hdr, true).unwrap();
    rmp::encode::write_str(&mut hdr, "version").unwrap();
    rmp::encode::write_uint(&mut hdr, 100).unwrap();
    rmp::encode::write_str(&mut hdr, "schema").unwrap();
    rmp::encode::write_str(&mut hdr, "FDCodec").unwrap();
    rmp::encode::write_str(&mut hdr, "recv_llq").unwrap();
    rmp::encode::write_nil(&mut hdr).unwrap();
    rmp::encode::write_str(&mut hdr, "full_encode_secs").unwrap();
    rmp::encode::write_uint(&mut hdr, 30).unwrap();
    let (cfg, used) = FDCodecState::try_from_header(&hdr, 0).expect("any field order reads");
    assert_eq!(used, hdr.len());
    assert_eq!(cfg.full_encode_secs, 30);
    assert!(cfg.recv_llq.is_none());
    assert!(cfg.delta_enc);
}

#[test]
fn header_accepts_a_zero_keyframe_interval() {
    let mut hdr: Vec<u8> = vec![];
    rmp::encode::write_map_len(&mut hdr, 5).unwrap();
    rmp::encode::write_str(&mut hdr, "schema").unwrap();
    rmp::encode::write_str(&mut hdr, "FDCodec").unwrap();
    rmp::encode::write_str(&mut hdr, "version").unwrap();
    rmp::encode::write_uint(&mut hdr, 101).unwrap();
    rmp::encode::write_str(&mut hdr, "full_encode_secs").unwrap();
    rmp::encode::write_uint(&mut hdr, 0).unwrap();
    rmp::encode::write_str(&mut hdr, "recv_llq").unwrap();
    rmp::encode::write_nil(&mut hdr).unwrap();
    rmp::encode::write_str(&mut hdr, "delta_enc").unwrap();
    rmp::encode::write_bool(&mut hdr, false).unwrap();
    let (cfg, _) = FDCodecState::try_from_header(&hdr, 0).expect("a zero interval is lawful");
    assert_eq!(cfg.full_encode_secs, 0);
}

#[test]
fn header_rejects_newer_version() {
    let mut hdr: Vec<u8> = vec![];
    rmp::encode::write_map_len(&mut hdr, 5).unwrap();
    rmp::encode::write_str(&mut hdr, "schema").unwrap();
    rmp::encode::write_str(&mut hdr, "FDCodec").unwrap();
    rmp::encode::write_str(&mut hdr, "version").unwrap();
    rmp::encode::write_uint(&mut hdr, 102).unwrap();
    rmp::encode::write_str(&mut hdr, "full_encode_secs").unwrap();
    rmp::encode::write_uint(&mut hdr, 60).unwrap();
    rmp::encode::write_str(&mut hdr, "recv_llq").unwrap();
    rmp::encode::write_nil(&mut hdr).unwrap();
    rmp::encode::write_str(&mut hdr, "delta_enc").unwrap();
    rmp::encode::write_bool(&mut hdr, false).unwrap();
    let r = FDCodecState::try_from_header(&hdr, 0);
    assert!(matches!(r, Err(zzping::framedataq::XError::UnsupportedVersion)));
}

#[test]
fn header_rejects_other_schema() {
    let mut hdr: Vec<u8> = vec![];
    rmp::encode::write_map_len(&mut hdr, 5).unwrap();
    rmp::encode::write_str(&mut hdr, "schema").unwrap();
    rmp::encode::write_str(&mut hdr, "Other").unwrap();
    rmp::encode::write_str(&mut hdr, "version").unwrap();
    rmp::encode::write_uint(&mut hdr, 101).unwrap();
    rmp::encode::write_str(&mut hdr, "full_encode_secs").unwrap();
    rmp::encode::write_uint(&mut hdr, 60).unwrap();
    rmp::encode::write_str(&mut hdr, "recv_llq").unwrap();
    rmp::encode::write_nil(&mut hdr).unwrap();
    rmp::encode::write_str(&mut hdr, "delta_enc").unwrap();
    rmp::encode::write_bool(&mut hdr, false).unwrap();
    let r = FDCodecState::try_from_header(&hdr, 0);
    assert!(matches!(r, Err(zzping::framedataq::XError::WrongSchema)));
}

#[test]
fn iterator_walks_a_whole_log() {
    let cfg = FDCodecCfg { full_encode_secs: 60, recv_llq: None, delta_enc: false };
    let mut log = FDCodecState::get_header(cfg);
    let mut enc = FDCodecState::new(cfg);
    let records = vec![
        complete(2000, 0, 1, 0, 9, [100, 200, 300, 500, 700, 800, 900]),
        complete(2001, 500, 2, 1, 4, [90, 100, 110, 150, 180, 200, 220]),
        complete(2090, 0, 0, 0, 0, [-1; 7]),
    ];
    for r in &records {
        let e = enc.encode(*r);
        log.extend_from_slice(&e.to_rmp());
    }
    let mut it = FDCodecIter::new(log).expect("header must open");
    let mut seen = 0;
    while let Some(d) = it.next_record().expect("records must decode") {
        assert_eq!(d.timestamp, records[seen].timestamp);
        assert_eq!(d.subsec_ms, records[seen].subsec_ms);
        assert_eq!(d.recv_us, records[seen].recv_us);
        seen += 1;
    }
    assert_eq!(seen, 3);
}

#[test]
fn iterator_round_trips_quantized_delta_log() {
    let cfg = FDCodecCfg {
        full_encode_secs: 60,
        recv_llq: Some(LinearLogQuantizer::new(10)),
        delta_enc: true,
    };
    let mut log = FDCodecState::get_header(cfg);
    let mut enc = FDCodecState::new(cfg);
    let records = vec![
        complete(3000, 100, 1, 0, 9, [900, 2000, 30000, 50000, 70000, 80000, 90000]),
        complete(3000, 600, 2, 1, 4, [880, 1900, 29000, 52000, 71000, 82000, 93000]),
        complete(3002, 0, 1, 0, 5, [910, 2100, 31000, 49000, 69000, 79000, 88000]),
    ];
    for r in &records {
        let e = enc.encode(*r);
        log.extend_from_slice(&e.to_rmp());
    }
    let mut it = FDCodecIter::new(log).expect("header must open");
    let mut seen = 0;
    while let Some(d) = it.next_record().expect("records must decode") {
        let r = &records[seen];
        assert_eq!(d.timestamp, r.timestamp);
        assert_eq!(d.subsec_ms, r.subsec_ms);
        assert_eq!(d.inflight, r.inflight);
        for i in 0..7 {
            let orig = r.recv_us[i];
            let back = d.recv_us[i];
            assert!(back <= orig);
            assert!((orig - back) * 1024 <= orig);
        }
        seen += 1;
    }
    assert_eq!(seen, 3);
}

#[test]
fn record_reader_rejects_truncated_bytes() {
    let cfg = FDCodecCfg { full_encode_secs: 60, recv_llq: None, delta_enc: false };
    let mut enc = FDCodecState::new(cfg);
    let r = complete(1000, 1, 3, 1, 9, [100, 200, 300, 500, 700, 800, 900]);
    let bytes = enc.encode(r).to_rmp();
    let cut = &bytes[..bytes.len() - 2];
    assert!(FrameDataQ::from_rmp(cut, 0).is_err());
}

#[test]
fn uint_and_sint_bytes_match_reference_writer() {
    for v in [0u64, 5, 127, 128, 255, 256, 65535, 65536, 4294967295, 4294967296, u64::MAX] {
        let mut mine: Vec<u8> = vec![];
        zzping::dynrmp::write_uint(&mut mine, v);
        let mut want: Vec<u8> = vec![];
        rmp::encode::write_uint(&mut want, v).unwrap();
        assert_eq!(mine, want);
    }
    for v in [0i64, -1, -32, -33, -128, -129, -32768, -32769, i64::MIN, i64::MAX] {
        let mut mine: Vec<u8> = vec![];
        zzping::dynrmp::write_sint(&mut mine, v);
        let mut want: Vec<u8> = vec![];
        rmp::encode::write_sint(&mut want, v).unwrap();
        assert_eq!(mine, want);
    }
}

#[test]
fn binary_reader_accepts_reference_writer() {
    let mut buf: Vec<u8> = vec![];
    rmp::encode::write_bin(&mut buf, &[1, 2, 3, 250]).unwrap();
    let (v, p) = zzping::dynrmp::read_bin(&buf, 0).unwrap();
    assert_eq!(v, vec![1, 2, 3, 250]);
    assert_eq!(p, buf.len());
}

#[test]
fn marker_bytes_classify() {
    assert_eq!(VType::from_marker(0x05), VType::Integer);
    assert_eq!(VType::from_marker(0xff), VType::Integer);
    assert_eq!(VType::from_marker(0xa3), VType::String);
    assert_eq!(VType::from_marker(0xc0), VType::Null);
    assert_eq!(VType::from_marker(0xc3), VType::Bool);
    assert_eq!(VType::from_marker(0x93), VType::Array);
    assert_eq!(VType::from_marker(0x83), VType::MapKind);
    assert_eq!(VType::from_marker(0xcb), VType::Float);
    assert_eq!(VType::from_marker(0xc4), VType::Binary);
    assert_eq!(VType::from_marker(0xd5), VType::Extension);
    assert_eq!(VType::from_marker(0xc1), VType::Reserved);
}

#[test]
fn reader_accepts_reference_writer_ints() {
    let mut buf: Vec<u8> = vec![];
    rmp::encode::write_sint(&mut buf, -77).unwrap();
    rmp::encode::write_uint(&mut buf, 1_000_000).unwrap();
    let (a, p1) = zzping::dynrmp::read_int(&buf, 0).unwrap();
    assert_eq!(a, -77);
    let (b, p2) = zzping::dynrmp::read_int(&buf, p1).unwrap();
    assert_eq!(b, 1_000_000);
    assert_eq!(p2, buf.len());
}
