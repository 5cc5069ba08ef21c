//! The residual stages: predictor, corrector, and the symbol mapper.

use zzping::corrector::{BasicCorrector, DiffValue, ValueType};
use zzping::huffman::CompositeStage;
use zzping::huffmapper::{HuffmanMapS, WeightFn};
use zzping::predict::WindowMedianPredictor;

struct FlatFn {
    item_count: u64,
}

impl WeightFn for FlatFn {
    fn compute_fn(&mut self, _size: usize) {}

    fn get_range(&self, from: usize, to: usize) -> u64 {
        (to - from) as u64 * self.item_count
    }
}

#[test]
fn predictor_median_of_window() {
    let mut p = WindowMedianPredictor::new(3);
    assert_eq!(p.predict(), None);
    p.push_value(10);
    assert_eq!(p.predict(), Some(10));
    p.push_value(30);
    // median of {10, 30} is 20
    assert_eq!(p.predict(), Some(20));
    p.push_value(20);
    assert_eq!(p.predict(), Some(20));
    // the window holds three: pushing 100 drops the oldest (10)
    p.push_value(100);
    assert_eq!(p.predict(), Some(30));
}

#[test]
fn corrector_round_trip() {
    let c = BasicCorrector::new();
    let d = c.diff(120, Some(100));
    assert_eq!(d, DiffValue { qtype: ValueType::Corrected, value: 20 });
    assert_eq!(c.undiff(Some(100), d), 120);
    let raw = c.diff(77, None);
    assert_eq!(raw, DiffValue { qtype: ValueType::Raw, value: 77 });
    assert_eq!(c.undiff(None, raw), 77);
}

#[test]
fn mapper_round_trips_residuals() {
    let m = HuffmanMapS::new(FlatFn { item_count: 3 });
    for v in [0i64, 1, -1, 15, -15, 16, -40, 63, 64, 100, -100, 250, 251, 500, -500, 1000, 2000,
        -2000, 5000]
    {
        let hk = m.to_hkey(DiffValue::new_corrected(v)).expect("in range");
        assert_eq!(hk.qtype, ValueType::Corrected);
        let back = m.from_hkey(hk).expect("key in range");
        assert_eq!(back, DiffValue::new_corrected(v));
    }
}

#[test]
fn mapper_round_trips_raw_values() {
    let m = HuffmanMapS::new(FlatFn { item_count: 3 });
    let hk = m.to_hkey(DiffValue::new_raw(3000)).expect("raw always maps");
    assert_eq!(hk.qtype, ValueType::Raw);
    assert_eq!(hk.key, 1000012);
    assert_eq!(hk.extra_bits, 12);
    let back = m.from_hkey(hk).unwrap();
    assert_eq!(back, DiffValue::new_raw(3000));
}

#[test]
fn mapper_partial_key_knows_extra_bits() {
    let m = HuffmanMapS::new(FlatFn { item_count: 3 });
    // a symbol in the dense region carries no extra bits
    let pk = m.get_partial_hkey(5).unwrap();
    assert_eq!(pk.qtype, ValueType::Corrected);
    assert_eq!(pk.extra_bits, 0);
    // the raw symbol carries twelve
    let pr = m.get_partial_hkey(1000012).unwrap();
    assert_eq!(pr.qtype, ValueType::Raw);
    assert_eq!(pr.extra_bits, 12);
    let full = pr.add_extra_data(99);
    assert_eq!(full.extra_data, 99);
}

#[test]
fn mapper_weights_cover_signed_symbols() {
    let m = HuffmanMapS::new(FlatFn { item_count: 3 });
    let w = m.get_huffmap();
    // every configured symbol appears, positive and negative, plus raw
    assert!(w.iter().any(|(k, _)| *k == 0));
    assert!(w.iter().any(|(k, _)| *k == 5));
    assert!(w.iter().any(|(k, _)| *k == -5));
    assert!(w.iter().any(|(k, _)| *k == 1000012));
}

#[test]
fn composite_test1() {
    // precision 0.001 maps to the nearest dyadic precision, 2^-10
    let window = 1;
    let mut cs_enc = CompositeStage::new(FlatFn { item_count: 3 }, 10, window);
    let mut buffer = bit_vec::BitVec::new();
    let data: Vec<i64> = vec![100, 110, 120, 130, 125, 112, 115, 80, 155];
    for d in data.iter() {
        cs_enc.encode(&mut buffer, *d).expect("values in range must code");
    }
    let mut cs_dec = CompositeStage::new(FlatFn { item_count: 3 }, 10, window);
    let mut pos = 0;
    let mut new_data: Vec<i64> = vec![];
    for _ in 0..data.len() {
        match cs_dec.decode(&buffer, pos) {
            Ok((v, p2)) => {
                new_data.push(v);
                pos = p2;
            }
            Err(()) => break,
        }
    }
    let v = cs_dec.decode(&buffer, pos);
    if v.is_ok() {
        panic!("Expected an error after consuming items!");
    }
    assert_eq!(data, new_data);
}
