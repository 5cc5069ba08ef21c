//! Quantile summaries of the frame log and the stateful codec that packs
//! them: percentile reduction, timestamp delta-encoding, and the optional
//! lossy quantization of the RTT quantiles.

use vstd::prelude::*;
use crate::framedata::{FrameData, FrameTime};
use crate::numutil::{isqrt_u128, sort_u128, sorted_u128};
use crate::dynrmp::{
    write_strbytes, bytes_eq,
    enc_uint, enc_sint, enc_nil, enc_bool, enc_strbytes, enc_f64bits, enc_array_len, enc_map_len,
    parse_int, parse_nil, parse_bool, parse_strbytes, parse_f64bits, parse_array_len,
    parse_map_len, write_uint, write_sint, write_nil, write_bool, write_f64bits, write_array_len,
    write_map_len, read_int, read_nil, read_bool, read_strbytes, read_f64bits, read_array_len,
    read_map_len, DError, lemma_parse_int_enc_uint, lemma_parse_int_enc_sint, lemma_parse_nil_enc,
    lemma_parse_bool_enc, lemma_parse_strbytes_enc, lemma_parse_f64bits_enc,
    lemma_parse_array_len_enc, lemma_parse_map_len_enc,
};
use crate::quantize::{LinearLogQuantizer, llq_encode, llq_decode, llq_bucket_in_range, p2, lemma_llq_round_trip};

verus! {

/// A sub-second part: absolute milliseconds within the second, or
/// milliseconds since the previous record.
#[derive(Debug, Clone, Copy, PartialEq, Eq, Structural)]
pub enum SubSecType {
    Abs(u32),
    Delta(u32),
}

impl SubSecType {
    /// The delta value; the caller must know this is a delta.
    pub fn unwrap_delta(&self) -> (r: u32)
        requires
            self is Delta,
        ensures
            self == SubSecType::Delta(r),
    {
        match self {
            SubSecType::Delta(v) => *v,
            SubSecType::Abs(_) => unreached(),
        }
    }

    /// The absolute value; the caller must know this is absolute.
    pub fn unwrap_abs(&self) -> (r: u32)
        requires
            self is Abs,
        ensures
            self == SubSecType::Abs(r),
    {
        match self {
            SubSecType::Abs(v) => *v,
            SubSecType::Delta(_) => unreached(),
        }
    }

    /// The absolute value, or the delta added onto `reference`.
    pub fn unwrap_abs_or_add(&self, reference: u32) -> (r: u32)
        requires
            self matches SubSecType::Delta(v) ==> v + reference <= u32::MAX,
        ensures
            match self {
                SubSecType::Abs(v) => r == v,
                SubSecType::Delta(v) => r == v + reference,
            },
    {
        match self {
            SubSecType::Abs(v) => *v,
            SubSecType::Delta(v) => *v + reference,
        }
    }
}

/// Marker for a record whose timestamp and samples are plain values.
#[derive(Debug, Clone, Copy)]
pub struct Complete;

/// Marker for a record that has passed the codec.
#[derive(Debug, Clone, Copy)]
pub struct Encoded;

/// The quantile summary of one frame: timestamp split into seconds and
/// sub-second milliseconds, the in-flight and lost counts, the number of
/// samples, and the seven RTT percentiles (0, 12.5, 25, 50, 75, 87.5, 100).
#[derive(Debug, Clone, Copy)]
pub struct FrameDataQ<T> {
    /// The codec-stage marker, `Complete` or `Encoded`.
    pub phantom: T,
    pub timestamp: Option<i64>,
    pub subsec_ms: SubSecType,
    pub inflight: u32,
    pub lost_packets: u32,
    pub recv_us_len: usize,
    pub recv_us: [i64; 7],
}

// ---- percentile reduction ----

/// The seven percentile fractions, in eighths.
pub open spec fn pfrac(i: int) -> int {
    if i == 0 {
        0
    } else if i == 1 {
        1
    } else if i == 2 {
        2
    } else if i == 3 {
        4
    } else if i == 4 {
        6
    } else if i == 5 {
        7
    } else {
        8
    }
}

/// The interpolated percentile of a sorted list at fraction `num/8`: the
/// value at index `num*(len-1)/8`, linearly interpolated between neighbours
/// and rounded to the nearest integer.
pub open spec fn pctl(v: Seq<u128>, num: int) -> int
    recommends
        v.len() >= 1,
        0 <= num <= 8,
{
    let idx = num * (v.len() - 1);
    let pl = idx / 8;
    let rem = idx % 8;
    if rem == 0 {
        v[pl] as int
    } else {
        (v[pl] * (8 - rem) + v[pl + 1] * rem + 4) / 8
    }
}

/// The seven percentiles of a sorted sample list; all `-1` when it is empty.
pub open spec fn percentiles7(v: Seq<u128>) -> Seq<int> {
    if v.len() == 0 {
        Seq::new(7, |i: int| -1)
    } else {
        Seq::new(7, |i: int| pctl(v, pfrac(i)))
    }
}

/// For a non-empty sorted input the seven percentiles never decrease.
pub proof fn lemma_percentiles_monotone(v: Seq<u128>)
    requires
        v.len() >= 1,
        sorted_u128(v),
    ensures
        forall|i: int| 0 <= i < 6 ==> #[trigger] percentiles7(v)[i] <= percentiles7(v)[i + 1],
{
    assert forall|i: int| 0 <= i < 6 implies #[trigger] percentiles7(v)[i] <= percentiles7(v)[i
        + 1] by {
        lemma_pctl_monotone(v, pfrac(i), pfrac(i + 1));
    }
}

proof fn lemma_pctl_in_bounds(v: Seq<u128>, num: int)
    requires
        v.len() >= 1,
        0 <= num <= 8,
    ensures
        ({
            let idx = num * (v.len() - 1);
            let pl = idx / 8;
            &&& 0 <= pl < v.len()
            &&& (idx % 8 != 0 ==> pl + 1 < v.len())
        }),
{
    let n = v.len() as int;
    let idx = num * (n - 1);
    assert(0 <= idx <= 8 * (n - 1)) by (nonlinear_arith)
        requires
            0 <= num <= 8,
            n >= 1,
            idx == num * (n - 1),
    ;
    assert(idx / 8 <= n - 1) by (nonlinear_arith)
        requires
            0 <= idx <= 8 * (n - 1),
            n >= 1,
    ;
    if idx % 8 != 0 {
        assert(idx < 8 * (n - 1));
        assert(idx / 8 < n - 1) by (nonlinear_arith)
            requires
                0 <= idx,
                idx < 8 * (n - 1),
                idx % 8 != 0,
                n >= 1,
        ;
    }
}

/// The interpolated value sits between its two neighbours.
proof fn lemma_pctl_value_bounds(v: Seq<u128>, num: int)
    requires
        v.len() >= 1,
        0 <= num <= 8,
        sorted_u128(v),
    ensures
        ({
            let idx = num * (v.len() - 1);
            let pl = idx / 8;
            &&& v[pl] <= pctl(v, num)
            &&& (idx % 8 != 0 ==> pctl(v, num) <= v[pl + 1])
        }),
{
    lemma_pctl_in_bounds(v, num);
    let idx = num * (v.len() - 1);
    let pl = idx / 8;
    let rem = idx % 8;
    if rem != 0 {
        let a = v[pl] as int;
        let b = v[pl + 1] as int;
        assert(a <= b);
        assert(a * 8 <= a * (8 - rem) + b * rem && a * (8 - rem) + b * rem <= b * 8)
            by (nonlinear_arith)
            requires
                0 <= a <= b,
                0 < rem < 8,
        ;
        assert(a <= (a * (8 - rem) + b * rem + 4) / 8 <= b) by (nonlinear_arith)
            requires
                a * 8 <= a * (8 - rem) + b * rem,
                a * (8 - rem) + b * rem <= b * 8,
                0 <= a,
        ;
    }
}

proof fn lemma_pctl_monotone(v: Seq<u128>, n1: int, n2: int)
    requires
        v.len() >= 1,
        sorted_u128(v),
        0 <= n1 <= n2 <= 8,
    ensures
        pctl(v, n1) <= pctl(v, n2),
{
    let len1 = v.len() - 1;
    let i1 = n1 * len1;
    let i2 = n2 * len1;
    assert(i1 <= i2) by (nonlinear_arith)
        requires
            n1 <= n2,
            len1 >= 0,
            i1 == n1 * len1,
            i2 == n2 * len1,
    ;
    lemma_pctl_in_bounds(v, n1);
    lemma_pctl_in_bounds(v, n2);
    lemma_pctl_value_bounds(v, n1);
    lemma_pctl_value_bounds(v, n2);
    let pl1 = i1 / 8;
    let rem1 = i1 % 8;
    let pl2 = i2 / 8;
    let rem2 = i2 % 8;
    assert(pl1 <= pl2) by (nonlinear_arith)
        requires
            0 <= i1 <= i2,
            pl1 == i1 / 8,
            pl2 == i2 / 8,
    ;
    if pl1 == pl2 {
        if rem1 == 0 {
            // pctl(v, n1) == v[pl1] <= pctl(v, n2)
        } else {
            assert(rem1 <= rem2) by (nonlinear_arith)
                requires
                    i1 <= i2,
                    pl1 == pl2,
                    rem1 == i1 % 8,
                    rem2 == i2 % 8,
                    pl1 == i1 / 8,
                    pl2 == i2 / 8,
                    0 <= i1,
                    0 <= i2,
            ;
            let a = v[pl1] as int;
            let b = v[pl1 + 1] as int;
            assert(a * (8 - rem1) + b * rem1 <= a * (8 - rem2) + b * rem2) by (nonlinear_arith)
                requires
                    a <= b,
                    0 < rem1 <= rem2 < 8,
            ;
            assert((a * (8 - rem1) + b * rem1 + 4) / 8 <= (a * (8 - rem2) + b * rem2 + 4) / 8)
                by (nonlinear_arith)
                requires
                    a * (8 - rem1) + b * rem1 <= a * (8 - rem2) + b * rem2,
            ;
        }
    } else {
        // across blocks: pctl1 <= v[pl1 + 1] <= v[pl2] <= pctl2
        if rem1 == 0 {
            assert(v[pl1] <= v[pl2]);
        } else {
            assert(pl1 + 1 <= pl2);
            assert(v[pl1 + 1] <= v[pl2]);
            let a = v[pl1] as int;
            let b = v[pl1 + 1] as int;
            assert(a * (8 - rem1) + b * rem1 <= b * 8) by (nonlinear_arith)
                requires
                    a <= b,
                    0 < rem1 < 8,
            ;
            assert((a * (8 - rem1) + b * rem1 + 4) / 8 <= b) by (nonlinear_arith)
                requires
                    a * (8 - rem1) + b * rem1 <= b * 8,
                    0 <= a <= b,
        ;
        }
    }
}

fn pctl_at(v: &[u128], num: usize) -> (r: i64)
    requires
        1 <= v@.len() <= 0x1000000000000000,
        num <= 8,
        forall|i: int| 0 <= i < v@.len() ==> v@[i] <= i64::MAX as u128,
    ensures
        r == pctl(v@, num as int),
{
    let n = v.len();
    proof {
        assert((num as int) * ((n as int) - 1) <= 8 * 0x1000000000000000) by (nonlinear_arith)
            requires
                0 <= num <= 8,
                0 <= (n as int) - 1 <= 0x1000000000000000,
        ;
    }
    let idx: u128 = (num as u128) * ((n - 1) as u128);
    let pl128 = idx / 8;
    let rem = idx % 8;
    proof {
        lemma_pctl_in_bounds(v@, num as int);
        assert(idx == (num as int) * (n as int - 1));
        assert(pl128 < n);
    }
    let pl = pl128 as usize;
    if rem == 0 {
        v[pl] as i64
    } else {
        let a = v[pl];
        let b = v[pl + 1];
        proof {
            let m = i64::MAX as int;
            assert(a * (8 - rem as int) + b * (rem as int) + 4 <= 8 * m + 4) by (nonlinear_arith)
                requires
                    0 <= a <= m,
                    0 <= b <= m,
                    0 < (rem as int) && (rem as int) < 8,
            ;
            assert((a * (8 - rem as int) + b * (rem as int) + 4) / 8 <= m);
        }
        let r128 = (a * (8 - rem) + b * rem + 4) / 8;
        r128 as i64
    }
}

impl FrameDataQ<Complete> {
    /// The seven interpolated percentiles of a sorted sample list, or seven
    /// `-1` when there are no samples.
    pub fn compute_percentiles(v: &[u128]) -> (r: [i64; 7])
        requires
            v@.len() <= 0x1000000000000000,
            forall|i: int| 0 <= i < v@.len() ==> v@[i] <= i64::MAX as u128,
        ensures
            forall|i: int| 0 <= i < 7 ==> r@[i] == percentiles7(v@)[i],
    {
        if v.len() == 0 {
            let r: [i64; 7] = [-1, -1, -1, -1, -1, -1, -1];
            return r;
        }
        let r: [i64; 7] = [
            pctl_at(v, 0),
            pctl_at(v, 1),
            pctl_at(v, 2),
            pctl_at(v, 4),
            pctl_at(v, 6),
            pctl_at(v, 7),
            pctl_at(v, 8),
        ];
        r
    }

    /// Reduces a frame to its quantile summary: the timestamp split into
    /// seconds and milliseconds (or the elapsed tag kept as milliseconds),
    /// the counts, and the percentiles of the sorted samples.
    pub fn from_framedata(fd: &FrameData) -> (r: Self)
        requires
            fd.time matches FrameTime::Elapsed(e) ==> e / 1000 <= u32::MAX,
            fd.time matches FrameTime::Timestamp(s, us) ==> us < 1000000,
            fd.recv_us@.len() <= 0x1000000000000000,
            forall|i: int| 0 <= i < fd.recv_us@.len() ==> fd.recv_us@[i] <= i64::MAX as u128,
        ensures
            r.timestamp == (match fd.time {
                FrameTime::Timestamp(s, _) => Some(s),
                FrameTime::Elapsed(_) => None::<i64>,
            }),
            r.subsec_ms == (match fd.time {
                FrameTime::Timestamp(_, us) => SubSecType::Abs((us / 1000) as u32),
                FrameTime::Elapsed(e) => SubSecType::Abs((e / 1000) as u32),
            }),
            r.inflight == (if fd.inflight > u32::MAX { u32::MAX } else { fd.inflight as u32 }),
            r.lost_packets == (if fd.lost_packets > u32::MAX {
                u32::MAX
            } else {
                fd.lost_packets as u32
            }),
            r.recv_us_len == fd.recv_us@.len(),
            forall|i: int| 0 <= i < 7 ==> r.recv_us@[i] == percentiles7(fd.recv_us@)[i],
    {
        let (timestamp, subsec_ms): (Option<i64>, SubSecType) = match fd.time {
            FrameTime::Timestamp(s, us) => (Some(s), SubSecType::Abs(us / 1000)),
            FrameTime::Elapsed(e) => (None, SubSecType::Abs((e / 1000) as u32)),
        };
        let inflight: u32 = if fd.inflight > u32::MAX as usize {
            u32::MAX
        } else {
            fd.inflight as u32
        };
        let lost_packets: u32 = if fd.lost_packets > u32::MAX as usize {
            u32::MAX
        } else {
            fd.lost_packets as u32
        };
        FrameDataQ {
            phantom: Complete,
            timestamp,
            subsec_ms,
            inflight,
            lost_packets,
            recv_us_len: fd.recv_us.len(),
            recv_us: Self::compute_percentiles(fd.recv_us.as_slice()),
        }
    }

    /// The timestamp in milliseconds; the record must carry an absolute time.
    pub fn get_timestamp_ms(&self) -> (r: i128)
        requires
            self.timestamp is Some,
            self.subsec_ms is Abs,
        ensures
            r == self.timestamp.unwrap() * 1000 + self.subsec_ms->Abs_0,
    {
        let ts = match self.timestamp {
            Some(t) => t,
            None => unreached(),
        };
        let subsec_ms = self.unwrap_abs_ms();
        ts as i128 * 1000 + subsec_ms as i128
    }

    fn unwrap_abs_ms(&self) -> (r: u32)
        requires
            self.subsec_ms is Abs,
        ensures
            self.subsec_ms == SubSecType::Abs(r),
    {
        self.subsec_ms.unwrap_abs()
    }
}

// ---- aggregation over records ----

/// Records fit for folding: an absolute, bounded timestamp and bounded
/// sample percentiles.
pub open spec fn foldable(d: FrameDataQ<Complete>) -> bool {
    &&& d.timestamp matches Some(ts) && 0 <= ts <= 0x10000000000
    &&& d.subsec_ms matches SubSecType::Abs(v) && v < 1000
    &&& forall|i: int| 0 <= i < 7 ==> -1 <= #[trigger] d.recv_us@[i] <= i64::MAX
}

pub open spec fn ts_ms_of(d: FrameDataQ<Complete>) -> int {
    d.timestamp.unwrap() * 1000 + d.subsec_ms->Abs_0
}

pub open spec fn sum_ts_ms(s: Seq<FrameDataQ<Complete>>, n: int) -> int
    decreases n,
{
    if n <= 0 {
        0
    } else {
        sum_ts_ms(s, n - 1) + ts_ms_of(s[n - 1])
    }
}

pub open spec fn sum_inflight_sq(s: Seq<FrameDataQ<Complete>>, n: int) -> int
    decreases n,
{
    if n <= 0 {
        0
    } else {
        sum_inflight_sq(s, n - 1) + s[n - 1].inflight * s[n - 1].inflight
    }
}

pub open spec fn sum_lost(s: Seq<FrameDataQ<Complete>>, n: int) -> int
    decreases n,
{
    if n <= 0 {
        0
    } else {
        sum_lost(s, n - 1) + s[n - 1].lost_packets
    }
}

pub open spec fn sum_recv_len(s: Seq<FrameDataQ<Complete>>, n: int) -> int
    decreases n,
{
    if n <= 0 {
        0
    } else {
        sum_recv_len(s, n - 1) + s[n - 1].recv_us_len
    }
}

/// The non-negative percentile entries of the first `n` slots, as samples.
pub open spec fn samples_of(a: Seq<i64>, n: int) -> Seq<u128>
    decreases n,
{
    if n <= 0 {
        Seq::empty()
    } else {
        samples_of(a, n - 1) + (if a[n - 1] >= 0 {
            seq![a[n - 1] as u128]
        } else {
            Seq::empty()
        })
    }
}

/// All valid samples of the first `n` records.
pub open spec fn valid_samples(s: Seq<FrameDataQ<Complete>>, n: int) -> Seq<u128>
    decreases n,
{
    if n <= 0 {
        Seq::empty()
    } else {
        valid_samples(s, n - 1) + samples_of(s[n - 1].recv_us@, 7)
    }
}

/// What aggregating a window gives: the mean of the timestamps, the
/// quadratic mean of the in-flight counts, the mean of the lost and sample
/// counts, percentiles over the pooled valid samples, and the record itself
/// when the window holds exactly one.
pub open spec fn fold_post(data: Seq<FrameDataQ<Complete>>, r: FrameDataQ<Complete>) -> bool {
    let n = data.len() as int;
    let mean_ts = sum_ts_ms(data, n) / n;
    &&& r.timestamp == Some((mean_ts / 1000) as i64)
    &&& r.subsec_ms == SubSecType::Abs((mean_ts % 1000) as u32)
    &&& r.inflight * r.inflight <= sum_inflight_sq(data, n) / n < (r.inflight + 1) * (r.inflight
        + 1)
    &&& r.lost_packets == sum_lost(data, n) / n
    &&& r.recv_us_len == sum_recv_len(data, n) / n
    &&& (n > 1 ==> exists|m: Seq<u128>|
        sorted_u128(m) && #[trigger] m.to_multiset() == valid_samples(data, n).to_multiset() && (
        forall|i: int| 0 <= i < 7 ==> r.recv_us@[i] == percentiles7(m)[i]))
    &&& (n == 1 ==> r == data[0])
}

impl FrameDataQ<Complete> {
    /// Aggregates a window of records into one: the mean of the timestamps
    /// in milliseconds, the quadratic mean of the in-flight counts, the mean
    /// of the lost counts and sample counts, and a re-percentilization over
    /// the pooled valid samples of all inputs.
    pub fn fold_vec(data: &Vec<FrameDataQ<Complete>>) -> (r: Self)
        requires
            1 <= data@.len() <= 0x100000000,
            forall|i: int| 0 <= i < data@.len() ==> foldable(#[trigger] data@[i]),
        ensures
            fold_post(data@, r),
    {
        let n = data.len();
        if n == 1 {
            let r = data[0];
            proof {
                let d0 = data@[0];
                assert(foldable(d0));
                let ts = d0.timestamp.unwrap() as int;
                let sub = d0.subsec_ms->Abs_0 as int;
                assert(sum_ts_ms(data@, 0) == 0);
                assert(sum_inflight_sq(data@, 0) == 0);
                assert(sum_lost(data@, 0) == 0);
                assert(sum_recv_len(data@, 0) == 0);
                assert(sum_ts_ms(data@, 1) == ts * 1000 + sub);
                assert(sum_inflight_sq(data@, 1) == d0.inflight * d0.inflight);
                assert(sum_lost(data@, 1) == d0.lost_packets);
                assert(sum_recv_len(data@, 1) == d0.recv_us_len);
                assert((ts * 1000 + sub) / 1 == ts * 1000 + sub);
                assert((ts * 1000 + sub) / 1000 == ts && (ts * 1000 + sub) % 1000 == sub)
                    by (nonlinear_arith)
                    requires
                        0 <= sub < 1000,
                        ts >= 0,
                ;
                assert((d0.inflight * d0.inflight) as int / 1 == d0.inflight * d0.inflight);
                assert(d0.inflight * d0.inflight < (d0.inflight + 1) * (d0.inflight + 1))
                    by (nonlinear_arith)
                    requires
                        d0.inflight >= 0,
                ;
                assert((d0.lost_packets as int) / 1 == d0.lost_packets as int);
                assert((d0.recv_us_len as int) / 1 == d0.recv_us_len as int);
            }
            return r;
        }
        let mut sum_ms: i128 = 0;
        let mut sum_sq: u128 = 0;
        let mut sum_lp: u128 = 0;
        let mut sum_rl: u128 = 0;
        let mut samples: Vec<u128> = Vec::new();
        let mut i: usize = 0;
        while i < n
            invariant
                n == data@.len(),
                1 <= n <= 0x100000000,
                i <= n,
                forall|k: int| 0 <= k < data@.len() ==> foldable(#[trigger] data@[k]),
                sum_ms == sum_ts_ms(data@, i as int),
                0 <= sum_ms <= i * 0x4000000000000,
                sum_sq == sum_inflight_sq(data@, i as int),
                sum_sq <= i * 0xffffffff * 0xffffffff,
                sum_lp == sum_lost(data@, i as int),
                sum_lp <= i * 0xffffffff,
                sum_rl == sum_recv_len(data@, i as int),
                sum_rl <= i * (usize::MAX as u128),
                samples@ == valid_samples(data@, i as int),
                samples@.len() <= 7 * i,
                forall|k: int| 0 <= k < samples@.len() ==> #[trigger] samples@[k] <= i64::MAX
                    as u128,
            decreases n - i,
        {
            let d = &data[i];
            proof {
                assert(foldable(data@[i as int]));
            }
            let ts = match d.timestamp {
                Some(t) => t,
                None => unreached(),
            };
            let sub = d.subsec_ms.unwrap_abs();
            let infl = d.inflight as u128;
            proof {
                assert(ts * 1000 + sub <= 0x4000000000000) by (nonlinear_arith)
                    requires
                        0 <= ts <= 0x10000000000,
                        0 <= sub < 1000,
                ;
                assert((i + 1) * 0x4000000000000 == i * 0x4000000000000 + 0x4000000000000)
                    by (nonlinear_arith);
                assert((i + 1) * 0xffffffff == i * 0xffffffff + 0xffffffff) by (nonlinear_arith);
                assert((i + 1) * 0xffffffff * 0xffffffff == i * 0xffffffff * 0xffffffff
                    + 0xffffffff * 0xffffffff) by (nonlinear_arith);
                assert((i + 1) * 0xffffffffffffffff == i * 0xffffffffffffffff + 0xffffffffffffffff)
                    by (nonlinear_arith);
                assert(0x100000000 * 0x4000000000000 < 0x80000000000000000000000000000000)
                    by (nonlinear_arith);
                assert(sum_ms <= 0x100000000 * 0x4000000000000) by (nonlinear_arith)
                    requires
                        sum_ms <= i * 0x4000000000000,
                        i <= 0x100000000,
                ;
                assert(sum_sq + 0xffffffff * 0xffffffff <= 0x100000000 * 0xffffffff * 0xffffffff
                    + 0xffffffff * 0xffffffff) by (nonlinear_arith)
                    requires
                        sum_sq <= i * 0xffffffff * 0xffffffff,
                        i <= 0x100000000,
                ;
                assert(sum_lp + 0xffffffff <= 0x100000000 * 0xffffffff + 0xffffffff)
                    by (nonlinear_arith)
                    requires
                        sum_lp <= i * 0xffffffff,
                        i <= 0x100000000,
                ;
                assert(infl * infl <= 0xffffffff * 0xffffffff) by (nonlinear_arith)
                    requires
                        0 <= infl <= 0xffffffff,
                ;
                assert(0x100000000 * 0xffffffff * 0xffffffff + 0xffffffff * 0xffffffff
                    < 0x80000000000000000000000000000000) by (nonlinear_arith);
                assert(sum_rl + (usize::MAX as u128) <= 0x100000000 * 0xffffffffffffffff
                    + 0xffffffffffffffff) by (nonlinear_arith)
                    requires
                        sum_rl <= i * (usize::MAX as u128),
                        i <= 0x100000000,
                        usize::MAX as u128 <= 0xffffffffffffffff,
                ;
                assert(0x100000000 * 0xffffffffffffffff + 0xffffffffffffffff
                    < 0x80000000000000000000000000000000) by (nonlinear_arith);
            }
            sum_ms = sum_ms + (ts as i128 * 1000 + sub as i128);
            sum_sq = sum_sq + infl * infl;
            sum_lp = sum_lp + d.lost_packets as u128;
            sum_rl = sum_rl + d.recv_us_len as u128;
            let mut j: usize = 0;
            while j < 7
                invariant
                    j <= 7,
                    n == data@.len(),
                    i < n,
                    forall|k: int| 0 <= k < data@.len() ==> foldable(#[trigger] data@[k]),
                    d == data@[i as int],
                    samples@ == valid_samples(data@, i as int) + samples_of(d.recv_us@, j as int),
                    forall|k: int| 0 <= k < samples@.len() ==> #[trigger] samples@[k] <= i64::MAX
                        as u128,
                    samples@.len() <= 7 * i + j,
                decreases 7 - j,
            {
                let x = d.recv_us[j];
                if x >= 0 {
                    samples.push(x as u128);
                }
                proof {
                    assert(samples@ =~= valid_samples(data@, i as int) + samples_of(
                        d.recv_us@,
                        j + 1,
                    ));
                }
                j += 1;
            }
            proof {
                assert(samples@ =~= valid_samples(data@, i + 1));
            }
            i += 1;
        }
        let mean_ms: i128 = sum_ms / n as i128;
        let mean_sq: u128 = sum_sq / n as u128;
        let mean_lp: u128 = sum_lp / n as u128;
        let mean_rl: u128 = sum_rl / n as u128;
        proof {
            assert(0 <= mean_ms <= 0x4000000000000) by (nonlinear_arith)
                requires
                    0 <= sum_ms <= n * 0x4000000000000,
                    n >= 1,
                    mean_ms == (sum_ms as int) / (n as int),
            ;
            assert(mean_sq <= 0xffffffff * 0xffffffff) by (nonlinear_arith)
                requires
                    0 <= sum_sq <= n * 0xffffffff * 0xffffffff,
                    n >= 1,
                    mean_sq == (sum_sq as int) / (n as int),
            ;
            assert(mean_lp <= 0xffffffff) by (nonlinear_arith)
                requires
                    0 <= sum_lp <= n * 0xffffffff,
                    n >= 1,
                    mean_lp == (sum_lp as int) / (n as int),
            ;
            assert(mean_rl <= usize::MAX as u128) by (nonlinear_arith)
                requires
                    0 <= sum_rl <= n * (usize::MAX as u128),
                    n >= 1,
                    mean_rl == (sum_rl as int) / (n as int),
            ;
        }
        let inflight_mean = isqrt_u128(mean_sq);
        proof {
            assert(inflight_mean <= 0xffffffff) by (nonlinear_arith)
                requires
                    inflight_mean * inflight_mean <= mean_sq,
                    mean_sq <= 0xffffffff * 0xffffffff,
                    inflight_mean >= 0,
            ;
        }
        let sorted = sort_u128(&samples);
        proof {
            assert(forall|k: int|
                0 <= k < sorted@.len() ==> #[trigger] sorted@[k] <= i64::MAX as u128) by {
                assert forall|k: int|
                    0 <= k < sorted@.len() implies #[trigger] sorted@[k] <= i64::MAX as u128 by {
                    broadcast use vstd::seq_lib::group_to_multiset_ensures;

                    assert(sorted@.to_multiset().contains(sorted@[k]));
                    assert(samples@.to_multiset().contains(sorted@[k]));
                    assert(samples@.contains(sorted@[k]));
                }
            }
            assert(sorted@.len() <= 0x1000000000000000);
        }
        let recv_us = Self::compute_percentiles(sorted.as_slice());
        proof {
            let w = sorted@;
            assert(sorted_u128(w) && w.to_multiset() == valid_samples(
                data@,
                data@.len() as int,
            ).to_multiset());
        }
        FrameDataQ {
            phantom: Complete,
            timestamp: Some((mean_ms / 1000) as i64),
            subsec_ms: SubSecType::Abs((mean_ms % 1000) as u32),
            inflight: inflight_mean as u32,
            lost_packets: mean_lp as u32,
            recv_us_len: mean_rl as usize,
            recv_us,
        }
    }
}

// ---- the stateful codec ----

/// Codec configuration: how often to emit a full timestamp, the optional
/// quantizer for the RTT percentiles, and whether the sample baseline is
/// delta-encoded across records.
#[derive(Debug, Clone, Copy)]
pub struct FDCodecCfg {
    /// Seconds between full timestamp encodings.
    pub full_encode_secs: i64,
    /// Quantization for the recv_us percentiles.
    pub recv_llq: Option<LinearLogQuantizer>,
    /// Baseline the percentiles against the previous record's minimum.
    pub delta_enc: bool,
}

impl Default for FDCodecCfg {
    fn default() -> (r: Self)
        ensures
            r.full_encode_secs == 60,
            r.recv_llq is None,
            !r.delta_enc,
    {
        Self { full_encode_secs: 60, recv_llq: None, delta_enc: false }
    }
}

pub open spec fn wf_cfg(cfg: FDCodecCfg) -> bool {
    &&& 0 <= cfg.full_encode_secs <= 4294000
    &&& (cfg.recv_llq matches Some(q) ==> q.wf())
}

/// Codec state: the last keyframe parts and the sample baseline.
#[derive(Debug, Clone, Copy)]
pub struct FDCodecState {
    pub cfg: FDCodecCfg,
    pub last_timestamp: Option<i64>,
    pub last_subsec_ms: u32,
    pub last_recvq_0: i64,
}

impl Default for FDCodecState {
    fn default() -> (r: Self)
        ensures
            r.cfg.full_encode_secs == 60,
            r.cfg.recv_llq is None,
            !r.cfg.delta_enc,
            r.last_timestamp is None,
            r.last_subsec_ms == 0,
            r.last_recvq_0 == 0,
    {
        Self {
            cfg: FDCodecCfg::default(),
            last_timestamp: None,
            last_subsec_ms: 0,
            last_recvq_0: 0,
        }
    }
}

pub open spec fn wf_state(st: FDCodecState) -> bool {
    &&& wf_cfg(st.cfg)
    &&& st.last_subsec_ms < 1000
    &&& (st.last_timestamp matches Some(ts) ==> 0 <= ts <= 0x10000000000)
    &&& -0x3fffffffffffffff <= st.last_recvq_0 <= 0x3fffffffffffffff
}

/// A record the encoder accepts: an absolute bounded timestamp, a sub-second
/// part below one second, and bounded percentiles that are non-negative when
/// samples are present.
pub open spec fn encodable(d: FrameDataQ<Complete>) -> bool {
    &&& d.timestamp matches Some(ts) && 0 <= ts <= 0x10000000000
    &&& d.subsec_ms matches SubSecType::Abs(v) && v < 1000
    &&& forall|i: int| 0 <= i < 7 ==> -1 <= #[trigger] d.recv_us@[i] <= 0x3fffffffffffffff
    &&& d.recv_us_len > 0 ==> forall|i: int| 0 <= i < 7 ==> 0 <= #[trigger] d.recv_us@[i]
}

/// When the encoder may emit a delta record against the state.
pub open spec fn delta_ok(st: FDCodecState, ts: int, part: int) -> bool {
    &&& st.last_timestamp matches Some(last)
    &&& last <= ts
    &&& ts - last < st.cfg.full_encode_secs
    &&& (ts - last) * 1000 + part >= st.last_subsec_ms
}

/// The precision exponent of the configured quantizer.
pub open spec fn st_k(st: FDCodecState) -> nat {
    st.cfg.recv_llq.unwrap().k()
}

/// One percentile entry after encoding.
pub open spec fn enc_entry(st: FDCodecState, v: int) -> int {
    match st.cfg.recv_llq {
        Some(q) => llq_encode(q.k(), v) - st.last_recvq_0,
        None => v,
    }
}

/// One percentile entry after decoding.
pub open spec fn dec_entry(st: FDCodecState, v: int) -> int {
    match st.cfg.recv_llq {
        Some(q) => llq_decode(q.k(), v + st.last_recvq_0),
        None => v,
    }
}

/// The encoded form of `d` against state `st`.
pub open spec fn peek_encode_spec(st: FDCodecState, d: FrameDataQ<Complete>) -> FrameDataQ<
    Encoded,
> {
    let ts = d.timestamp.unwrap();
    let part = d.subsec_ms->Abs_0;
    let recv = if st.cfg.recv_llq is Some && d.recv_us_len > 0 {
        Seq::new(7, |i: int| enc_entry(st, d.recv_us@[i] as int))
    } else {
        Seq::new(7, |i: int| d.recv_us@[i] as int)
    };
    FrameDataQ {
        phantom: Encoded,
        timestamp: if delta_ok(st, ts as int, part as int) {
            None
        } else {
            Some(ts)
        },
        subsec_ms: if delta_ok(st, ts as int, part as int) {
            SubSecType::Delta(
                (((ts - st.last_timestamp.unwrap()) * 1000 + part) - st.last_subsec_ms) as u32,
            )
        } else {
            SubSecType::Abs(part)
        },
        inflight: d.inflight,
        lost_packets: d.lost_packets,
        recv_us_len: d.recv_us_len,
        recv_us: d.recv_us,
    }
}

/// What the encoded percentile entries must be.
pub open spec fn encoded_entries_ok(st: FDCodecState, d: FrameDataQ<Complete>, r: FrameDataQ<
    Encoded,
>) -> bool {
    if st.cfg.recv_llq is Some && d.recv_us_len > 0 {
        forall|i: int| 0 <= i < 7 ==> #[trigger] r.recv_us@[i] == enc_entry(st, d.recv_us@[i] as int)
    } else {
        forall|i: int| 0 <= i < 7 ==> #[trigger] r.recv_us@[i] == d.recv_us@[i]
    }
}

/// The decoded form of `e` against state `st`.
pub open spec fn peek_decode_ts(st: FDCodecState, e: FrameDataQ<Encoded>) -> (int, int) {
    let ts0 = match e.timestamp {
        Some(t) => t as int,
        None => st.last_timestamp.unwrap() as int,
    };
    let sub = match e.subsec_ms {
        SubSecType::Abs(v) => v as int,
        SubSecType::Delta(v) => v + st.last_subsec_ms,
    };
    let part = sub % 1000;
    (ts0 + (sub - part) / 1000, part)
}

pub open spec fn decoded_entries_ok(st: FDCodecState, e: FrameDataQ<Encoded>, r: FrameDataQ<
    Complete,
>) -> bool {
    if st.cfg.recv_llq is Some && e.recv_us_len > 0 {
        forall|i: int| 0 <= i < 7 ==> #[trigger] r.recv_us@[i] == dec_entry(st, e.recv_us@[i] as int)
    } else {
        forall|i: int| 0 <= i < 7 ==> #[trigger] r.recv_us@[i] == e.recv_us@[i]
    }
}

/// The state after pushing a decoded record.
pub open spec fn push_spec(st: FDCodecState, d: FrameDataQ<Complete>) -> FDCodecState {
    FDCodecState {
        cfg: st.cfg,
        last_timestamp: if d.timestamp is Some {
            d.timestamp
        } else {
            st.last_timestamp
        },
        last_subsec_ms: (match d.subsec_ms {
            SubSecType::Abs(v) => v as int,
            SubSecType::Delta(v) => st.last_subsec_ms + v,
        }) as u32,
        last_recvq_0: if st.cfg.delta_enc {
            (match st.cfg.recv_llq {
                Some(q) => llq_encode(q.k(), d.recv_us@[0] as int),
                None => d.recv_us@[0] as int,
            }) as i64
        } else {
            st.last_recvq_0
        },
    }
}

/// A record the decoder accepts against state `st`: a reference timestamp
/// exists for deltas, the reconstructed time is in range, and each quantized
/// entry names a bucket that fits.
pub open spec fn decodable(st: FDCodecState, e: FrameDataQ<Encoded>) -> bool {
    &&& (e.timestamp is None ==> st.last_timestamp is Some)
    &&& (e.timestamp matches Some(ts) ==> 0 <= ts <= 0x10000000000)
    &&& (e.subsec_ms matches SubSecType::Delta(v) ==> e.timestamp is None)
    &&& (e.subsec_ms matches SubSecType::Abs(v) ==> v < 1000)
    &&& ({
        let (ts, part) = peek_decode_ts(st, e);
        0 <= ts <= 0x10000000000
    })
    &&& (st.cfg.recv_llq is Some && e.recv_us_len > 0 ==> forall|i: int|
        0 <= i < 7 ==> {
            let w = #[trigger] e.recv_us@[i] + st.last_recvq_0;
            &&& -0x7fffffffffffffff <= w <= 0x7fffffffffffffff
            &&& llq_bucket_in_range(st_k(st), w)
            &&& 0 <= llq_decode(st_k(st), w) <= 0x3fffffffffffffff
        })
    &&& (st.cfg.recv_llq is None || e.recv_us_len == 0 ==> forall|i: int|
        0 <= i < 7 ==> -1 <= #[trigger] e.recv_us@[i] <= 0x3fffffffffffffff)
    &&& (st.cfg.recv_llq is None && e.recv_us_len > 0 ==> forall|i: int|
        0 <= i < 7 ==> 0 <= #[trigger] e.recv_us@[i])
}

impl FDCodecState {
    pub fn new(cfg: FDCodecCfg) -> (r: Self)
        ensures
            r.cfg == cfg,
            r.last_timestamp is None,
            r.last_subsec_ms == 0,
            r.last_recvq_0 == 0,
    {
        Self { cfg, last_timestamp: None, last_subsec_ms: 0, last_recvq_0: 0 }
    }

    pub fn get_cfg(&self) -> (r: FDCodecCfg)
        ensures
            r == self.cfg,
    {
        self.cfg
    }

    /// Folds a record into the state: it becomes the delta reference.
    pub fn push(&mut self, d: &FrameDataQ<Complete>)
        requires
            wf_state(*old(self)),
            encodable(*d),
        ensures
            *final(self) == push_spec(*old(self), *d),
            wf_state(*final(self)),
    {
        if let Some(ts) = d.timestamp {
            self.last_timestamp = Some(ts);
        }
        match d.subsec_ms {
            SubSecType::Abs(v) => {
                self.last_subsec_ms = v;
            },
            SubSecType::Delta(v) => {
                self.last_subsec_ms = self.last_subsec_ms + v;
            },
        }
        if self.cfg.delta_enc {
            let v0 = self.read_recv0(d);
            self.last_recvq_0 = match self.cfg.recv_llq {
                Some(llq) => llq.encode(v0),
                None => v0,
            };
        }
        proof {
            if self.cfg.delta_enc && self.cfg.recv_llq is Some {
                let q = self.cfg.recv_llq.unwrap();
                lemma_llq_encode_bounds(q.k(), d.recv_us@[0] as int);
            }
        }
    }

    fn read_recv0(&self, d: &FrameDataQ<Complete>) -> (r: i64)
        ensures
            r == d.recv_us@[0],
    {
        d.recv_us[0]
    }

    /// Encodes one record against the state without advancing it.
    pub fn peek_encode(&self, d: &FrameDataQ<Complete>) -> (r: FrameDataQ<Encoded>)
        requires
            wf_state(*self),
            encodable(*d),
        ensures
            r.timestamp == peek_encode_spec(*self, *d).timestamp,
            r.subsec_ms == peek_encode_spec(*self, *d).subsec_ms,
            r.inflight == d.inflight,
            r.lost_packets == d.lost_packets,
            r.recv_us_len == d.recv_us_len,
            encoded_entries_ok(*self, *d, r),
    {
        let ts = match d.timestamp {
            Some(t) => t,
            None => unreached(),
        };
        let part = d.subsec_ms.unwrap_abs();
        let is_delta = match self.last_timestamp {
            Some(last) => last <= ts && ts - last < self.cfg.full_encode_secs && (ts - last)
                * 1000 + part as i64 >= self.last_subsec_ms as i64,
            None => false,
        };
        let (timestamp, subsec_ms): (Option<i64>, SubSecType) = if is_delta {
            let last = match self.last_timestamp {
                Some(l) => l,
                None => unreached(),
            };
            let dv = (ts - last) * 1000 + part as i64 - self.last_subsec_ms as i64;
            (None, SubSecType::Delta(dv as u32))
        } else {
            (Some(ts), SubSecType::Abs(part))
        };
        let mut recv_us = d.recv_us;
        if d.recv_us_len > 0 {
            if let Some(llq) = self.cfg.recv_llq {
                let mut i: usize = 0;
                while i < 7
                    invariant
                        i <= 7,
                        wf_state(*self),
                        encodable(*d),
                        self.cfg.recv_llq == Some(llq),
                        d.recv_us_len > 0,
                        forall|k: int| 0 <= k < i ==> #[trigger] recv_us@[k] == enc_entry(
                            *self,
                            d.recv_us@[k] as int,
                        ),
                        forall|k: int| i <= k < 7 ==> #[trigger] recv_us@[k] == d.recv_us@[k],
                    decreases 7 - i,
                {
                    let v = recv_us[i];
                    proof {
                        assert(d.recv_us@[i as int] == v);
                        assert(0 <= v <= 0x3fffffffffffffff);
                        lemma_llq_encode_bounds(llq.k(), v as int);
                    }
                    recv_us[i] = llq.encode(v) - self.last_recvq_0;
                    i += 1;
                }
            }
        }
        FrameDataQ {
            phantom: Encoded,
            timestamp,
            subsec_ms,
            inflight: d.inflight,
            lost_packets: d.lost_packets,
            recv_us_len: d.recv_us_len,
            recv_us,
        }
    }

    /// Encodes one record and advances the state past it.
    pub fn encode(&mut self, d: FrameDataQ<Complete>) -> (r: FrameDataQ<Encoded>)
        requires
            wf_state(*old(self)),
            encodable(d),
        ensures
            *final(self) == push_spec(*old(self), d),
            wf_state(*final(self)),
            r.timestamp == peek_encode_spec(*old(self), d).timestamp,
            r.subsec_ms == peek_encode_spec(*old(self), d).subsec_ms,
            r.inflight == d.inflight,
            r.lost_packets == d.lost_packets,
            r.recv_us_len == d.recv_us_len,
            encoded_entries_ok(*old(self), d, r),
    {
        let dr = self.peek_encode(&d);
        self.push(&d);
        dr
    }

    /// Decodes one record against the state without advancing it.
    pub fn peek_decode(&self, e: &FrameDataQ<Encoded>) -> (r: FrameDataQ<Complete>)
        requires
            wf_state(*self),
            decodable(*self, *e),
        ensures
            r.timestamp == Some(peek_decode_ts(*self, *e).0 as i64),
            r.subsec_ms == SubSecType::Abs(peek_decode_ts(*self, *e).1 as u32),
            r.inflight == e.inflight,
            r.lost_packets == e.lost_packets,
            r.recv_us_len == e.recv_us_len,
            decoded_entries_ok(*self, *e, r),
    {
        let ts0 = match e.timestamp {
            Some(t) => t,
            None => match self.last_timestamp {
                Some(l) => l,
                None => unreached(),
            },
        };
        let sub: u64 = match e.subsec_ms {
            SubSecType::Abs(v) => v as u64,
            SubSecType::Delta(v) => v as u64 + self.last_subsec_ms as u64,
        };
        let part = sub % 1000;
        let ts = ts0 + ((sub - part) / 1000) as i64;
        let mut recv_us = e.recv_us;
        if e.recv_us_len > 0 {
            if let Some(llq) = self.cfg.recv_llq {
                let mut i: usize = 0;
                while i < 7
                    invariant
                        i <= 7,
                        wf_state(*self),
                        decodable(*self, *e),
                        self.cfg.recv_llq == Some(llq),
                        e.recv_us_len > 0,
                        forall|k: int| 0 <= k < i ==> #[trigger] recv_us@[k] == dec_entry(
                            *self,
                            e.recv_us@[k] as int,
                        ),
                        forall|k: int| i <= k < 7 ==> #[trigger] recv_us@[k] == e.recv_us@[k],
                    decreases 7 - i,
                {
                    let v = recv_us[i];
                    proof {
                        assert(e.recv_us@[i as int] == v);
                    }
                    recv_us[i] = llq.decode(v + self.last_recvq_0);
                    i += 1;
                }
            }
        }
        FrameDataQ {
            phantom: Complete,
            timestamp: Some(ts),
            subsec_ms: SubSecType::Abs(part as u32),
            inflight: e.inflight,
            lost_packets: e.lost_packets,
            recv_us_len: e.recv_us_len,
            recv_us,
        }
    }

    /// Decodes one record and advances the state past it.
    pub fn decode(&mut self, e: FrameDataQ<Encoded>) -> (r: FrameDataQ<Complete>)
        requires
            wf_state(*old(self)),
            decodable(*old(self), e),
        ensures
            r.timestamp == Some(peek_decode_ts(*old(self), e).0 as i64),
            r.subsec_ms == SubSecType::Abs(peek_decode_ts(*old(self), e).1 as u32),
            r.inflight == e.inflight,
            r.lost_packets == e.lost_packets,
            r.recv_us_len == e.recv_us_len,
            decoded_entries_ok(*old(self), e, r),
            *final(self) == push_spec(*old(self), r),
            wf_state(*final(self)),
    {
        let d = self.peek_decode(&e);
        proof {
            lemma_decoded_encodable(*self, e, d);
        }
        self.push(&d);
        d
    }
}

proof fn lemma_decoded_encodable(st: FDCodecState, e: FrameDataQ<Encoded>, d: FrameDataQ<
    Complete,
>)
    requires
        wf_state(st),
        decodable(st, e),
        d.timestamp == Some(peek_decode_ts(st, e).0 as i64),
        d.subsec_ms == SubSecType::Abs(peek_decode_ts(st, e).1 as u32),
        d.recv_us_len == e.recv_us_len,
        decoded_entries_ok(st, e, d),
    ensures
        encodable(d),
{
    let (ts, part) = peek_decode_ts(st, e);
    assert(0 <= part < 1000) by {
        let sub = match e.subsec_ms {
            SubSecType::Abs(v) => v as int,
            SubSecType::Delta(v) => v + st.last_subsec_ms,
        };
        assert(0 <= sub);
    }
    if st.cfg.recv_llq is Some && e.recv_us_len > 0 {
        assert forall|i: int| 0 <= i < 7 implies -1 <= #[trigger] d.recv_us@[i]
            <= 0x3fffffffffffffff && 0 <= d.recv_us@[i] by {
            assert(d.recv_us@[i] == dec_entry(st, e.recv_us@[i] as int));
            assert(0 <= llq_decode(st_k(st), e.recv_us@[i] + st.last_recvq_0)
                <= 0x3fffffffffffffff);
        }
    } else {
        assert forall|i: int| 0 <= i < 7 implies -1 <= #[trigger] d.recv_us@[i]
            <= 0x3fffffffffffffff by {
            assert(d.recv_us@[i] == e.recv_us@[i]);
        }
        if e.recv_us_len > 0 {
            assert forall|i: int| 0 <= i < 7 implies 0 <= #[trigger] d.recv_us@[i] by {
                assert(d.recv_us@[i] == e.recv_us@[i]);
            }
        }
    }
}

/// Encoding shrinks magnitudes: `|llq_encode(k, v)| <= |v|`.
proof fn lemma_llq_encode_bounds(k: nat, v: int)
    requires
        1 <= k,
    ensures
        v >= 0 ==> 0 <= llq_encode(k, v) <= v,
        v < 0 ==> v <= llq_encode(k, v) <= 0,
{
    crate::quantize::lemma_p2_pos(k);
    if v >= 0 {
        lemma_llq_encode_mag_bounds(k, v);
    } else {
        lemma_llq_encode_mag_bounds(k, -v);
    }
}

proof fn lemma_llq_encode_mag_bounds(k: nat, a: int)
    requires
        1 <= k,
        a >= 0,
    ensures
        0 <= crate::quantize::llq_encode_mag(k, a) <= a,
{
    let t = p2(k);
    crate::quantize::lemma_p2_pos(k);
    if a < t {
    } else {
        let j = crate::quantize::block_of(t, a);
        crate::quantize::lemma_block_of_range(t, a);
        crate::quantize::lemma_p2_pos(j);
        let bj = p2(j);
        let q = (a - t * bj) / bj;
        assert(0 <= q <= a - t * bj) by (nonlinear_arith)
            requires
                bj >= 1,
                a - t * bj >= 0,
                q == (a - t * bj) / bj,
        ;
        crate::quantize::lemma_p2_at_least_linear(j);
        assert(t * (1 + j as int) <= t * bj) by (nonlinear_arith)
            requires
                t >= 1,
                1 + j as int <= bj,
        ;
        assert(t + t * (j as int) == t * (1 + j as int)) by (nonlinear_arith);
    }
}

/// Decoding an encoded record against the same state recovers the record:
/// exactly when no quantizer is set, and within the quantizer's relative
/// error otherwise.
pub proof fn lemma_codec_round_trip(st: FDCodecState, d: FrameDataQ<Complete>, e: FrameDataQ<
    Encoded,
>, b: FrameDataQ<Complete>)
    requires
        wf_state(st),
        encodable(d),
        e.timestamp == peek_encode_spec(st, d).timestamp,
        e.subsec_ms == peek_encode_spec(st, d).subsec_ms,
        e.inflight == d.inflight,
        e.lost_packets == d.lost_packets,
        e.recv_us_len == d.recv_us_len,
        encoded_entries_ok(st, d, e),
        b.timestamp == Some(peek_decode_ts(st, e).0 as i64),
        b.subsec_ms == SubSecType::Abs(peek_decode_ts(st, e).1 as u32),
        b.inflight == e.inflight,
        b.lost_packets == e.lost_packets,
        b.recv_us_len == e.recv_us_len,
        decoded_entries_ok(st, e, b),
    ensures
        b.timestamp == d.timestamp,
        b.subsec_ms == d.subsec_ms,
        b.inflight == d.inflight,
        b.lost_packets == d.lost_packets,
        b.recv_us_len == d.recv_us_len,
        st.cfg.recv_llq is None ==> b.recv_us@ =~= d.recv_us@,
        st.cfg.recv_llq is Some && d.recv_us_len > 0 ==> forall|i: int|
            0 <= i < 7 ==> {
                let orig = #[trigger] d.recv_us@[i];
                let back = b.recv_us@[i];
                &&& 0 <= orig - back
                &&& (orig - back) * p2(st_k(st)) <= orig
            },
{
    let ts = d.timestamp.unwrap() as int;
    let part = d.subsec_ms->Abs_0 as int;
    if delta_ok(st, ts, part) {
        let last = st.last_timestamp.unwrap() as int;
        let dv = (ts - last) * 1000 + part - st.last_subsec_ms;
        let sub = dv + st.last_subsec_ms;
        assert(sub == (ts - last) * 1000 + part);
        assert(sub % 1000 == part && (sub - part) / 1000 == ts - last) by (nonlinear_arith)
            requires
                sub == (ts - last) * 1000 + part,
                0 <= part < 1000,
                ts - last >= 0,
        ;
        assert(peek_decode_ts(st, e).0 == ts);
        assert(peek_decode_ts(st, e).1 == part);
    } else {
        assert(peek_decode_ts(st, e).0 == ts) by {
            assert(part % 1000 == part);
        }
    }
    if st.cfg.recv_llq is None {
        assert(b.recv_us@ =~= d.recv_us@);
    } else {
        let q = st.cfg.recv_llq.unwrap();
        if d.recv_us_len > 0 {
            assert forall|i: int| 0 <= i < 7 implies {
                let orig = #[trigger] d.recv_us@[i];
                let back = b.recv_us@[i];
                &&& 0 <= orig - back
                &&& (orig - back) * p2(st_k(st)) <= orig
            } by {
                let orig = d.recv_us@[i] as int;
                assert(e.recv_us@[i] == llq_encode(q.k(), orig) - st.last_recvq_0);
                assert(b.recv_us@[i] == llq_decode(
                    q.k(),
                    e.recv_us@[i] + st.last_recvq_0,
                ));
                assert(e.recv_us@[i] + st.last_recvq_0 == llq_encode(q.k(), orig));
                lemma_llq_round_trip(q.k(), orig);
            }
        } else {
            assert(b.recv_us@ =~= d.recv_us@);
        }
    }
}

// ---- the byte form of records ----

/// A decoder error: clean end of input, bytes that do not parse, a file of
/// another format, or a format newer than this reader.
#[derive(Debug, Clone, Copy, PartialEq, Eq, Structural)]
pub enum XError {
    EOF,
    Malformed,
    WrongSchema,
    UnsupportedVersion,
    HeaderFieldMissing,
    UnexpectedData,
}

/// The i-th intra-record delta: the first percentile raw, then each minus
/// its neighbour.
pub open spec fn rec_delta(a: Seq<i64>, i: int) -> int {
    if i == 0 {
        a[0] as int
    } else {
        a[i] - a[i - 1]
    }
}

/// The first `n` deltas, encoded as signed integers.
pub open spec fn enc_rec_deltas(a: Seq<i64>, n: int) -> Seq<u8>
    decreases n,
{
    if n <= 0 {
        Seq::empty()
    } else {
        enc_rec_deltas(a, n - 1) + enc_sint(rec_delta(a, n - 1) as i64)
    }
}

/// The bytes of one encoded record: the timestamp or nil, the sub-second
/// value, the counts (or a single -1 when both are zero), the sample count,
/// and the seven deltas when samples are present.
pub open spec fn enc_record(d: FrameDataQ<Encoded>) -> Seq<u8> {
    (match d.timestamp {
        Some(ts) => enc_uint(ts as u64),
        None => enc_nil(),
    }) + enc_uint(
        (match d.subsec_ms {
            SubSecType::Abs(v) => v,
            SubSecType::Delta(v) => v,
        }) as u64,
    ) + (if d.inflight + d.lost_packets > 0 {
        enc_uint(d.inflight as u64) + enc_uint(d.lost_packets as u64)
    } else {
        enc_sint(-1i64)
    }) + enc_uint(d.recv_us_len as u64) + (if d.recv_us_len > 0 {
        enc_array_len(7) + enc_rec_deltas(d.recv_us@, 7)
    } else {
        Seq::empty()
    })
}

/// A record the writer accepts: a non-negative timestamp with an absolute
/// sub-second part (or a delta when the timestamp is elided), and
/// percentiles whose neighbour differences fit.
pub open spec fn wr_record_ok(d: FrameDataQ<Encoded>) -> bool {
    &&& (d.timestamp matches Some(ts) ==> ts >= 0 && d.subsec_ms is Abs)
    &&& (d.timestamp is None ==> d.subsec_ms is Delta)
    &&& forall|i: int| 0 <= i < 7 ==> i64::MIN <= #[trigger] rec_delta(d.recv_us@, i) <= i64::MAX
}

/// Reads the seven deltas and accumulates them back into percentiles.
pub open spec fn parse_deltas(s: Seq<u8>, pos: int, n: int) -> Option<(Seq<i64>, int)>
    decreases n,
{
    if n <= 0 {
        Some((Seq::empty(), pos))
    } else {
        match parse_deltas(s, pos, n - 1) {
            Some((acc, p)) => match parse_int(s, p) {
                Some((dv, p2)) => {
                    let prev: int = if acc.len() == 0 {
                        0
                    } else {
                        acc.last() as int
                    };
                    if i64::MIN <= prev + dv <= i64::MAX {
                        Some((acc.push((prev + dv) as i64), p2))
                    } else {
                        None
                    }
                },
                None => None,
            },
            None => None,
        }
    }
}

/// Reads one record.
pub open spec fn parse_record(s: Seq<u8>, pos: int) -> Option<(FrameDataQ<Encoded>, int)> {
    let ts_step: Option<(Option<i64>, int)> = match parse_nil(s, pos) {
        Some(p1) => Some((None, p1)),
        None => match parse_int(s, pos) {
            Some((v, p1)) => Some((Some(v), p1)),
            None => None,
        },
    };
    match ts_step {
        Some((ts, p1)) => match parse_int(s, p1) {
            Some((sub, p2)) => if 0 <= sub <= u32::MAX {
                match parse_int(s, p2) {
                    Some((ifl, p3)) => {
                        let cnt_step: Option<(u32, u32, int)> = if ifl == -1 {
                            Some((0, 0, p3))
                        } else if 0 <= ifl <= u32::MAX {
                            match parse_int(s, p3) {
                                Some((lost, p4)) => if 0 <= lost <= u32::MAX {
                                    Some((ifl as u32, lost as u32, p4))
                                } else {
                                    None
                                },
                                None => None,
                            }
                        } else {
                            None
                        };
                        match cnt_step {
                            Some((infl, lost, p4)) => match parse_int(s, p4) {
                                Some((rlen, p5)) => if 0 <= rlen <= usize::MAX {
                                    if rlen > 0 {
                                        match parse_array_len(s, p5) {
                                            Some((alen, p6)) => if alen == 7 {
                                                match parse_deltas(s, p6, 7) {
                                                    Some((vals, p7)) => Some(
                                                        (
                                                            FrameDataQ {
                                                                phantom: Encoded,
                                                                timestamp: ts,
                                                                subsec_ms: if ts is Some {
                                                                    SubSecType::Abs(sub as u32)
                                                                } else {
                                                                    SubSecType::Delta(sub as u32)
                                                                },
                                                                inflight: infl,
                                                                lost_packets: lost,
                                                                recv_us_len: rlen as usize,
                                                                recv_us: seq7_arr(vals),
                                                            },
                                                            p7,
                                                        ),
                                                    ),
                                                    None => None,
                                                }
                                            } else {
                                                None
                                            },
                                            None => None,
                                        }
                                    } else {
                                        Some(
                                            (
                                                FrameDataQ {
                                                    phantom: Encoded,
                                                    timestamp: ts,
                                                    subsec_ms: if ts is Some {
                                                        SubSecType::Abs(sub as u32)
                                                    } else {
                                                        SubSecType::Delta(sub as u32)
                                                    },
                                                    inflight: infl,
                                                    lost_packets: lost,
                                                    recv_us_len: 0,
                                                    recv_us: seq7_neg1(),
                                                },
                                                p5,
                                            ),
                                        )
                                    }
                                } else {
                                    None
                                },
                                None => None,
                            },
                            None => None,
                        }
                    },
                    None => None,
                }
            } else {
                None
            },
            None => None,
        },
        None => None,
    }
}

/// An array holding the seven values of the sequence.
pub open spec fn seq7_arr(vals: Seq<i64>) -> [i64; 7] {
    [
        vals[0],
        vals[1],
        vals[2],
        vals[3],
        vals[4],
        vals[5],
        vals[6],
    ]
}

pub open spec fn seq7_neg1() -> [i64; 7] {
    [-1i64, -1i64, -1i64, -1i64, -1i64, -1i64, -1i64]
}

impl FrameDataQ<Encoded> {
    /// Writes the record's byte form.
    pub fn to_rmp(&self) -> (r: Vec<u8>)
        requires
            wr_record_ok(*self),
        ensures
            r@ == enc_record(*self),
    {
        let mut out: Vec<u8> = Vec::new();
        match self.timestamp {
            Some(ts) => {
                write_uint(&mut out, ts as u64);
                let v = self.subsec_ms.unwrap_abs();
                write_uint(&mut out, v as u64);
            },
            None => {
                write_nil(&mut out);
                let v = self.subsec_ms.unwrap_delta();
                write_uint(&mut out, v as u64);
            },
        }
        if self.inflight as u64 + self.lost_packets as u64 > 0 {
            write_uint(&mut out, self.inflight as u64);
            write_uint(&mut out, self.lost_packets as u64);
        } else {
            write_sint(&mut out, -1);
        }
        write_uint(&mut out, self.recv_us_len as u64);
        if self.recv_us_len > 0 {
            write_array_len(&mut out, 7);
            let mut prev: i64 = 0;
            let mut i: usize = 0;
            while i < 7
                invariant
                    i <= 7,
                    wr_record_ok(*self),
                    self.recv_us_len > 0,
                    prev == if i == 0 {
                        0int
                    } else {
                        self.recv_us@[i as int - 1] as int
                    },
                    out@ == enc_record(*self).take(
                        enc_record(*self).len() - enc_rec_deltas(self.recv_us@, 7).len()
                            + enc_rec_deltas(self.recv_us@, i as int).len(),
                    ),
                decreases 7 - i,
            {
                let v = self.recv_us[i];
                proof {
                    assert(i64::MIN <= rec_delta(self.recv_us@, i as int) <= i64::MAX);
                }
                let dv = v - prev;
                proof {
                    lemma_enc_rec_deltas_len(self.recv_us@, i as int);
                    lemma_enc_rec_deltas_len(self.recv_us@, i + 1);
                    lemma_enc_rec_deltas_len(self.recv_us@, 7);
                    assert(rec_delta(self.recv_us@, i as int) == dv);
                }
                write_sint(&mut out, dv);
                proof {
                    let e = enc_record(*self);
                    let full = enc_rec_deltas(self.recv_us@, 7);
                    let pre = enc_rec_deltas(self.recv_us@, i as int);
                    let post = enc_rec_deltas(self.recv_us@, i + 1);
                    assert(post =~= pre + enc_sint(dv));
                    assert(e.take(e.len() - full.len() + post.len()) =~= e.take(
                        e.len() - full.len() + pre.len(),
                    ) + enc_sint(dv)) by {
                        lemma_enc_rec_deltas_prefix(*self, i as int);
                        lemma_enc_rec_deltas_prefix(*self, i + 1);
                    }
                }
                prev = v;
                i += 1;
            }
            proof {
                assert(enc_record(*self).take(enc_record(*self).len() as int) =~= enc_record(
                    *self,
                ));
            }
        } else {
            proof {
                assert(out@ =~= enc_record(*self));
            }
        }
        out
    }
}

proof fn lemma_enc_rec_deltas_len(a: Seq<i64>, n: int)
    requires
        0 <= n,
    ensures
        enc_rec_deltas(a, n).len() >= n,
        n <= 7 ==> enc_rec_deltas(a, n).len() <= 9 * n,
    decreases n,
{
    if n > 0 {
        lemma_enc_rec_deltas_len(a, n - 1);
    }
}

/// The deltas encoded so far are a prefix of the record bytes.
proof fn lemma_enc_rec_deltas_prefix(d: FrameDataQ<Encoded>, n: int)
    requires
        0 <= n <= 7,
        d.recv_us_len > 0,
    ensures
        ({
            let e = enc_record(d);
            let full = enc_rec_deltas(d.recv_us@, 7);
            e.take(e.len() - full.len() + enc_rec_deltas(d.recv_us@, n).len()) =~= e.take(
                e.len() - full.len(),
            ) + enc_rec_deltas(d.recv_us@, n)
        }),
{
    let e = enc_record(d);
    let full = enc_rec_deltas(d.recv_us@, 7);
    let pre = enc_rec_deltas(d.recv_us@, n);
    lemma_enc_rec_deltas_len(d.recv_us@, n);
    lemma_enc_rec_deltas_len(d.recv_us@, 7);
    lemma_enc_rec_deltas_mono(d.recv_us@, n, 7);
    lemma_enc_rec_deltas_take(d.recv_us@, 7, n);
    assert(e =~= e.take(e.len() - full.len()) + full);
    assert(full.take(pre.len() as int) =~= pre);
    assert(e.take(e.len() - full.len() + pre.len()) =~= e.take(e.len() - full.len())
        + full.take(pre.len() as int));
}

proof fn lemma_enc_rec_deltas_mono(a: Seq<i64>, m: int, n: int)
    requires
        0 <= m <= n,
    ensures
        enc_rec_deltas(a, m).len() <= enc_rec_deltas(a, n).len(),
    decreases n,
{
    if n > m {
        lemma_enc_rec_deltas_mono(a, m, n - 1);
    }
}

proof fn lemma_enc_rec_deltas_take(a: Seq<i64>, n: int, m: int)
    requires
        0 <= m <= n,
    ensures
        enc_rec_deltas(a, n).take(enc_rec_deltas(a, m).len() as int) =~= enc_rec_deltas(a, m),
    decreases n,
{
    if n > m {
        lemma_enc_rec_deltas_take(a, n - 1, m);
        lemma_enc_rec_deltas_mono(a, m, n - 1);
        assert(enc_rec_deltas(a, n).take(enc_rec_deltas(a, m).len() as int) =~= enc_rec_deltas(
            a,
            n - 1,
        ).take(enc_rec_deltas(a, m).len() as int));
    }
}

impl FrameDataQ<Encoded> {
    /// Reads one record from the bytes at `pos`.
    pub fn from_rmp(buf: &[u8], pos: usize) -> (r: Result<(FrameDataQ<Encoded>, usize), XError>)
        ensures
            match r {
                Ok((rec, p2)) => parse_record(buf@, pos as int) == Some((rec, p2 as int)),
                Err(e) => parse_record(buf@, pos as int) is None && (e == XError::EOF <==> pos
                    >= buf@.len()),
            },
    {
        if pos >= buf.len() {
            return Err(XError::EOF);
        }
        let (ts, p1): (Option<i64>, usize) = match read_nil(buf, pos) {
            Ok(p1) => (None, p1),
            Err(_) => match read_int(buf, pos) {
                Ok((v, p1)) => (Some(v), p1),
                Err(_) => {
                    return Err(XError::Malformed);
                },
            },
        };
        let (sub, p2) = match read_int(buf, p1) {
            Ok(x) => x,
            Err(_) => {
                return Err(XError::Malformed);
            },
        };
        if !(0 <= sub && sub <= u32::MAX as i64) {
            return Err(XError::Malformed);
        }
        let (ifl, p3) = match read_int(buf, p2) {
            Ok(x) => x,
            Err(_) => {
                return Err(XError::Malformed);
            },
        };
        let (infl, lost, p4): (u32, u32, usize) = if ifl == -1 {
            (0, 0, p3)
        } else if 0 <= ifl && ifl <= u32::MAX as i64 {
            match read_int(buf, p3) {
                Ok((lv, p4)) => {
                    if 0 <= lv && lv <= u32::MAX as i64 {
                        (ifl as u32, lv as u32, p4)
                    } else {
                        return Err(XError::Malformed);
                    }
                },
                Err(_) => {
                    return Err(XError::Malformed);
                },
            }
        } else {
            return Err(XError::Malformed);
        };
        let (rlen, p5) = match read_int(buf, p4) {
            Ok(x) => x,
            Err(_) => {
                return Err(XError::Malformed);
            },
        };
        if !(0 <= rlen && rlen as u64 <= usize::MAX as u64) {
            return Err(XError::Malformed);
        }
        let subsec_ms = if ts.is_some() {
            SubSecType::Abs(sub as u32)
        } else {
            SubSecType::Delta(sub as u32)
        };
        if rlen > 0 {
            let (alen, p6) = match read_array_len(buf, p5) {
                Ok(x) => x,
                Err(_) => {
                    return Err(XError::Malformed);
                },
            };
            if alen != 7 {
                return Err(XError::Malformed);
            }
            let mut vals: Vec<i64> = Vec::new();
            let mut p: usize = p6;
            let mut i: usize = 0;
            proof {
                broadcast use vstd::array::group_array_axioms;
            }
            while i < 7
                invariant
                    i <= 7,
                    pos < buf@.len(),
                    0 <= rlen && rlen <= usize::MAX,
                    vals@.len() == i,
                    parse_deltas(buf@, p6 as int, i as int) == Some((vals@, p as int)),
                    parse_deltas(buf@, p6 as int, 7) is None ==> parse_record(buf@, pos as int)
                        is None,
                    (parse_deltas(buf@, p6 as int, 7) matches Some(fin) ==> parse_record(
                        buf@,
                        pos as int,
                    ) == Some(
                        (
                            FrameDataQ {
                                phantom: Encoded,
                                timestamp: ts,
                                subsec_ms,
                                inflight: infl,
                                lost_packets: lost,
                                recv_us_len: rlen as usize,
                                recv_us: seq7_arr(fin.0),
                            },
                            fin.1,
                        ),
                    )),
                decreases 7 - i,
            {
                let (dv, pn) = match read_int(buf, p) {
                    Ok(x) => x,
                    Err(_) => {
                        proof {
                            lemma_parse_deltas_step_none(buf@, p6 as int, i as int, 7);
                        }
                        return Err(XError::Malformed);
                    },
                };
                let prev: i64 = if vals.len() == 0 {
                    0
                } else {
                    vals[vals.len() - 1]
                };
                let sum: i128 = prev as i128 + dv as i128;
                if !(i64::MIN as i128 <= sum && sum <= i64::MAX as i128) {
                    proof {
                        lemma_parse_deltas_step_none(buf@, p6 as int, i as int, 7);
                    }
                    return Err(XError::Malformed);
                }
                vals.push(sum as i64);
                p = pn;
                i += 1;
            }
            let recv_us: [i64; 7] = [
                vals[0],
                vals[1],
                vals[2],
                vals[3],
                vals[4],
                vals[5],
                vals[6],
            ];
            proof {
                broadcast use vstd::array::group_array_axioms;

                assert(recv_us =~= seq7_arr(vals@));
            }
            Ok(
                (
                    FrameDataQ {
                        phantom: Encoded,
                        timestamp: ts,
                        subsec_ms,
                        inflight: infl,
                        lost_packets: lost,
                        recv_us_len: rlen as usize,
                        recv_us,
                    },
                    p,
                ),
            )
        } else {
            let recv_us: [i64; 7] = [-1, -1, -1, -1, -1, -1, -1];
            proof {
                broadcast use vstd::array::group_array_axioms;

                assert(recv_us =~= seq7_neg1());
            }
            Ok(
                (
                    FrameDataQ {
                        phantom: Encoded,
                        timestamp: ts,
                        subsec_ms,
                        inflight: infl,
                        lost_packets: lost,
                        recv_us_len: 0,
                        recv_us,
                    },
                    p5,
                ),
            )
        }
    }
}

/// When the next delta cannot be read, the whole list cannot.
proof fn lemma_parse_deltas_step_none(s: Seq<u8>, pos: int, i: int, n: int)
    requires
        0 <= i < n,
        parse_deltas(s, pos, i) matches Some(st) && (parse_int(s, st.1) is None || !{
            let prev: int = if st.0.len() == 0 {
                0
            } else {
                st.0.last() as int
            };
            let dv = parse_int(s, st.1).unwrap().0 as int;
            i64::MIN <= prev + dv <= i64::MAX
        }),
    ensures
        parse_deltas(s, pos, n) is None,
    decreases n,
{
    if n - 1 > i {
        lemma_parse_deltas_step_none(s, pos, i, n - 1);
    }
}


/// A record whose byte form reads back as itself: elided percentiles are
/// the empty sentinel and the sample count fits the reader.
pub open spec fn rt_record_ok(d: FrameDataQ<Encoded>) -> bool {
    &&& wr_record_ok(d)
    &&& d.recv_us_len <= 0x1000000000000000
    &&& (d.recv_us_len == 0 ==> forall|i: int| 0 <= i < 7 ==> #[trigger] d.recv_us@[i] == -1)
}

proof fn lemma_parse_deltas_enc(s: Seq<u8>, pos: int, a: Seq<i64>, n: int)
    requires
        0 <= n <= 7,
        a.len() == 7,
        0 <= pos,
        pos + enc_rec_deltas(a, n).len() <= s.len(),
        s.subrange(pos, pos + enc_rec_deltas(a, n).len() as int) == enc_rec_deltas(a, n),
        forall|i: int| 0 <= i < 7 ==> i64::MIN <= #[trigger] rec_delta(a, i) <= i64::MAX,
    ensures
        parse_deltas(s, pos, n) == Some((a.take(n), pos + enc_rec_deltas(a, n).len())),
    decreases n,
{
    if n == 0 {
        assert(a.take(0) =~= Seq::<i64>::empty());
    } else {
        let pre = enc_rec_deltas(a, n - 1);
        let dv = rec_delta(a, n - 1) as i64;
        let full = enc_rec_deltas(a, n);
        assert(full =~= pre + enc_sint(dv));
        assert(s.subrange(pos, pos + pre.len() as int) =~= pre) by {
            assert forall|k: int| 0 <= k < pre.len() implies s.subrange(
                pos,
                pos + pre.len() as int,
            )[k] == pre[k] by {
                assert(s.subrange(pos, pos + full.len() as int)[k] == full[k]);
            }
        }
        lemma_parse_deltas_enc(s, pos, a, n - 1);
        let p1 = pos + pre.len() as int;
        assert(s.subrange(p1, p1 + enc_sint(dv).len() as int) =~= enc_sint(dv)) by {
            assert forall|k: int| 0 <= k < enc_sint(dv).len() implies s.subrange(
                p1,
                p1 + enc_sint(dv).len() as int,
            )[k] == enc_sint(dv)[k] by {
                assert(s.subrange(pos, pos + full.len() as int)[pre.len() + k] == full[pre.len()
                    + k]);
            }
        }
        crate::dynrmp::lemma_parse_int_enc_sint(s, p1, dv);
        let acc = a.take(n - 1);
        let prev: int = if acc.len() == 0 {
            0
        } else {
            acc.last() as int
        };
        assert(prev + dv == a[n - 1]) by {
            if n == 1 {
                assert(rec_delta(a, 0) == a[0] as int);
            } else {
                assert(acc.last() == a[n - 2]);
            }
        }
        assert(acc.push(a[n - 1]) =~= a.take(n));
    }
}

/// A written record reads back as itself.
/// Gluing the parsed pieces back into one record read.
#[verifier::rlimit(100)]
proof fn lemma_parse_record_compose(s: Seq<u8>, pos: int, d: FrameDataQ<Encoded>, p1: int, p2: int, p3: int, p4: int, p5: int)
    requires
        rt_record_ok(d),
        match d.timestamp {
            Some(ts) => parse_nil(s, pos) is None && parse_int(s, pos) == Some((ts, p1)),
            None => parse_nil(s, pos) == Some(p1),
        },
        parse_int(s, p1) == Some(
            (
                (match d.subsec_ms {
                    SubSecType::Abs(v) => v,
                    SubSecType::Delta(v) => v,
                }) as i64,
                p2,
            ),
        ),
        if d.inflight + d.lost_packets > 0 {
            exists|pm: int|
                parse_int(s, p2) == Some((d.inflight as i64, pm)) && #[trigger] parse_int(s, pm)
                    == Some((d.lost_packets as i64, p3))
        } else {
            parse_int(s, p2) == Some((-1i64, p3))
        },
        parse_int(s, p3) == Some((d.recv_us_len as i64, p4)),
        d.recv_us_len > 0 ==> exists|pa: int|
            parse_array_len(s, p4) == Some((7u32, pa)) && #[trigger] parse_deltas(s, pa, 7)
                == Some((d.recv_us@, p5)),
        d.recv_us_len == 0 ==> p5 == p4,
    ensures
        parse_record(s, pos) == Some((d, p5)),
{
    broadcast use vstd::array::group_array_axioms;

    assert(d.phantom == Encoded);
    if d.recv_us_len > 0 {
        let pa = choose|pa: int|
            parse_array_len(s, p4) == Some((7u32, pa)) && #[trigger] parse_deltas(s, pa, 7)
                == Some((d.recv_us@, p5));
        assert(seq7_arr(d.recv_us@) =~= d.recv_us);
        assert(parse_record(s, pos) == Some((d, p5)));
    } else {
        assert(d.recv_us =~= seq7_neg1());
        assert(parse_record(s, pos) == Some((d, p5)));
    }
}

/// A written record reads back as itself.
#[verifier::rlimit(100)]
pub proof fn lemma_parse_record_enc(s: Seq<u8>, pos: int, d: FrameDataQ<Encoded>)
    requires
        0 <= pos,
        pos + enc_record(d).len() <= s.len(),
        s.subrange(pos, pos + enc_record(d).len() as int) == enc_record(d),
        rt_record_ok(d),
    ensures
        parse_record(s, pos) == Some((d, pos + enc_record(d).len())),
{
    let e = enc_record(d);
    let e1 = match d.timestamp {
        Some(ts) => enc_uint(ts as u64),
        None => enc_nil(),
    };
    let subv = (match d.subsec_ms {
        SubSecType::Abs(v) => v,
        SubSecType::Delta(v) => v,
    }) as u64;
    let e2 = enc_uint(subv);
    let e3 = if d.inflight + d.lost_packets > 0 {
        enc_uint(d.inflight as u64) + enc_uint(d.lost_packets as u64)
    } else {
        enc_sint(-1i64)
    };
    let e4 = enc_uint(d.recv_us_len as u64);
    let e5 = if d.recv_us_len > 0 {
        enc_array_len(7) + enc_rec_deltas(d.recv_us@, 7)
    } else {
        Seq::<u8>::empty()
    };
    let p1 = pos + e1.len();
    let p2 = p1 + e2.len();
    let p3 = p2 + e3.len();
    let p4 = p3 + e4.len();
    let p5 = p4 + e5.len();
    assert(e == e1 + e2 + e3 + e4 + e5);
    crate::dynrmp::lemma_split2(s, pos, e1 + e2 + e3 + e4, e5);
    crate::dynrmp::lemma_split2(s, pos, e1 + e2 + e3, e4);
    crate::dynrmp::lemma_split2(s, pos, e1 + e2, e3);
    crate::dynrmp::lemma_split2(s, pos, e1, e2);
    match d.timestamp {
        Some(ts) => {
            assert(s[pos] == e1[0]) by {
                assert(s.subrange(pos, p1 as int)[0] == e1[0]);
            }
            assert(e1[0] != 0xc0);
            assert(parse_nil(s, pos) is None);
            crate::dynrmp::lemma_parse_int_enc_uint(s, pos, ts as u64);
        },
        None => {
            crate::dynrmp::lemma_parse_nil_enc(s, pos);
        },
    }
    crate::dynrmp::lemma_parse_int_enc_uint(s, p1, subv);
    if d.inflight + d.lost_packets > 0 {
        let e3a = enc_uint(d.inflight as u64);
        let e3b = enc_uint(d.lost_packets as u64);
        crate::dynrmp::lemma_split2(s, p2, e3a, e3b);
        crate::dynrmp::lemma_parse_int_enc_uint(s, p2, d.inflight as u64);
        crate::dynrmp::lemma_parse_int_enc_uint(s, p2 + e3a.len(), d.lost_packets as u64);
        assert(parse_int(s, p2 + e3a.len()) == Some((d.lost_packets as i64, p3)));
    } else {
        crate::dynrmp::lemma_parse_int_enc_sint(s, p2, -1i64);
    }
    crate::dynrmp::lemma_parse_int_enc_uint(s, p3, d.recv_us_len as u64);
    if d.recv_us_len > 0 {
        let e5a = enc_array_len(7);
        let e5b = enc_rec_deltas(d.recv_us@, 7);
        crate::dynrmp::lemma_split2(s, p4, e5a, e5b);
        crate::dynrmp::lemma_parse_array_len_enc(s, p4, 7);
        lemma_parse_deltas_enc(s, p4 + e5a.len(), d.recv_us@, 7);
        assert(d.recv_us@.take(7) =~= d.recv_us@);
        assert(parse_deltas(s, p4 + e5a.len(), 7) == Some((d.recv_us@, p5)));
    }
    lemma_parse_record_compose(s, pos, d, p1, p2, p3, p4, p5);
}

// ---- the file header ----

pub open spec fn schema_key() -> Seq<u8> {
    seq![115u8, 99u8, 104u8, 101u8, 109u8, 97u8]
}

pub open spec fn schema_val() -> Seq<u8> {
    seq![70u8, 68u8, 67u8, 111u8, 100u8, 101u8, 99u8]
}

pub open spec fn version_key() -> Seq<u8> {
    seq![118u8, 101u8, 114u8, 115u8, 105u8, 111u8, 110u8]
}

pub open spec fn fes_key() -> Seq<u8> {
    seq![102u8, 117u8, 108u8, 108u8, 95u8, 101u8, 110u8, 99u8, 111u8, 100u8, 101u8, 95u8, 115u8, 101u8, 99u8,
        115u8]
}

pub open spec fn llq_key() -> Seq<u8> {
    seq![114u8, 101u8, 99u8, 118u8, 95u8, 108u8, 108u8, 113u8]
}

pub open spec fn delta_key() -> Seq<u8> {
    seq![100u8, 101u8, 108u8, 116u8, 97u8, 95u8, 101u8, 110u8, 99u8]
}

/// The format this codec writes.
pub open spec fn header_version() -> int {
    101
}

/// The IEEE-754 bit pattern of the quantizer's precision.
pub open spec fn llq_bits(q: LinearLogQuantizer) -> u64 {
    ((1023 - q.k()) * 0x10000000000000) as u64
}

/// The bytes of the file header: a five-field map naming the schema, the
/// version, the keyframe interval, the quantizer precision (or nil), and
/// whether the baseline is delta-encoded.
pub open spec fn enc_header(cfg: FDCodecCfg) -> Seq<u8> {
    enc_map_len(5) + enc_strbytes(schema_key()) + enc_strbytes(schema_val()) + enc_strbytes(
        version_key(),
    ) + enc_uint(101) + enc_strbytes(fes_key()) + enc_uint(cfg.full_encode_secs as u64)
        + enc_strbytes(llq_key()) + (match cfg.recv_llq {
        Some(q) => enc_f64bits(llq_bits(q)),
        None => enc_nil(),
    }) + enc_strbytes(delta_key()) + enc_bool(cfg.delta_enc)
}

/// Reads the header fields, demanding the canonical key order.
pub open spec fn parse_header(s: Seq<u8>, pos: int) -> Option<
    (Seq<u8>, i64, i64, Option<u64>, bool, int),
> {
    match parse_map_len(s, pos) {
        Some((n, q0)) => if n != 5 {
            None
        } else {
            match parse_strbytes(s, q0) {
                Some((k1, q1)) => if k1 != schema_key() {
                    None
                } else {
                    match parse_strbytes(s, q1) {
                        Some((sv, q2)) => match parse_strbytes(s, q2) {
                            Some((k2, q3)) => if k2 != version_key() {
                                None
                            } else {
                                match parse_int(s, q3) {
                                    Some((ver, q4)) => match parse_strbytes(s, q4) {
                                        Some((k3, q5)) => if k3 != fes_key() {
                                            None
                                        } else {
                                            match parse_int(s, q5) {
                                                Some((fes, q6)) => match parse_strbytes(s, q6) {
                                                    Some((k4, q7)) => if k4 != llq_key() {
                                                        None
                                                    } else {
                                                        let llq_step: Option<(Option<u64>, int)> =
                                                            match parse_nil(s, q7) {
                                                            Some(q8) => Some((None, q8)),
                                                            None => match parse_f64bits(s, q7) {
                                                                Some((bits, q8)) => Some(
                                                                    (Some(bits), q8),
                                                                ),
                                                                None => None,
                                                            },
                                                        };
                                                        match llq_step {
                                                            Some((llq, q8)) => match parse_strbytes(
                                                                s,
                                                                q8,
                                                            ) {
                                                                Some((k5, q9)) => if k5
                                                                    != delta_key() {
                                                                    None
                                                                } else {
                                                                    match parse_bool(s, q9) {
                                                                        Some((b, q10)) => Some(
                                                                            (
                                                                                sv,
                                                                                ver,
                                                                                fes,
                                                                                llq,
                                                                                b,
                                                                                q10,
                                                                            ),
                                                                        ),
                                                                        None => None,
                                                                    }
                                                                },
                                                                None => None,
                                                            },
                                                            None => None,
                                                        }
                                                    },
                                                    None => None,
                                                },
                                                None => None,
                                            }
                                        },
                                        None => None,
                                    },
                                    None => None,
                                }
                            },
                            None => None,
                        },
                        None => None,
                    }
                },
                None => None,
            }
        },
        None => None,
    }
}

/// The eleven segments of a written header, each at its offset.
#[verifier::rlimit(100)]
#[verifier::spinoff_prover]
proof fn lemma_header_segments(cfg: FDCodecCfg)
    requires
        wf_cfg(cfg),
    ensures
        ({
            let s = enc_header(cfg);
            let e1 = enc_map_len(5);
            let e2 = enc_strbytes(schema_key());
            let e3 = enc_strbytes(schema_val());
            let e4 = enc_strbytes(version_key());
            let e5 = enc_uint(101);
            let e6 = enc_strbytes(fes_key());
            let e7 = enc_uint(cfg.full_encode_secs as u64);
            let e8 = enc_strbytes(llq_key());
            let e9 = match cfg.recv_llq {
                Some(q) => enc_f64bits(llq_bits(q)),
                None => enc_nil(),
            };
            let e10 = enc_strbytes(delta_key());
            let e11 = enc_bool(cfg.delta_enc);
            let p1 = e1.len() as int;
            let p2 = p1 + e2.len();
            let p3 = p2 + e3.len();
            let p4 = p3 + e4.len();
            let p5 = p4 + e5.len();
            let p6 = p5 + e6.len();
            let p7 = p6 + e7.len();
            let p8 = p7 + e8.len();
            let p9 = p8 + e9.len();
            let p10 = p9 + e10.len();
            let p11 = p10 + e11.len();
            &&& s.len() == p11
            &&& s.subrange(0, p1) =~= e1
            &&& s.subrange(p1, p2) =~= e2
            &&& s.subrange(p2, p3) =~= e3
            &&& s.subrange(p3, p4) =~= e4
            &&& s.subrange(p4, p5) =~= e5
            &&& s.subrange(p5, p6) =~= e6
            &&& s.subrange(p6, p7) =~= e7
            &&& s.subrange(p7, p8) =~= e8
            &&& s.subrange(p8, p9) =~= e9
            &&& s.subrange(p9, p10) =~= e10
            &&& s.subrange(p10, p11) =~= e11
        }),
{
    let s = enc_header(cfg);
    let e1 = enc_map_len(5);
    let e2 = enc_strbytes(schema_key());
    let e3 = enc_strbytes(schema_val());
    let e4 = enc_strbytes(version_key());
    let e5 = enc_uint(101);
    let e6 = enc_strbytes(fes_key());
    let e7 = enc_uint(cfg.full_encode_secs as u64);
    let e8 = enc_strbytes(llq_key());
    let e9 = match cfg.recv_llq {
        Some(q) => enc_f64bits(llq_bits(q)),
        None => enc_nil(),
    };
    let e10 = enc_strbytes(delta_key());
    let e11 = enc_bool(cfg.delta_enc);
    let p1 = e1.len() as int;
    let p2 = p1 + e2.len();
    let p3 = p2 + e3.len();
    let p4 = p3 + e4.len();
    let p5 = p4 + e5.len();
    let p6 = p5 + e6.len();
    let p7 = p6 + e7.len();
    let p8 = p7 + e8.len();
    let p9 = p8 + e9.len();
    let p10 = p9 + e10.len();
    let p11 = p10 + e11.len();
    assert(s.subrange(0, p1) =~= e1) by {
        assert forall|k: int| 0 <= k < e1.len() implies s.subrange(0, p1)[k] == e1[k] by {
            assert(s[k] == e1[k]);
        }
    }
    assert(s.subrange(p1, p2) =~= e2) by {
        assert forall|k: int| 0 <= k < e2.len() implies s.subrange(p1, p2)[k] == e2[k] by {
            assert(s[p1 + k] == e2[k]);
        }
    }
    assert(s.subrange(p2, p3) =~= e3) by {
        assert forall|k: int| 0 <= k < e3.len() implies s.subrange(p2, p3)[k] == e3[k] by {
            assert(s[p2 + k] == e3[k]);
        }
    }
    assert(s.subrange(p3, p4) =~= e4) by {
        assert forall|k: int| 0 <= k < e4.len() implies s.subrange(p3, p4)[k] == e4[k] by {
            assert(s[p3 + k] == e4[k]);
        }
    }
    assert(s.subrange(p4, p5) =~= e5) by {
        assert forall|k: int| 0 <= k < e5.len() implies s.subrange(p4, p5)[k] == e5[k] by {
            assert(s[p4 + k] == e5[k]);
        }
    }
    assert(s.subrange(p5, p6) =~= e6) by {
        assert forall|k: int| 0 <= k < e6.len() implies s.subrange(p5, p6)[k] == e6[k] by {
            assert(s[p5 + k] == e6[k]);
        }
    }
    assert(s.subrange(p6, p7) =~= e7) by {
        assert forall|k: int| 0 <= k < e7.len() implies s.subrange(p6, p7)[k] == e7[k] by {
            assert(s[p6 + k] == e7[k]);
        }
    }
    assert(s.subrange(p7, p8) =~= e8) by {
        assert forall|k: int| 0 <= k < e8.len() implies s.subrange(p7, p8)[k] == e8[k] by {
            assert(s[p7 + k] == e8[k]);
        }
    }
    assert(s.subrange(p8, p9) =~= e9) by {
        assert forall|k: int| 0 <= k < e9.len() implies s.subrange(p8, p9)[k] == e9[k] by {
            assert(s[p8 + k] == e9[k]);
        }
    }
    assert(s.subrange(p9, p10) =~= e10) by {
        assert forall|k: int| 0 <= k < e10.len() implies s.subrange(p9, p10)[k] == e10[k] by {
            assert(s[p9 + k] == e10[k]);
        }
    }
    assert(s.subrange(p10, p11) =~= e11) by {
        assert forall|k: int| 0 <= k < e11.len() implies s.subrange(p10, p11)[k] == e11[k] by {
            assert(s[p10 + k] == e11[k]);
        }
    }
}

/// Gluing the parsed pieces back into one header read.
#[verifier::rlimit(100)]
#[verifier::spinoff_prover]
proof fn lemma_parse_header_compose(
    s: Seq<u8>,
    sv: Seq<u8>,
    ver: i64,
    fes: i64,
    llq: Option<u64>,
    delta: bool,
    p1: int,
    p2: int,
    p3: int,
    p4: int,
    p5: int,
    p6: int,
    p7: int,
    p8: int,
    p9: int,
    p10: int,
    p11: int,
)
    requires
        parse_map_len(s, 0) == Some((5u32, p1)),
        parse_strbytes(s, p1) == Some((schema_key(), p2)),
        parse_strbytes(s, p2) == Some((sv, p3)),
        parse_strbytes(s, p3) == Some((version_key(), p4)),
        parse_int(s, p4) == Some((ver, p5)),
        parse_strbytes(s, p5) == Some((fes_key(), p6)),
        parse_int(s, p6) == Some((fes, p7)),
        parse_strbytes(s, p7) == Some((llq_key(), p8)),
        match llq {
            None => parse_nil(s, p8) == Some(p9),
            Some(bits) => parse_nil(s, p8) is None && parse_f64bits(s, p8) == Some((bits, p9)),
        },
        parse_strbytes(s, p9) == Some((delta_key(), p10)),
        parse_bool(s, p10) == Some((delta, p11)),
    ensures
        parse_header(s, 0) == Some((sv, ver, fes, llq, delta, p11)),
{
}

/// The first six fields of a written header parse at their offsets.
#[verifier::rlimit(100)]
#[verifier::spinoff_prover]
proof fn lemma_parse_header_enc_front(cfg: FDCodecCfg)
    requires
        wf_cfg(cfg),
    ensures
        ({
            let s = enc_header(cfg);
            let p1 = enc_map_len(5).len() as int;
            let p2 = p1 + enc_strbytes(schema_key()).len();
            let p3 = p2 + enc_strbytes(schema_val()).len();
            let p4 = p3 + enc_strbytes(version_key()).len();
            let p5 = p4 + enc_uint(101).len();
            let p6 = p5 + enc_strbytes(fes_key()).len();
            &&& parse_map_len(s, 0) == Some((5u32, p1))
            &&& parse_strbytes(s, p1) == Some((schema_key(), p2))
            &&& parse_strbytes(s, p2) == Some((schema_val(), p3))
            &&& parse_strbytes(s, p3) == Some((version_key(), p4))
            &&& parse_int(s, p4) == Some((101i64, p5))
            &&& parse_strbytes(s, p5) == Some((fes_key(), p6))
        }),
{
    let s = enc_header(cfg);
    let p1 = enc_map_len(5).len() as int;
    let p2 = p1 + enc_strbytes(schema_key()).len();
    let p3 = p2 + enc_strbytes(schema_val()).len();
    let p4 = p3 + enc_strbytes(version_key()).len();
    let p5 = p4 + enc_uint(101).len();
    lemma_header_segments(cfg);
    crate::dynrmp::lemma_parse_map_len_enc(s, 0, 5);
    crate::dynrmp::lemma_parse_strbytes_enc(s, p1, schema_key());
    crate::dynrmp::lemma_parse_strbytes_enc(s, p2, schema_val());
    crate::dynrmp::lemma_parse_strbytes_enc(s, p3, version_key());
    crate::dynrmp::lemma_parse_int_enc_uint(s, p4, 101);
    crate::dynrmp::lemma_parse_strbytes_enc(s, p5, fes_key());
}

/// The last five fields of a written header parse at their offsets.
#[verifier::rlimit(100)]
#[verifier::spinoff_prover]
proof fn lemma_parse_header_enc_back(cfg: FDCodecCfg)
    requires
        wf_cfg(cfg),
    ensures
        ({
            let s = enc_header(cfg);
            let e9 = match cfg.recv_llq {
                Some(q) => enc_f64bits(llq_bits(q)),
                None => enc_nil(),
            };
            let p1 = enc_map_len(5).len() as int;
            let p2 = p1 + enc_strbytes(schema_key()).len();
            let p3 = p2 + enc_strbytes(schema_val()).len();
            let p4 = p3 + enc_strbytes(version_key()).len();
            let p5 = p4 + enc_uint(101).len();
            let p6 = p5 + enc_strbytes(fes_key()).len();
            let p7 = p6 + enc_uint(cfg.full_encode_secs as u64).len();
            let p8 = p7 + enc_strbytes(llq_key()).len();
            let p9 = p8 + e9.len();
            let p10 = p9 + enc_strbytes(delta_key()).len();
            let p11 = p10 + enc_bool(cfg.delta_enc).len();
            &&& parse_int(s, p6) == Some((cfg.full_encode_secs, p7))
            &&& parse_strbytes(s, p7) == Some((llq_key(), p8))
            &&& (match cfg.recv_llq {
                None => parse_nil(s, p8) == Some(p9),
                Some(q) => parse_nil(s, p8) is None && parse_f64bits(s, p8) == Some(
                    (llq_bits(q), p9),
                ),
            })
            &&& parse_strbytes(s, p9) == Some((delta_key(), p10))
            &&& parse_bool(s, p10) == Some((cfg.delta_enc, p11))
            &&& p11 == s.len()
        }),
{
    let s = enc_header(cfg);
    let e9 = match cfg.recv_llq {
        Some(q) => enc_f64bits(llq_bits(q)),
        None => enc_nil(),
    };
    let p1 = enc_map_len(5).len() as int;
    let p2 = p1 + enc_strbytes(schema_key()).len();
    let p3 = p2 + enc_strbytes(schema_val()).len();
    let p4 = p3 + enc_strbytes(version_key()).len();
    let p5 = p4 + enc_uint(101).len();
    let p6 = p5 + enc_strbytes(fes_key()).len();
    let p7 = p6 + enc_uint(cfg.full_encode_secs as u64).len();
    let p8 = p7 + enc_strbytes(llq_key()).len();
    let p9 = p8 + e9.len();
    let p10 = p9 + enc_strbytes(delta_key()).len();
    lemma_header_segments(cfg);
    crate::dynrmp::lemma_parse_int_enc_uint(s, p6, cfg.full_encode_secs as u64);
    crate::dynrmp::lemma_parse_strbytes_enc(s, p7, llq_key());
    match cfg.recv_llq {
        Some(q) => {
            crate::dynrmp::lemma_parse_f64bits_enc(s, p8, llq_bits(q));
            assert(s[p8] == e9[0]) by {
                assert(s.subrange(p8, p9)[0] == e9[0]);
            }
            assert(parse_nil(s, p8) is None);
        },
        None => {
            crate::dynrmp::lemma_parse_nil_enc(s, p8);
        },
    }
    crate::dynrmp::lemma_parse_strbytes_enc(s, p9, delta_key());
    crate::dynrmp::lemma_parse_bool_enc(s, p10, cfg.delta_enc);
}

/// A written header reads back field for field.
#[verifier::rlimit(100)]
#[verifier::spinoff_prover]
pub proof fn lemma_parse_header_enc(cfg: FDCodecCfg)
    requires
        wf_cfg(cfg),
    ensures
        parse_header(enc_header(cfg), 0) == Some(
            (
                schema_val(),
                101i64,
                cfg.full_encode_secs,
                match cfg.recv_llq {
                    Some(q) => Some(llq_bits(q)),
                    None => None::<u64>,
                },
                cfg.delta_enc,
                enc_header(cfg).len() as int,
            ),
        ),
{
    let s = enc_header(cfg);
    let e9 = match cfg.recv_llq {
        Some(q) => enc_f64bits(llq_bits(q)),
        None => enc_nil(),
    };
    let p1 = enc_map_len(5).len() as int;
    let p2 = p1 + enc_strbytes(schema_key()).len();
    let p3 = p2 + enc_strbytes(schema_val()).len();
    let p4 = p3 + enc_strbytes(version_key()).len();
    let p5 = p4 + enc_uint(101).len();
    let p6 = p5 + enc_strbytes(fes_key()).len();
    let p7 = p6 + enc_uint(cfg.full_encode_secs as u64).len();
    let p8 = p7 + enc_strbytes(llq_key()).len();
    let p9 = p8 + e9.len();
    let p10 = p9 + enc_strbytes(delta_key()).len();
    let p11 = p10 + enc_bool(cfg.delta_enc).len();
    lemma_parse_header_enc_front(cfg);
    lemma_parse_header_enc_back(cfg);
    lemma_parse_header_compose(
        s,
        schema_val(),
        101i64,
        cfg.full_encode_secs,
        match cfg.recv_llq {
            Some(q) => Some(llq_bits(q)),
            None => None::<u64>,
        },
        cfg.delta_enc,
        p1,
        p2,
        p3,
        p4,
        p5,
        p6,
        p7,
        p8,
        p9,
        p10,
        p11,
    );
}

/// The header fields as they are collected, in whatever order they come.
struct HeaderSlots {
    schema: Option<Vec<u8>>,
    version: Option<i64>,
    fes: Option<i64>,
    llq: Option<Option<u64>>,
    delta: Option<bool>,
}

/// What reading one header pair does: on success the key was one of the
/// five, its typed value was read, and only that slot changed.
spec fn pair_read_ok(
    s: Seq<u8>,
    pos: int,
    before: HeaderSlots,
    r: Result<usize, XError>,
    after: HeaderSlots,
) -> bool {
    r matches Ok(p2) ==> (parse_strbytes(s, pos) matches Some(kp) && ({
        let k = kp.0;
        let p1 = kp.1;
        ||| (k == schema_key() && (parse_strbytes(s, p1) matches Some(vp) && p2 == vp.1 && (
        after.schema matches Some(sv) && sv@ == vp.0) && after.version == before.version
            && after.fes == before.fes && after.llq == before.llq && after.delta
            == before.delta))
        ||| (k == version_key() && (parse_int(s, p1) matches Some(vp) && p2 == vp.1
            && after.version == Some(vp.0) && after.schema == before.schema && after.fes
            == before.fes && after.llq == before.llq && after.delta == before.delta))
        ||| (k == fes_key() && (parse_int(s, p1) matches Some(vp) && p2 == vp.1 && after.fes
            == Some(vp.0) && after.schema == before.schema && after.version == before.version
            && after.llq == before.llq && after.delta == before.delta))
        ||| (k == llq_key() && (match parse_nil(s, p1) {
            Some(pn) => p2 == pn && after.llq == Some(None::<u64>),
            None => parse_f64bits(s, p1) matches Some(vp) && p2 == vp.1 && after.llq == Some(
                Some(vp.0),
            ),
        }) && after.schema == before.schema && after.version == before.version && after.fes
            == before.fes && after.delta == before.delta)
        ||| (k == delta_key() && (parse_bool(s, p1) matches Some(vp) && p2 == vp.1
            && after.delta == Some(vp.0) && after.schema == before.schema && after.version
            == before.version && after.fes == before.fes && after.llq == before.llq))
    }))
}

/// A header's precision field the reader supports: nil, or the bits of a
/// power of two between 2^-1 and 2^-30.
pub open spec fn llq_field_ok(f: Option<u64>) -> bool {
    match f {
        None => true,
        Some(bits) => bits % 0x10000000000000 == 0 && 993 <= bits / 0x10000000000000 <= 1022,
    }
}

impl FDCodecState {
    /// Writes the header for a configuration.
    pub fn get_header(cfg: FDCodecCfg) -> (r: Vec<u8>)
        requires
            wf_cfg(cfg),
        ensures
            r@ == enc_header(cfg),
    {
        Self::try_get_header(cfg)
    }

    /// Writes the header for a configuration.
    pub fn try_get_header(cfg: FDCodecCfg) -> (r: Vec<u8>)
        requires
            wf_cfg(cfg),
        ensures
            r@ == enc_header(cfg),
    {
        let mut out: Vec<u8> = Vec::new();
        write_map_len(&mut out, 5);
        let k1: [u8; 6] = [115u8, 99u8, 104u8, 101u8, 109u8, 97u8];
        proof {
            assert(k1@ =~= schema_key());
        }
        write_strbytes(&mut out, k1.as_slice());
        let v1: [u8; 7] = [70u8, 68u8, 67u8, 111u8, 100u8, 101u8, 99u8];
        proof {
            assert(v1@ =~= schema_val());
        }
        write_strbytes(&mut out, v1.as_slice());
        let k2: [u8; 7] = [118u8, 101u8, 114u8, 115u8, 105u8, 111u8, 110u8];
        proof {
            assert(k2@ =~= version_key());
        }
        write_strbytes(&mut out, k2.as_slice());
        write_uint(&mut out, 101);
        let k3: [u8; 16] = [
            102u8,
            117u8,
            108u8,
            108u8,
            95u8,
            101u8,
            110u8,
            99u8,
            111u8,
            100u8,
            101u8,
            95u8,
            115u8,
            101u8,
            99u8,
            115u8,
        ];
        proof {
            assert(k3@ =~= fes_key());
        }
        write_strbytes(&mut out, k3.as_slice());
        write_uint(&mut out, cfg.full_encode_secs as u64);
        let k4: [u8; 8] = [114u8, 101u8, 99u8, 118u8, 95u8, 108u8, 108u8, 113u8];
        proof {
            assert(k4@ =~= llq_key());
        }
        write_strbytes(&mut out, k4.as_slice());
        match cfg.recv_llq {
            Some(q) => {
                write_f64bits(&mut out, q.precision_f64bits());
            },
            None => {
                write_nil(&mut out);
            },
        }
        let k5: [u8; 9] = [100u8, 101u8, 108u8, 116u8, 97u8, 95u8, 101u8, 110u8, 99u8];
        proof {
            assert(k5@ =~= delta_key());
        }
        write_strbytes(&mut out, k5.as_slice());
        write_bool(&mut out, cfg.delta_enc);
        proof {
            assert(out@ =~= enc_header(cfg));
        }
        out
    }

    /// Reads a header: a map of exactly five fields, in any order.  It is
    /// refused only when a field is missing or malformed, the schema is
    /// foreign, the version is newer than this reader, the keyframe interval
    /// does not fit the wire's delta field, or the precision is not a
    /// supported power of two.
    #[verifier::rlimit(100)]
    #[verifier::spinoff_prover]
    pub fn try_from_header(buf: &[u8], pos: usize) -> (r: Result<(FDCodecCfg, usize), XError>)
        ensures
            r matches Ok((cfg, p2)) ==> wf_cfg(cfg),
            parse_header(buf@, pos as int) matches Some(h) ==> ({
                &&& (h.0 != schema_val() ==> (r matches Err(e) && e == XError::WrongSchema))
                &&& (h.0 == schema_val() && h.1 > header_version() ==> (r matches Err(e) && e
                    == XError::UnsupportedVersion))
                &&& (h.0 == schema_val() && 0 <= h.1 <= header_version() && 0 <= h.2 <= 4294000
                    && llq_field_ok(h.3) ==> (r matches Ok(c) && c.0.full_encode_secs == h.2
                    && c.0.delta_enc == h.4 && c.1 == h.5 && (match h.3 {
                    Some(bits) => c.0.recv_llq matches Some(q) && bits == llq_bits(q),
                    None => c.0.recv_llq is None,
                })))
            }),
    {
        let (n, q0) = match read_map_len(buf, pos) {
            Ok(x) => x,
            Err(_) => {
                return Err(XError::Malformed);
            },
        };
        if n != 5 {
            return Err(XError::Malformed);
        }
        let mut slots = HeaderSlots {
            schema: None,
            version: None,
            fes: None,
            llq: None,
            delta: None,
        };
        let ghost h = parse_header(buf@, pos as int);
        proof {
            if h is Some {
                assert(parse_strbytes(buf@, q0 as int) matches Some(kp) && kp.0 == schema_key());
            }
        }
        let p1 = Self::read_header_pair(buf, q0, &mut slots)?;
        proof {
            if h is Some {
                assert(parse_strbytes(buf@, p1 as int) matches Some(kp) && kp.0 == version_key());
            }
        }
        let p2 = Self::read_header_pair(buf, p1, &mut slots)?;
        proof {
            if h is Some {
                assert(parse_strbytes(buf@, p2 as int) matches Some(kp) && kp.0 == fes_key());
            }
        }
        let p3 = Self::read_header_pair(buf, p2, &mut slots)?;
        proof {
            if h is Some {
                assert(parse_strbytes(buf@, p3 as int) matches Some(kp) && kp.0 == llq_key());
            }
        }
        let p4 = Self::read_header_pair(buf, p3, &mut slots)?;
        proof {
            if h is Some {
                assert(parse_strbytes(buf@, p4 as int) matches Some(kp) && kp.0 == delta_key());
            }
        }
        let p5 = Self::read_header_pair(buf, p4, &mut slots)?;
        let sv = match slots.schema {
            Some(v) => v,
            None => {
                return Err(XError::HeaderFieldMissing);
            },
        };
        let ver = match slots.version {
            Some(v) => v,
            None => {
                return Err(XError::HeaderFieldMissing);
            },
        };
        let fes = match slots.fes {
            Some(v) => v,
            None => {
                return Err(XError::HeaderFieldMissing);
            },
        };
        let llq_bits_opt = match slots.llq {
            Some(v) => v,
            None => {
                return Err(XError::HeaderFieldMissing);
            },
        };
        let delta_enc = match slots.delta {
            Some(v) => v,
            None => {
                return Err(XError::HeaderFieldMissing);
            },
        };
        let sval: [u8; 7] = [70u8, 68u8, 67u8, 111u8, 100u8, 101u8, 99u8];
        proof {
            assert(sval@ =~= schema_val());
        }
        if !bytes_eq(sv.as_slice(), sval.as_slice()) {
            return Err(XError::WrongSchema);
        }
        if ver > 101 {
            return Err(XError::UnsupportedVersion);
        }
        if ver < 0 {
            return Err(XError::Malformed);
        }
        if !(0 <= fes && fes <= 4294000) {
            return Err(XError::Malformed);
        }
        let recv_llq: Option<LinearLogQuantizer> = match llq_bits_opt {
            None => None,
            Some(bits) => match LinearLogQuantizer::from_f64bits(bits) {
                Some(q) => Some(q),
                None => {
                    return Err(XError::Malformed);
                },
            },
        };
        Ok((FDCodecCfg { full_encode_secs: fes, recv_llq, delta_enc }, p5))
    }

    /// Reads one `key: value` pair of the header into its slot; the value's
    /// type follows the key.
    fn read_header_pair(buf: &[u8], pos: usize, slots: &mut HeaderSlots) -> (r: Result<
        usize,
        XError,
    >)
        ensures
            pair_read_ok(buf@, pos as int, *old(slots), r, *final(slots)),
            (parse_strbytes(buf@, pos as int) matches Some(kp) && kp.0 == schema_key()
                && parse_strbytes(buf@, kp.1) is Some) ==> r is Ok,
            (parse_strbytes(buf@, pos as int) matches Some(kp) && kp.0 == version_key()
                && parse_int(buf@, kp.1) is Some) ==> r is Ok,
            (parse_strbytes(buf@, pos as int) matches Some(kp) && kp.0 == fes_key()
                && parse_int(buf@, kp.1) is Some) ==> r is Ok,
            (parse_strbytes(buf@, pos as int) matches Some(kp) && kp.0 == llq_key() && (parse_nil(
                buf@,
                kp.1,
            ) is Some || parse_f64bits(buf@, kp.1) is Some)) ==> r is Ok,
            (parse_strbytes(buf@, pos as int) matches Some(kp) && kp.0 == delta_key()
                && parse_bool(buf@, kp.1) is Some) ==> r is Ok,
    {
        let (k, p1) = match read_strbytes(buf, pos) {
            Ok(x) => x,
            Err(_) => {
                return Err(XError::Malformed);
            },
        };
        if bytes_eq(k.as_slice(), &[115u8, 99u8, 104u8, 101u8, 109u8, 97u8]) {
            proof {
                assert(seq![115u8, 99u8, 104u8, 101u8, 109u8, 97u8] =~= schema_key());
            }
            let (v, p2) = match read_strbytes(buf, p1) {
                Ok(x) => x,
                Err(_) => {
                    return Err(XError::Malformed);
                },
            };
            slots.schema = Some(v);
            Ok(p2)
        } else if bytes_eq(k.as_slice(), &[118u8, 101u8, 114u8, 115u8, 105u8, 111u8, 110u8]) {
            proof {
                assert(seq![118u8, 101u8, 114u8, 115u8, 105u8, 111u8, 110u8] =~= version_key());
            }
            let (v, p2) = match read_int(buf, p1) {
                Ok(x) => x,
                Err(_) => {
                    return Err(XError::Malformed);
                },
            };
            slots.version = Some(v);
            Ok(p2)
        } else if bytes_eq(
            k.as_slice(),
            &[
                102u8,
                117u8,
                108u8,
                108u8,
                95u8,
                101u8,
                110u8,
                99u8,
                111u8,
                100u8,
                101u8,
                95u8,
                115u8,
                101u8,
                99u8,
                115u8,
            ],
        ) {
            proof {
                assert(seq![
                    102u8, 117u8, 108u8, 108u8, 95u8, 101u8, 110u8, 99u8, 111u8, 100u8, 101u8,
                    95u8, 115u8, 101u8, 99u8, 115u8,
                ] =~= fes_key());
            }
            let (v, p2) = match read_int(buf, p1) {
                Ok(x) => x,
                Err(_) => {
                    return Err(XError::Malformed);
                },
            };
            slots.fes = Some(v);
            Ok(p2)
        } else if bytes_eq(
            k.as_slice(),
            &[114u8, 101u8, 99u8, 118u8, 95u8, 108u8, 108u8, 113u8],
        ) {
            proof {
                assert(seq![114u8, 101u8, 99u8, 118u8, 95u8, 108u8, 108u8, 113u8] =~= llq_key());
            }
            match read_nil(buf, p1) {
                Ok(p2) => {
                    slots.llq = Some(None);
                    Ok(p2)
                },
                Err(_) => {
                    let (bits, p2) = match read_f64bits(buf, p1) {
                        Ok(x) => x,
                        Err(_) => {
                            return Err(XError::Malformed);
                        },
                    };
                    slots.llq = Some(Some(bits));
                    Ok(p2)
                },
            }
        } else if bytes_eq(
            k.as_slice(),
            &[100u8, 101u8, 108u8, 116u8, 97u8, 95u8, 101u8, 110u8, 99u8],
        ) {
            proof {
                assert(seq![100u8, 101u8, 108u8, 116u8, 97u8, 95u8, 101u8, 110u8, 99u8]
                    =~= delta_key());
            }
            let (v, p2) = match read_bool(buf, p1) {
                Ok(x) => x,
                Err(_) => {
                    return Err(XError::Malformed);
                },
            };
            slots.delta = Some(v);
            Ok(p2)
        } else {
            Err(XError::UnexpectedData)
        }
    }

    /// Reads a header, exactly as `try_from_header` does.
    pub fn from_header(buf: &[u8], pos: usize) -> (r: Result<(FDCodecCfg, usize), XError>)
        ensures
            r matches Ok((cfg, p2)) ==> wf_cfg(cfg),
            parse_header(buf@, pos as int) matches Some(h) ==> ({
                &&& (h.0 != schema_val() ==> (r matches Err(e) && e == XError::WrongSchema))
                &&& (h.0 == schema_val() && h.1 > header_version() ==> (r matches Err(e) && e
                    == XError::UnsupportedVersion))
                &&& (h.0 == schema_val() && 0 <= h.1 <= header_version() && 0 <= h.2 <= 4294000
                    && llq_field_ok(h.3) ==> (r matches Ok(c) && c.0.full_encode_secs == h.2
                    && c.0.delta_enc == h.4 && c.1 == h.5 && (match h.3 {
                    Some(bits) => c.0.recv_llq matches Some(q) && bits == llq_bits(q),
                    None => c.0.recv_llq is None,
                })))
            }),
    {
        Self::try_from_header(buf, pos)
    }

    /// A codec state primed from a header.
    pub fn new_from_header(buf: &[u8], pos: usize) -> (r: Result<(Self, usize), XError>)
        ensures
            r matches Ok((st, p2)) ==> (wf_state(st) && st.last_timestamp is None
                && st.last_subsec_ms == 0 && st.last_recvq_0 == 0),
    {
        let (cfg, p2) = Self::try_from_header(buf, pos)?;
        Ok((Self::new(cfg), p2))
    }
}

/// Checks at run time that a parsed record can be decoded against the
/// state.
fn check_decodable(st: &FDCodecState, e: &FrameDataQ<Encoded>) -> (r: bool)
    requires
        wf_state(*st),
    ensures
        r == decodable(*st, *e),
{
    match e.timestamp {
        Some(ts) => {
            if !(0 <= ts && ts <= 0x10000000000) {
                return false;
            }
        },
        None => {
            if st.last_timestamp.is_none() {
                return false;
            }
        },
    }
    match e.subsec_ms {
        SubSecType::Delta(_) => {
            if e.timestamp.is_some() {
                return false;
            }
        },
        SubSecType::Abs(v) => {
            if v >= 1000 {
                return false;
            }
        },
    }
    let ts0: i64 = match e.timestamp {
        Some(t) => t,
        None => match st.last_timestamp {
            Some(l) => l,
            None => unreached(),
        },
    };
    let sub: u64 = match e.subsec_ms {
        SubSecType::Abs(v) => v as u64,
        SubSecType::Delta(v) => v as u64 + st.last_subsec_ms as u64,
    };
    let part = sub % 1000;
    let ts: i128 = ts0 as i128 + ((sub - part) / 1000) as i128;
    if !(0 <= ts && ts <= 0x10000000000) {
        return false;
    }
    proof {
        assert(peek_decode_ts(*st, *e).0 == ts);
    }
    let llq_path = st.cfg.recv_llq.is_some() && e.recv_us_len > 0;
    if llq_path {
        let q = match st.cfg.recv_llq {
            Some(q) => q,
            None => unreached(),
        };
        let mut i: usize = 0;
        while i < 7
            invariant
                i <= 7,
                wf_state(*st),
                st.cfg.recv_llq == Some(q),
                e.recv_us_len > 0,
                forall|k: int| 0 <= k < i ==> {
                    let w = #[trigger] e.recv_us@[k] + st.last_recvq_0;
                    &&& -0x7fffffffffffffff <= w <= 0x7fffffffffffffff
                    &&& llq_bucket_in_range(st_k(*st), w)
                    &&& 0 <= llq_decode(st_k(*st), w) <= 0x3fffffffffffffff
                },
            decreases 7 - i,
        {
            let w128: i128 = e.recv_us[i] as i128 + st.last_recvq_0 as i128;
            if !(-0x7fffffffffffffff <= w128 && w128 <= 0x7fffffffffffffff) {
                return false;
            }
            let w = w128 as i64;
            if !q.bucket_in_range_exec(w) {
                return false;
            }
            let dec = q.decode(w);
            if !(0 <= dec && dec <= 0x3fffffffffffffff) {
                return false;
            }
            i += 1;
        }
    } else {
        let mut i: usize = 0;
        while i < 7
            invariant
                i <= 7,
                st.cfg.recv_llq is None || e.recv_us_len == 0,
                forall|k: int| 0 <= k < i ==> -1 <= #[trigger] e.recv_us@[k]
                    <= 0x3fffffffffffffff,
                (st.cfg.recv_llq is None && e.recv_us_len > 0) ==> forall|k: int|
                    0 <= k < i ==> 0 <= #[trigger] e.recv_us@[k],
            decreases 7 - i,
        {
            let v = e.recv_us[i];
            if !(-1 <= v && v <= 0x3fffffffffffffff) {
                return false;
            }
            if st.cfg.recv_llq.is_none() && e.recv_us_len > 0 && v < 0 {
                return false;
            }
            i += 1;
        }
    }
    true
}

/// Walks the records of a log held in memory, decoding each against the
/// running codec state.
pub struct FDCodecIter {
    pub buf: Vec<u8>,
    pub pos: usize,
    pub fdcs: FDCodecState,
}

impl FDCodecIter {
    /// Opens a log: the header is read and primes the codec state.
    pub fn new(buf: Vec<u8>) -> (r: Result<Self, XError>)
        ensures
            r matches Ok(it) ==> (wf_state(it.fdcs) && it.buf@ == buf@ && it.fdcs.last_timestamp
                is None),
            parse_header(buf@, 0) matches Some(h) ==> ({
                &&& (h.0 != schema_val() ==> (r matches Err(e) && e == XError::WrongSchema))
                &&& (h.0 == schema_val() && h.1 > header_version() ==> (r matches Err(e) && e
                    == XError::UnsupportedVersion))
                &&& (h.0 == schema_val() && 0 <= h.1 <= header_version() && 0 <= h.2 <= 4294000
                    && llq_field_ok(h.3) ==> (r matches Ok(it) && it.fdcs.cfg.full_encode_secs
                    == h.2 && it.fdcs.cfg.delta_enc == h.4 && it.pos == h.5))
            }),
    {
        let (cfg, p) = FDCodecState::try_from_header(buf.as_slice(), 0)?;
        Ok(Self { buf, pos: p, fdcs: FDCodecState::new(cfg) })
    }

    /// The next record, decoded; nothing at a clean end of the log, an
    /// error on bytes that do not parse or cannot be decoded.
    pub fn next_record(&mut self) -> (r: Result<Option<FrameDataQ<Complete>>, XError>)
        requires
            wf_state(old(self).fdcs),
        ensures
            wf_state(final(self).fdcs),
            final(self).buf@ == old(self).buf@,
            r matches Ok(None) ==> (*final(self) == *old(self) && old(self).pos >= old(
                self,
            ).buf@.len()),
            r matches Ok(Some(d)) ==> (parse_record(old(self).buf@, old(self).pos as int)
                matches Some(pr) && decodable(old(self).fdcs, pr.0) && d.timestamp == Some(
                peek_decode_ts(old(self).fdcs, pr.0).0 as i64,
            ) && d.subsec_ms == SubSecType::Abs(peek_decode_ts(old(self).fdcs, pr.0).1 as u32)
                && d.inflight == pr.0.inflight && d.lost_packets == pr.0.lost_packets
                && d.recv_us_len == pr.0.recv_us_len && decoded_entries_ok(
                old(self).fdcs,
                pr.0,
                d,
            ) && final(self).fdcs == push_spec(old(self).fdcs, d) && final(self).pos == pr.1),
            (old(self).pos < old(self).buf@.len() && (parse_record(
                old(self).buf@,
                old(self).pos as int,
            ) matches Some(pr) && decodable(old(self).fdcs, pr.0))) ==> (r matches Ok(s) && s
                is Some),
            r is Err ==> *final(self) == *old(self),
    {
        if self.pos >= self.buf.len() {
            return Ok(None);
        }
        let (rec, p2) = match FrameDataQ::<Encoded>::from_rmp(self.buf.as_slice(), self.pos) {
            Ok(x) => x,
            Err(e) => {
                return Err(e);
            },
        };
        if !check_decodable(&self.fdcs, &rec) {
            return Err(XError::Malformed);
        }
        let d = self.fdcs.decode(rec);
        self.pos = p2;
        Ok(Some(d))
    }
}

/// Downsamples a run of records: a sliding window of up to `window` records,
/// advanced `step` at a time, each position folded into one record.
pub struct FDCodecIterFold {
    /// The records being walked.
    pub frames: Vec<FrameDataQ<Complete>>,
    /// How far the walk has come.
    pub idx: usize,
    pub window: usize,
    pub step: usize,
    /// The current window, newest first.
    pub buffer: Vec<FrameDataQ<Complete>>,
}

pub open spec fn fold_wf(it: FDCodecIterFold) -> bool {
    &&& 1 <= it.step <= it.window <= 0x100000000
    &&& it.idx <= it.frames@.len()
    &&& it.buffer@.len() <= it.window
    &&& forall|i: int| 0 <= i < it.frames@.len() ==> foldable(#[trigger] it.frames@[i])
    &&& forall|i: int| 0 <= i < it.buffer@.len() ==> foldable(#[trigger] it.buffer@[i])
}

impl FDCodecIterFold {
    /// A fold over the given records with the given window and step.
    pub fn from_iter(frames: Vec<FrameDataQ<Complete>>, window: usize, step: usize) -> (r: Self)
        requires
            1 <= step <= window <= 0x100000000,
            forall|i: int| 0 <= i < frames@.len() ==> foldable(#[trigger] frames@[i]),
        ensures
            fold_wf(r),
            r.frames@ == frames@,
            r.idx == 0,
            r.window == window,
            r.step == step,
            r.buffer@.len() == 0,
    {
        Self { frames, idx: 0, window, step, buffer: Vec::new() }
    }

    /// The next downsampled record: `step` records enter the window (oldest
    /// leave), and the window folds into one record; nothing once the window
    /// has emptied.  A window and step of one passes records through.
    pub fn next_fold(&mut self) -> (r: Option<FrameDataQ<Complete>>)
        requires
            fold_wf(*old(self)),
        ensures
            fold_wf(*final(self)),
            final(self).frames@ == old(self).frames@,
            final(self).window == old(self).window,
            final(self).step == old(self).step,
            (old(self).window == 1 && old(self).step == 1) ==> ({
                &&& (old(self).idx < old(self).frames@.len() ==> r == Some(
                    old(self).frames@[old(self).idx as int],
                ) && final(self).idx == old(self).idx + 1)
                &&& (old(self).idx >= old(self).frames@.len() ==> r is None)
            }),
            !(old(self).window == 1 && old(self).step == 1) ==> ({
                &&& (r matches Some(d) ==> final(self).buffer@.len() >= 1 && fold_post(
                    final(self).buffer@,
                    d,
                ))
                &&& (r is None ==> final(self).buffer@.len() == 0)
            }),
    {
        if self.window == 1 && self.step == 1 {
            if self.idx < self.frames.len() {
                let d = self.frames[self.idx];
                self.idx = self.idx + 1;
                return Some(d);
            }
            return None;
        }
        let mut taken: usize = 0;
        let mut fresh: Vec<FrameDataQ<Complete>> = Vec::new();
        while taken < self.step && self.idx < self.frames.len()
            invariant
                fold_wf(*self),
                taken <= self.step,
                fresh@.len() == taken,
                self.frames@ == old(self).frames@,
                self.window == old(self).window,
                self.step == old(self).step,
                self.buffer@ == old(self).buffer@,
                forall|i: int| 0 <= i < fresh@.len() ==> foldable(#[trigger] fresh@[i]),
            decreases self.step - taken,
        {
            let d = self.frames[self.idx];
            fresh.push(d);
            self.idx = self.idx + 1;
            taken = taken + 1;
        }
        // make room: with new records, keep the window size; with none, the
        // window drains by a step
        let to_remove: usize = if taken == 0 {
            self.step
        } else {
            let total: u64 = self.buffer.len() as u64 + taken as u64;
            if total > self.window as u64 {
                (total - self.window as u64) as usize
            } else {
                0
            }
        };
        let ghost pre_len = self.buffer@.len() as int;
        let mut removed: usize = 0;
        while removed < to_remove && self.buffer.len() > 0
            invariant
                fold_wf(*self),
                self.frames@ == old(self).frames@,
                self.window == old(self).window,
                self.step == old(self).step,
                removed <= to_remove,
                self.buffer@.len() == pre_len - removed,
            decreases to_remove - removed,
        {
            let last = self.buffer.len() - 1;
            self.buffer.remove(last);
            removed = removed + 1;
        }
        proof {
            assert(self.buffer@.len() <= self.window - taken);
        }
        let mut j: usize = 0;
        while j < taken
            invariant
                fold_wf(*self),
                j <= taken,
                taken == fresh@.len(),
                taken <= self.step,
                self.frames@ == old(self).frames@,
                self.window == old(self).window,
                self.step == old(self).step,
                self.buffer@.len() <= self.window - taken + j,
                forall|i: int| 0 <= i < fresh@.len() ==> foldable(#[trigger] fresh@[i]),
            decreases taken - j,
        {
            proof {
                assert(foldable(fresh@[j as int]));
            }
            self.buffer.insert(0, fresh[j]);
            j = j + 1;
        }
        if self.buffer.len() == 0 {
            return None;
        }
        Some(FrameDataQ::fold_vec(&self.buffer))
    }
}

} // verus!
