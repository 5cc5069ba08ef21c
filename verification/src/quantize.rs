//! Lossy integer quantization for latency samples: linear below a threshold,
//! logarithmic above it.
//!
//! The precision is a power of two, `2^-k`.  Magnitudes below `2^k` are kept
//! exactly; above that, values fall into buckets whose width doubles with
//! each octave, so the absolute error stays below `2^-k` of the magnitude.
//! Encoding is monotone on each sign and decoding returns the lower end of
//! the bucket.

use vstd::prelude::*;

verus! {

/// 2 to the power `n`.
pub open spec fn p2(n: nat) -> int
    decreases n,
{
    if n == 0 {
        1
    } else {
        2 * p2((n - 1) as nat)
    }
}

proof fn lemma_p2_62()
    ensures
        p2(62) == 0x4000000000000000,
{
    reveal_with_fuel(p2, 64);
}

pub proof fn lemma_p2_30()
    ensures
        p2(30) == 0x40000000,
{
    reveal_with_fuel(p2, 32);
}

pub proof fn lemma_p2_8()
    ensures
        p2(8) == 256,
{
    reveal_with_fuel(p2, 10);
}

pub proof fn lemma_p2_pos(n: nat)
    ensures
        p2(n) >= 1,
    decreases n,
{
    if n > 0 {
        lemma_p2_pos((n - 1) as nat);
    }
}

/// Block index of a magnitude `a >= t`: the `j` with `t * 2^j <= a < t * 2^(j+1)`.
pub open spec fn block_of(t: int, a: int) -> nat
    recommends
        t >= 1,
        a >= t,
    decreases a,
{
    if a < 2 * t || a <= 0 {
        0
    } else {
        1 + block_of(t, a / 2)
    }
}

pub proof fn lemma_block_of_range(t: int, a: int)
    requires
        t >= 1,
        a >= t,
    ensures
        t * p2(block_of(t, a)) <= a < t * p2(block_of(t, a) + 1),
    decreases a,
{
    let j = block_of(t, a);
    if a < 2 * t {
        assert(p2(0) == 1 && p2(1) == 2);
    } else {
        lemma_block_of_range(t, a / 2);
        let j1 = block_of(t, a / 2);
        assert(j == j1 + 1);
        assert(t * p2(j1) <= a / 2 < t * p2(j1 + 1));
        assert(a / 2 * 2 <= a < (a / 2 + 1) * 2) by (nonlinear_arith);
        assert(t * p2(j1 + 1) == 2 * (t * p2(j1))) by (nonlinear_arith)
            requires
                p2(j1 + 1) == 2 * p2(j1),
        ;
        assert(t * p2(j1 + 2) == 2 * (t * p2(j1 + 1))) by (nonlinear_arith)
            requires
                p2(j1 + 2) == 2 * p2(j1 + 1),
        ;
        assert(2 * (t * p2(j1)) <= a) by (nonlinear_arith)
            requires
                t * p2(j1) <= a / 2,
                a / 2 * 2 <= a,
        ;
        assert(a < 2 * (t * p2(j1 + 1))) by (nonlinear_arith)
            requires
                a / 2 < t * p2(j1 + 1),
                a < (a / 2 + 1) * 2,
        ;
    }
}

proof fn lemma_block_of_exact(t: int, a: int, j: nat)
    requires
        t >= 1,
        t * p2(j) <= a,
        a < t * p2(j + 1),
    ensures
        block_of(t, a) == j,
{
    lemma_p2_pos(j);
    assert(t * p2(j) >= t) by (nonlinear_arith)
        requires
            t >= 1,
            p2(j) >= 1,
    ;
    lemma_block_of_range(t, a);
    let b = block_of(t, a);
    if b < j {
        lemma_p2_monotone(b + 1, j);
        assert(t * p2(b + 1) <= t * p2(j)) by (nonlinear_arith)
            requires
                t >= 1,
                p2(b + 1) <= p2(j),
        ;
    } else if b > j {
        lemma_p2_monotone(j + 1, b);
        assert(t * p2(j + 1) <= t * p2(b)) by (nonlinear_arith)
            requires
                t >= 1,
                p2(j + 1) <= p2(b),
        ;
    }
}

pub proof fn lemma_p2_monotone(m: nat, n: nat)
    requires
        m <= n,
    ensures
        p2(m) <= p2(n),
    decreases n,
{
    if m < n {
        lemma_p2_monotone(m, (n - 1) as nat);
        lemma_p2_pos((n - 1) as nat);
    }
}

/// Encoded form of `v` at precision `2^-k`: the identity below `2^k`, a
/// bucket number above it, mirrored for negative values.
pub open spec fn llq_encode(k: nat, v: int) -> int
    recommends
        k >= 1,
{
    let t = p2(k);
    if v < 0 {
        -llq_encode_mag(k, -v)
    } else {
        llq_encode_mag(k, v)
    }
}

pub open spec fn llq_encode_mag(k: nat, a: int) -> int
    recommends
        k >= 1,
        a >= 0,
{
    let t = p2(k);
    if a < t {
        a
    } else {
        let j = block_of(t, a);
        t + t * j + (a - t * p2(j)) / p2(j)
    }
}

/// Decoded value: the lower end of the bucket that `e` names.
pub open spec fn llq_decode(k: nat, e: int) -> int
    recommends
        k >= 1,
{
    if e < 0 {
        -llq_decode_mag(k, -e)
    } else {
        llq_decode_mag(k, e)
    }
}

pub open spec fn llq_decode_mag(k: nat, e: int) -> int
    recommends
        k >= 1,
        e >= 0,
{
    let t = p2(k);
    if e < t {
        e
    } else {
        let j = (e - t) / t;
        let r = (e - t) % t;
        t * p2(j as nat) + r * p2(j as nat)
    }
}

/// Width of the bucket that the encoded value `e` names.
pub open spec fn llq_bucket(k: nat, e: int) -> int
    recommends
        k >= 1,
{
    let t = p2(k);
    let a = if e < 0 {
        -e
    } else {
        e
    };
    if a < t {
        1
    } else {
        p2(((a - t) / t) as nat)
    }
}

/// The round trip loses at most the bucket width: exact below the linear
/// threshold, within `2^-k` of the magnitude above it, and never past the
/// original value.
pub proof fn lemma_llq_round_trip(k: nat, v: int)
    requires
        1 <= k,
        v >= 0,
    ensures
        v < p2(k) ==> llq_decode(k, llq_encode(k, v)) == v,
        0 <= v - llq_decode(k, llq_encode(k, v)),
        (v - llq_decode(k, llq_encode(k, v))) * p2(k) <= v,
{
    let t = p2(k);
    lemma_p2_pos(k);
    if v < t {
    } else {
        let j = block_of(t, v);
        lemma_block_of_range(t, v);
        lemma_p2_pos(j);
        let bj = p2(j);
        let q = (v - t * bj) / bj;
        let rem = (v - t * bj) % bj;
        assert(v - t * bj == q * bj + rem && 0 <= rem < bj && q >= 0) by (nonlinear_arith)
            requires
                bj >= 1,
                v - t * bj >= 0,
                q == (v - t * bj) / bj,
                rem == (v - t * bj) % bj,
        ;
        assert(q < t) by (nonlinear_arith)
            requires
                v < t * p2(j + 1),
                p2(j + 1) == 2 * bj,
                v - t * bj == q * bj + rem,
                0 <= rem,
                bj >= 1,
                t >= 1,
        ;
        let e = t + t * j + q;
        assert(llq_encode(k, v) == e);
        assert(e >= t) by (nonlinear_arith)
            requires
                t >= 1,
                q >= 0,
                e == t + t * j + q,
        ;
        assert((e - t) / t == j && (e - t) % t == q) by (nonlinear_arith)
            requires
                e - t == t * j + q,
                0 <= q < t,
                t >= 1,
        ;
        let d = llq_decode_mag(k, e);
        assert(d == t * bj + q * bj);
        assert(v - d == rem);
        assert(rem * t <= v) by (nonlinear_arith)
            requires
                rem < bj,
                t * bj <= v,
                t >= 1,
                bj >= 1,
                rem >= 0,
        ;
        assert(llq_decode(k, llq_encode(k, v)) == d);
    }
}

/// The quantizer: precision is `2^-kbits`.
#[derive(Debug, Clone, Copy, PartialEq, Eq, Structural)]
pub struct LinearLogQuantizer {
    pub kbits: u32,
}

impl LinearLogQuantizer {
    pub open spec fn wf(&self) -> bool {
        1 <= self.kbits <= 30
    }

    pub open spec fn k(&self) -> nat {
        self.kbits as nat
    }

    pub fn new(kbits: u32) -> (r: Self)
        requires
            1 <= kbits <= 30,
        ensures
            r.wf(),
            r.k() == kbits,
    {
        Self { kbits }
    }

    pub fn precision_bits(&self) -> (r: u32)
        ensures
            r == self.kbits,
    {
        self.kbits
    }

    /// The IEEE-754 bit pattern of the precision value `2^-kbits`.
    pub fn precision_f64bits(&self) -> (r: u64)
        requires
            self.wf(),
        ensures
            r == (1023 - self.kbits) as u64 * 0x10000000000000,
    {
        (1023 - self.kbits) as u64 * 0x10000000000000
    }

    /// Recovers a quantizer from the header's float bits; the value must be
    /// a supported power-of-two precision.
    pub fn from_f64bits(bits: u64) -> (r: Option<Self>)
        ensures
            r matches Some(q) ==> (q.wf() && bits == (1023 - q.k()) * 0x10000000000000),
            r is None ==> (bits % 0x10000000000000 != 0 || bits / 0x10000000000000 < 993 || bits
                / 0x10000000000000 > 1022),
    {
        if bits % 0x10000000000000 == 0 {
            let e = bits / 0x10000000000000;
            if 993 <= e && e <= 1022 {
                let k = (1023 - e) as u32;
                proof {
                    assert(bits == (1023 - k) as u64 * 0x10000000000000);
                }
                Some(Self { kbits: k })
            } else {
                None
            }
        } else {
            None
        }
    }

    /// Whether the bucket named by `w` still fits an i64.
    pub fn bucket_in_range_exec(&self, w: i64) -> (r: bool)
        requires
            self.wf(),
            w != i64::MIN,
        ensures
            r == llq_bucket_in_range(self.k(), w as int),
    {
        let a: i64 = if w < 0 {
            -w
        } else {
            w
        };
        let t = Self::pow2_exec(self.kbits);
        if a < t {
            true
        } else {
            (a - t) / t <= (62 - self.kbits) as i64
        }
    }

    fn pow2_exec(j: u32) -> (r: i64)
        requires
            j <= 62,
        ensures
            r == p2(j as nat),
            r >= 1,
    {
        let mut r: i64 = 1;
        let mut i: u32 = 0;
        proof {
            lemma_p2_monotone(0, 62);
        }
        while i < j
            invariant
                i <= j <= 62,
                r == p2(i as nat),
                1 <= r,
                r <= p2(62),
            decreases j - i,
        {
            proof {
                lemma_p2_monotone((i + 1) as nat, 62);
                lemma_p2_62();
            }
            r = r * 2;
            i = i + 1;
        }
        r
    }

    /// Quantizes `v`; the result names the bucket that holds `v`.
    pub fn encode(&self, v: i64) -> (r: i64)
        requires
            self.wf(),
            v != i64::MIN,
        ensures
            r == llq_encode(self.k(), v as int),
    {
        if v < 0 {
            let m = self.encode_mag(-v);
            -m
        } else {
            self.encode_mag(v)
        }
    }

    fn encode_mag(&self, a: i64) -> (r: i64)
        requires
            self.wf(),
            a >= 0,
        ensures
            r == llq_encode_mag(self.k(), a as int),
            0 <= r <= a,
    {
        let t = Self::pow2_exec(self.kbits);
        proof {
            lemma_p2_pos(self.k());
        }
        if a < t {
            a
        } else {
            let mut j: u32 = 0;
            let mut base: i64 = t;
            while a / 2 >= base
                invariant
                    self.wf(),
                    base == t * p2(j as nat),
                    t == p2(self.k()),
                    t >= 2,
                    1 <= base <= a,
                    a >= t,
                    j <= 62,
                decreases a - base,
            {
                proof {
                    lemma_p2_pos(j as nat);
                    assert(a / 2 * 2 <= a) by (nonlinear_arith);
                    assert(base * 2 == t * p2((j + 1) as nat)) by (nonlinear_arith)
                        requires
                            p2((j + 1) as nat) == 2 * p2(j as nat),
                            base == t * p2(j as nat),
                    ;
                    assert(j < 62) by {
                        lemma_p2_pos(self.k());
                        if j >= 62 {
                            lemma_p2_62();
                            lemma_p2_monotone(62, j as nat);
                            assert(t * p2(j as nat) >= 2 * 0x4000000000000000) by (nonlinear_arith)
                                requires
                                    t >= 2,
                                    p2(j as nat) >= 0x4000000000000000,
                            ;
                        }
                    }
                }
                base = base * 2;
                j = j + 1;
            }
            proof {
                assert(a < 2 * base) by (nonlinear_arith)
                    requires
                        a / 2 < base,
                        a / 2 * 2 >= a - 1,
                ;
                assert(2 * base == t * p2((j + 1) as nat)) by (nonlinear_arith)
                    requires
                        p2((j + 1) as nat) == 2 * p2(j as nat),
                        base == t * p2(j as nat),
                ;
                lemma_block_of_exact(t as int, a as int, j as nat);
            }
            let bj = Self::pow2_exec(j);
            let q = (a - base) / bj;
            proof {
                assert(q < t && 0 <= q && q <= a - base) by (nonlinear_arith)
                    requires
                        a < 2 * (t * bj),
                        base == t * bj,
                        q == (a as int - base as int) / (bj as int),
                        a >= base,
                        bj >= 1,
                        t >= 1,
                ;
                lemma_p2_at_least_linear(j as nat);
                assert(t * (1 + j as int) <= t * p2(j as nat)) by (nonlinear_arith)
                    requires
                        t >= 1,
                        1 + j as int <= p2(j as nat),
                ;
                assert(t + t * (j as int) == t * (1 + j as int)) by (nonlinear_arith);
                assert(t + t * (j as int) + q <= a);
            }
            t + t * (j as i64) + q
        }
    }

    /// Returns the lower end of the bucket named by `e`.
    pub fn decode(&self, e: i64) -> (r: i64)
        requires
            self.wf(),
            e != i64::MIN,
            llq_bucket_in_range(self.k(), e as int),
        ensures
            r == llq_decode(self.k(), e as int),
    {
        if e < 0 {
            let m = self.decode_mag(-e);
            -m
        } else {
            self.decode_mag(e)
        }
    }

    fn decode_mag(&self, e: i64) -> (r: i64)
        requires
            self.wf(),
            e >= 0,
            llq_bucket_in_range(self.k(), e as int),
        ensures
            r == llq_decode_mag(self.k(), e as int),
            r >= 0,
    {
        let t = Self::pow2_exec(self.kbits);
        proof {
            lemma_p2_pos(self.k());
        }
        if e < t {
            e
        } else {
            let j = ((e - t) / t) as u32;
            let r = (e - t) % t;
            let bj = Self::pow2_exec(j);
            proof {
                assert((e as int - t as int) / (t as int) <= 62 - self.k());
                assert(t * bj + r * bj <= i64::MAX) by {
                    lemma_decode_bound(self.k(), j as nat, r as int);
                }
                assert(r >= 0 && r < t);
                lemma_p2_pos(j as nat);
                assert(t * bj >= 0 && r * bj >= 0) by (nonlinear_arith)
                    requires
                        t >= 1,
                        bj >= 1,
                        r >= 0,
                ;
            }
            t * bj + r * bj
        }
    }
}

/// An encoded magnitude small enough that its bucket still fits an i64.
pub open spec fn llq_bucket_in_range(k: nat, e: int) -> bool {
    let a = if e < 0 {
        -e
    } else {
        e
    };
    a < p2(k) || (a - p2(k)) / p2(k) <= 62 - k
}

pub proof fn lemma_p2_at_least_linear(j: nat)
    ensures
        j + 1 <= p2(j),
    decreases j,
{
    if j > 0 {
        lemma_p2_at_least_linear((j - 1) as nat);
    }
}

proof fn lemma_decode_bound(k: nat, j: nat, r: int)
    requires
        1 <= k <= 30,
        j + k <= 62,
        0 <= r < p2(k),
    ensures
        p2(k) * p2(j) + r * p2(j) <= i64::MAX,
{
    lemma_p2_pos(j);
    lemma_p2_pos(k);
    lemma_p2_adds(k, j);
    lemma_p2_monotone(k + j, 62);
    lemma_p2_62();
    assert(p2(k) * p2(j) <= 0x4000000000000000);
    assert(r * p2(j) <= (p2(k) - 1) * p2(j)) by (nonlinear_arith)
        requires
            r < p2(k),
            p2(j) >= 1,
    ;
    assert((p2(k) - 1) * p2(j) == p2(k) * p2(j) - p2(j)) by (nonlinear_arith);
}

proof fn lemma_p2_adds(m: nat, n: nat)
    ensures
        p2(m + n) == p2(m) * p2(n),
    decreases m,
{
    if m == 0 {
    } else {
        lemma_p2_adds((m - 1) as nat, n);
        assert(p2(m + n) == 2 * p2((m - 1 + n) as nat));
        assert(2 * (p2((m - 1) as nat) * p2(n)) == (2 * p2((m - 1) as nat)) * p2(n)) by (nonlinear_arith);
    }
}

} // verus!
