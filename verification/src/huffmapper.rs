//! Mapping residuals onto a compact symbol alphabet: a symmetric dense
//! region around zero, then blocks whose width doubles, each symbol carrying
//! a few extra raw bits; one reserved symbol carries raw values whole.
//!
//! The symbol weights fed to the entropy coder come from a weight function
//! that the caller supplies; they shape the code but not its correctness.

use vstd::prelude::*;
use crate::corrector::{DiffValue, ValueType};

verus! {

/// A hand-tuned weight curve: `compute_fn` fills it to a size, `get_range`
/// sums it over a span.
pub trait WeightFn {
    fn compute_fn(&mut self, size: usize);

    fn get_range(&self, from: usize, to: usize) -> u64;
}

/// One contiguous run of equally-wide buckets in the symbol map.
#[derive(Debug, Clone, Copy, PartialEq, Eq, Structural)]
pub struct HuffmanMapSBlock {
    pub start_quantized: i64,
    pub start_huffman: i64,
    pub end_quantized: i64,
    pub end_huffman: i64,
    pub blocks: i64,
    pub block_size: i64,
    pub block_size_bits: usize,
}

/// The block's ranges line up: as many symbols as buckets, each bucket
/// `2^block_size_bits` wide, and the zero-adjacent block is dense.
pub open spec fn wf_block(b: HuffmanMapSBlock) -> bool {
    &&& 0 <= b.start_quantized < b.end_quantized <= 0x10000000000
    &&& 0 <= b.start_huffman < b.end_huffman <= 0x10000000000
    &&& b.block_size_bits <= 30
    &&& b.block_size == crate::quantize::p2(b.block_size_bits as nat)
    &&& b.blocks >= 1
    &&& b.end_quantized == b.start_quantized + b.blocks * b.block_size
    &&& b.end_huffman == b.start_huffman + b.blocks
    &&& (b.start_huffman == 0 <==> b.start_quantized == 0)
    &&& (b.start_quantized == 0 ==> b.block_size == 1)
}

/// The reserved symbol for raw values.
#[derive(Debug, Clone, Copy, PartialEq, Eq, Structural)]
pub struct HuffmanMapSRaw {
    /// The symbol naming raw input.
    pub key: i64,
    /// How many raw bits follow it.
    pub bits: usize,
    /// Its weight relative to the curve.
    pub freq: u64,
}

impl HuffmanMapSRaw {
    pub fn new(raw_key: i64, raw_bits: usize, raw_freq: u64) -> (r: Self)
        ensures
            r == (HuffmanMapSRaw { key: raw_key, bits: raw_bits, freq: raw_freq }),
    {
        Self { key: raw_key, bits: raw_bits, freq: raw_freq }
    }
}

/// Where a key came from.
#[derive(Debug, Clone, Copy, PartialEq, Eq, Structural)]
pub enum HKeyMetadata {
    Block(HuffmanMapSBlock),
    Raw(HuffmanMapSRaw),
    Empty,
}

impl Default for HKeyMetadata {
    fn default() -> (r: Self)
        ensures
            r == HKeyMetadata::Empty,
    {
        Self::Empty
    }
}

/// A mapped value: the symbol, and the extra bits that complete it.
#[derive(Debug, Clone, Copy, PartialEq, Eq, Structural)]
pub struct HuffmanKey {
    pub qtype: ValueType,
    pub key: i64,
    pub extra_bits: usize,
    pub extra_data: i64,
    pub metadata: HKeyMetadata,
}

/// A symbol read back from the stream, before its extra bits.
#[derive(Debug, Clone, Copy, PartialEq, Eq, Structural)]
pub struct HuffmanPartialKey {
    pub qtype: ValueType,
    pub key: i64,
    pub extra_bits: usize,
    pub metadata: HKeyMetadata,
}

impl HuffmanPartialKey {
    pub fn add_extra_data(&self, extra_data: i64) -> (r: HuffmanKey)
        ensures
            r == (HuffmanKey {
                qtype: self.qtype,
                key: self.key,
                extra_bits: self.extra_bits,
                extra_data,
                metadata: HKeyMetadata::Empty,
            }),
    {
        HuffmanKey {
            qtype: self.qtype,
            key: self.key,
            extra_bits: self.extra_bits,
            extra_data,
            metadata: HKeyMetadata::Empty,
        }
    }
}

/// The key a block gives a residual: bucket number as the symbol, offset in
/// the bucket as the extra bits, the sign carried on the symbol.
pub open spec fn block_to_hkey(b: HuffmanMapSBlock, vq: int) -> HuffmanKey {
    let sign: int = if vq < 0 {
        -1
    } else if vq > 0 {
        1
    } else {
        0
    };
    let a = if vq < 0 {
        -vq
    } else {
        vq
    };
    let v = a - b.start_quantized;
    let vb = v / (b.block_size as int);
    let extra = v % (b.block_size as int);
    HuffmanKey {
        qtype: ValueType::Corrected,
        key: ((vb + b.start_huffman) * sign) as i64,
        extra_bits: b.block_size_bits,
        extra_data: extra as i64,
        metadata: HKeyMetadata::Block(b),
    }
}

/// The residual a block reads back from a key.
pub open spec fn block_from_hkey(b: HuffmanMapSBlock, hk: HuffmanKey) -> int {
    let sign: int = if hk.key < 0 {
        -1
    } else if hk.key > 0 {
        1
    } else {
        0
    };
    let key = if hk.key < 0 {
        -hk.key as int
    } else {
        hk.key as int
    };
    let vb = key - b.start_huffman;
    (vb * (b.block_size as int) + hk.extra_data + b.start_quantized) * sign
}

impl HuffmanMapSBlock {
    /// Maps a residual whose magnitude this block covers.
    pub fn tr_corrected2hk(&self, vq: i64) -> (r: HuffmanKey)
        requires
            wf_block(*self),
            self.start_quantized <= (if vq < 0 {
                -(vq as int)
            } else {
                vq as int
            }) < self.end_quantized,
        ensures
            r == block_to_hkey(*self, vq as int),
            r.qtype == ValueType::Corrected,
            0 <= r.extra_data < self.block_size,
    {
        proof {
            crate::quantize::lemma_p2_pos(self.block_size_bits as nat);
        }
        let sign: i64 = if vq < 0 {
            -1
        } else if vq > 0 {
            1
        } else {
            0
        };
        let a: i64 = if vq < 0 {
            -vq
        } else {
            vq
        };
        let v = a - self.start_quantized;
        let vb = v / self.block_size;
        let extra = v % self.block_size;
        let huffkey = vb + self.start_huffman;
        proof {
            assert(vb <= v) by (nonlinear_arith)
                requires
                    v >= 0,
                    self.block_size >= 1,
                    vb == v as int / self.block_size as int,
            ;
            assert(0 <= extra < self.block_size) by (nonlinear_arith)
                requires
                    v >= 0,
                    self.block_size >= 1,
                    extra == v as int % self.block_size as int,
            ;
        }
        HuffmanKey {
            qtype: ValueType::Corrected,
            key: huffkey * sign,
            extra_bits: self.block_size_bits,
            extra_data: extra,
            metadata: HKeyMetadata::Block(*self),
        }
    }

    /// Reads a residual back from a key whose symbol this block covers.
    pub fn tr_hk2corrected(&self, hk: HuffmanKey) -> (r: i64)
        requires
            wf_block(*self),
            hk.qtype == ValueType::Corrected,
            self.start_huffman <= (if hk.key < 0 {
                -(hk.key as int)
            } else {
                hk.key as int
            }) < self.end_huffman,
            0 <= hk.extra_data < self.block_size,
        ensures
            r == block_from_hkey(*self, hk),
    {
        proof {
            crate::quantize::lemma_p2_pos(self.block_size_bits as nat);
        }
        let sign: i64 = if hk.key < 0 {
            -1
        } else if hk.key > 0 {
            1
        } else {
            0
        };
        let key: i64 = if hk.key < 0 {
            -hk.key
        } else {
            hk.key
        };
        let vb = key - self.start_huffman;
        proof {
            assert(self.blocks * self.block_size == self.end_quantized - self.start_quantized);
            assert(self.blocks * self.block_size <= 0x10000000000);
            assert(self.block_size <= self.blocks * self.block_size) by (nonlinear_arith)
                requires
                    self.blocks >= 1,
                    self.block_size >= 1,
            ;
            assert(0 <= vb * self.block_size <= (self.end_huffman - self.start_huffman)
                * self.block_size) by (nonlinear_arith)
                requires
                    0 <= vb <= self.end_huffman - self.start_huffman,
                    self.block_size >= 1,
            ;
            assert((self.end_huffman - self.start_huffman) * self.block_size == self.blocks
                * self.block_size) by (nonlinear_arith)
                requires
                    self.end_huffman - self.start_huffman == self.blocks,
            ;
        }
        let v = vb * self.block_size + hk.extra_data;
        let w = v + self.start_quantized;
        proof {
            assert(-w <= w * sign <= w) by (nonlinear_arith)
                requires
                    -1 <= sign <= 1,
                    w >= 0,
            ;
        }
        w * sign
    }
}

/// Reading a mapped residual back gives the residual: the block mapping is
/// a bijection between its magnitude range and its symbol range.
pub proof fn lemma_block_round_trip(b: HuffmanMapSBlock, vq: int)
    requires
        wf_block(b),
        b.start_quantized <= (if vq < 0 {
            -vq
        } else {
            vq
        }) < b.end_quantized,
    ensures
        block_from_hkey(b, block_to_hkey(b, vq)) == vq,
{
    crate::quantize::lemma_p2_pos(b.block_size_bits as nat);
    let a = if vq < 0 {
        -vq
    } else {
        vq
    };
    let v = a - b.start_quantized;
    let vb = v / (b.block_size as int);
    let extra = v % (b.block_size as int);
    assert(v == vb * b.block_size + extra && 0 <= extra < b.block_size && 0 <= vb)
        by (nonlinear_arith)
        requires
            v >= 0,
            b.block_size >= 1,
            vb == v / (b.block_size as int),
            extra == v % (b.block_size as int),
    ;
    assert(vb < b.blocks && vb <= v) by (nonlinear_arith)
        requires
            v < b.blocks * b.block_size,
            v == vb * b.block_size + extra,
            0 <= extra < b.block_size,
            b.block_size >= 1,
            0 <= vb,
    ;
    assert(0 <= vb + b.start_huffman < 0x20000000000);
    assert(b.block_size <= b.blocks * b.block_size) by (nonlinear_arith)
        requires
            b.blocks >= 1,
            b.block_size >= 1,
    ;
    assert(b.block_size <= 0x10000000000);
    let hk = block_to_hkey(b, vq);
    let signv: int = if vq < 0 {
        -1
    } else if vq > 0 {
        1
    } else {
        0
    };
    assert(-0x20000000000 < (vb + b.start_huffman) * signv < 0x20000000000) by (nonlinear_arith)
        requires
            0 <= vb + b.start_huffman < 0x20000000000,
            -1 <= signv <= 1,
    ;
    assert(hk.key == (vb + b.start_huffman) * signv);
    assert(hk.extra_data == extra);
    if vq == 0 {
        assert(b.start_quantized == 0 && b.block_size == 1);
        assert(extra == 0 && vb == 0) by (nonlinear_arith)
            requires
                v == 0,
                v == vb * b.block_size + extra,
                0 <= extra < b.block_size,
                b.block_size == 1,
                0 <= vb,
        ;
        assert(hk.key == 0);
        assert(block_from_hkey(b, hk) == 0);
    } else {
        if hk.key == 0 {
            assert((vb + b.start_huffman) * signv == 0);
            assert(vb + b.start_huffman == 0) by (nonlinear_arith)
                requires
                    (vb + b.start_huffman) * signv == 0,
                    signv == 1 || signv == -1,
                    0 <= vb + b.start_huffman,
            ;
            assert(b.start_huffman == 0 && vb == 0);
            assert(b.start_quantized == 0 && b.block_size == 1);
            assert(v == extra && extra == 0) by (nonlinear_arith)
                requires
                    v == vb * b.block_size + extra,
                    vb == 0,
                    0 <= extra < b.block_size,
                    b.block_size == 1,
            ;
            assert(a == 0);
            assert(false);
        }
        if vq > 0 {
            assert(hk.key == vb + b.start_huffman) by (nonlinear_arith)
                requires
                    hk.key == (vb + b.start_huffman) * signv,
                    signv == 1,
            ;
            assert(hk.key > 0);
            assert(block_from_hkey(b, hk) == (vb * b.block_size + extra + b.start_quantized) * 1)
                by (nonlinear_arith)
                requires
                    block_from_hkey(b, hk) == ((hk.key - b.start_huffman) * b.block_size
                        + hk.extra_data + b.start_quantized) * 1,
                    hk.key == vb + b.start_huffman,
                    hk.extra_data == extra,
            ;
            assert((vb * b.block_size + extra + b.start_quantized) * 1 == v + b.start_quantized);
            assert(block_from_hkey(b, hk) == vq);
        } else {
            assert(hk.key == -(vb + b.start_huffman)) by (nonlinear_arith)
                requires
                    hk.key == (vb + b.start_huffman) * signv,
                    signv == -1,
            ;
            assert(hk.key < 0);
            assert(-hk.key == vb + b.start_huffman);
            assert(block_from_hkey(b, hk) == (vb * b.block_size + extra + b.start_quantized) * -1)
                by (nonlinear_arith)
                requires
                    block_from_hkey(b, hk) == ((-hk.key - b.start_huffman) * b.block_size
                        + hk.extra_data + b.start_quantized) * -1,
                    -hk.key == vb + b.start_huffman,
                    hk.extra_data == extra,
            ;
            assert((vb * b.block_size + extra + b.start_quantized) * -1 == -(v
                + b.start_quantized));
            assert(block_from_hkey(b, hk) == vq);
        }
    }

}

/// The weight table holds an entry for the symbol.
pub open spec fn map_has_key(m: Seq<(i64, u64)>, k: int) -> bool {
    exists|j: int| 0 <= j < m.len() && (#[trigger] m[j]).0 == k
}

/// The symbol map: the configured blocks, the reserved raw symbol, and the
/// weight table for the entropy coder.
pub struct HuffmanMapS<T: WeightFn> {
    pub f: Option<T>,
    pub map: Vec<(i64, u64)>,
    pub raw_start: i64,
    pub raw: Vec<HuffmanMapSRaw>,
    pub blocks: Vec<HuffmanMapSBlock>,
    pub symmetric: bool,
}

/// The blocks tile both ranges contiguously from zero.
pub open spec fn wf_maps<T: WeightFn>(m: HuffmanMapS<T>) -> bool {
    &&& forall|i: int| 0 <= i < m.blocks@.len() ==> wf_block(#[trigger] m.blocks@[i])
    &&& forall|i: int|
        0 < i < m.blocks@.len() ==> (#[trigger] m.blocks@[i]).start_quantized == m.blocks@[i
            - 1].end_quantized && m.blocks@[i].start_huffman == m.blocks@[i - 1].end_huffman
    &&& (m.blocks@.len() > 0 ==> m.blocks@[0].start_quantized == 0 && m.blocks@[0].start_huffman
        == 0)
    &&& m.raw@.len() == 1
    &&& m.raw@[0].key == 1000012
    &&& m.raw@[0].bits == 12
    &&& m.raw_start == 1000000
    &&& (forall|i: int| 0 <= i < m.blocks@.len() ==> (#[trigger] m.blocks@[i]).end_huffman
        < 1000000)
}

impl<T: WeightFn> HuffmanMapS<T> {
    /// A signed map over the standard block layout.
    pub fn new(f: T) -> (r: Self)
        ensures
            wf_maps(r),
            r.symmetric,
    {
        let mut m = Self {
            f: Some(f),
            map: Vec::new(),
            raw_start: 0,
            raw: Vec::new(),
            blocks: Vec::new(),
            symmetric: true,
        };
        m.update_from_fn();
        m
    }

    /// An unsigned map over the same layout.
    pub fn new_unsigned(f: T) -> (r: Self)
        ensures
            wf_maps(r),
            !r.symmetric,
    {
        let mut m = Self {
            f: Some(f),
            map: Vec::new(),
            raw_start: 0,
            raw: Vec::new(),
            blocks: Vec::new(),
            symmetric: false,
        };
        m.update_from_fn();
        m
    }

    /// Rebuilds the layout: a dense region around zero, then buckets of 1,
    /// 2, 4, 8, 16 and 32, and the reserved 12-bit raw symbol.
    pub fn update_from_fn(&mut self)
        requires
            old(self).f is Some,
        ensures
            wf_maps(*final(self)),
            final(self).symmetric == old(self).symmetric,
            map_has_key(final(self).map@, 1000012),
    {
        if let Some(f) = self.f.as_mut() {
            f.compute_fn(256000);
        }
        self.raw_start = 1000000;
        self.raw = Vec::new();
        self.raw.push(HuffmanMapSRaw::new(1000012, 12, 32));
        self.blocks = Vec::new();
        self.map = Vec::new();
        let mut cur: (i64, i64) = (0, 0);
        cur = self.update_from_fn_range(cur, 1, 0);
        cur = self.update_from_fn_range(cur, 64, 0);
        cur = self.update_from_fn_range(cur, 64, 1);
        cur = self.update_from_fn_range(cur, 64, 2);
        cur = self.update_from_fn_range(cur, 128, 3);
        cur = self.update_from_fn_range(cur, 128, 4);
        cur = self.update_from_fn_range(cur, 128, 5);
        let ghost pre = self.map@;
        let r0 = self.raw[0];
        self.map.push((r0.key, r0.freq));
        proof {
            assert(self.map@[pre.len() as int].0 == 1000012);
        }
    }

    /// Adds one run of `blocks` buckets of width `2^bsize_bits`, weighting
    /// each bucket by the curve over its span.
    pub fn update_from_fn_range(&mut self, start: (i64, i64), blocks: i64, bsize_bits: usize)
        -> (r: (i64, i64))
        requires
            old(self).f is Some,
            0 <= start.0 <= 0x1000000,
            0 <= start.1 <= 0x1000000,
            1 <= blocks <= 1024,
            bsize_bits <= 8,
            (start.1 == 0 <==> start.0 == 0),
            (start.0 == 0 ==> bsize_bits == 0),
            forall|i: int| 0 <= i < old(self).blocks@.len() ==> wf_block(
                #[trigger] old(self).blocks@[i],
            ),
        ensures
            final(self).blocks@ == old(self).blocks@.push(
                HuffmanMapSBlock {
                    start_quantized: start.0,
                    start_huffman: start.1,
                    end_quantized: r.0,
                    end_huffman: r.1,
                    blocks,
                    block_size: crate::quantize::p2(bsize_bits as nat) as i64,
                    block_size_bits: bsize_bits,
                },
            ),
            r.0 == start.0 + blocks * crate::quantize::p2(bsize_bits as nat),
            r.1 == start.1 + blocks,
            final(self).f is Some,
            final(self).raw@ == old(self).raw@,
            final(self).raw_start == old(self).raw_start,
            final(self).symmetric == old(self).symmetric,
            final(self).map@.take(old(self).map@.len() as int) == old(self).map@,
            forall|b: int| 0 <= b < blocks ==> #[trigger] map_has_key(final(self).map@, start.1 + b),
            old(self).symmetric ==> forall|b: int|
                0 <= b < blocks && start.1 + b > 0 ==> #[trigger] map_has_key(
                    final(self).map@,
                    -(start.1 + b),
                ),
    {
        let bsize = pow2_i64(bsize_bits);
        proof {
            crate::quantize::lemma_p2_pos(bsize_bits as nat);
            crate::quantize::lemma_p2_monotone(bsize_bits as nat, 8);
            crate::quantize::lemma_p2_8();
            assert(blocks * bsize <= 1024 * 256) by (nonlinear_arith)
                requires
                    1 <= blocks <= 1024,
                    1 <= bsize <= 256,
            ;
        }
        let mut bnum: i64 = 0;
        while bnum < blocks
            invariant
                0 <= bnum <= blocks,
                blocks <= 1024,
                1 <= bsize <= 256,
                0 <= start.0 <= 0x1000000,
                0 <= start.1 <= 0x1000000,
                self.f is Some,
                self.blocks@ == old(self).blocks@,
                self.raw@ == old(self).raw@,
                self.raw_start == old(self).raw_start,
                self.symmetric == old(self).symmetric,
                self.map@.take(old(self).map@.len() as int) == old(self).map@,
                self.map@.len() >= old(self).map@.len(),
                forall|b: int| 0 <= b < bnum ==> #[trigger] map_has_key(self.map@, start.1 + b),
                self.symmetric ==> forall|b: int|
                    0 <= b < bnum && start.1 + b > 0 ==> #[trigger] map_has_key(
                        self.map@,
                        -(start.1 + b),
                    ),
            decreases blocks - bnum,
        {
            proof {
                assert(bnum * bsize <= 1024 * 256 && bnum * bsize >= 0) by (nonlinear_arith)
                    requires
                        0 <= bnum <= 1024,
                        1 <= bsize <= 256,
                ;
            }
            let from = start.0 + bnum * bsize;
            let to = from + bsize;
            let k: i64 = start.1 + bnum;
            let v = match self.f.as_ref() {
                Some(f) => f.get_range(from as usize, to as usize),
                None => 0,
            };
            let ghost pre = self.map@;
            self.map.push((k, v));
            if k > 0 && self.symmetric {
                self.map.push((-k, v));
            }
            proof {
                assert(self.map@[pre.len() as int].0 == k);
                assert(map_has_key(self.map@, k as int));
                if k > 0 && self.symmetric {
                    assert(self.map@[pre.len() as int + 1].0 == -k);
                    assert(map_has_key(self.map@, -k as int));
                }
                assert(self.map@.take(old(self).map@.len() as int) =~= old(self).map@);
                assert forall|b: int| 0 <= b < bnum + 1 implies #[trigger] map_has_key(
                    self.map@,
                    start.1 + b,
                ) by {
                    if b < bnum {
                        assert(map_has_key(pre, start.1 + b));
                        let j = choose|j: int|
                            0 <= j < pre.len() && (#[trigger] pre[j]).0 == start.1 + b;
                        assert(self.map@[j] == pre[j]);
                        assert(self.map@[j].0 == start.1 + b);
                    }
                }
                if self.symmetric {
                    assert forall|b: int|
                        0 <= b < bnum + 1 && start.1 + b > 0 implies #[trigger] map_has_key(
                        self.map@,
                        -(start.1 + b),
                    ) by {
                        if b < bnum {
                            assert(map_has_key(pre, -(start.1 + b)));
                            let j = choose|j: int|
                                0 <= j < pre.len() && (#[trigger] pre[j]).0 == -(start.1 + b);
                            assert(self.map@[j] == pre[j]);
                            assert(self.map@[j].0 == -(start.1 + b));
                        }
                    }
                }
            }
            bnum += 1;
        }
        proof {
            assert(blocks * bsize >= 1) by (nonlinear_arith)
                requires
                    blocks >= 1,
                    bsize >= 1,
            ;
        }
        let end_quantized = start.0 + blocks * bsize;
        let end_huffman = start.1 + blocks;
        let blck = HuffmanMapSBlock {
            start_quantized: start.0,
            start_huffman: start.1,
            end_quantized,
            end_huffman,
            blocks,
            block_size: bsize,
            block_size_bits: bsize_bits,
        };
        self.blocks.push(blck);
        (end_quantized, end_huffman)
    }

    /// The weight table for the entropy coder.
    pub fn get_huffmap(&self) -> (r: Vec<(i64, u64)>)
        ensures
            r@ == self.map@,
    {
        let mut out: Vec<(i64, u64)> = Vec::new();
        let mut i: usize = 0;
        while i < self.map.len()
            invariant
                i <= self.map@.len(),
                out@ == self.map@.take(i as int),
            decreases self.map@.len() - i,
        {
            out.push(self.map[i]);
            proof {
                assert(out@ =~= self.map@.take(i + 1));
            }
            i += 1;
        }
        proof {
            assert(self.map@.take(self.map@.len() as int) =~= self.map@);
        }
        out
    }

    /// The first block whose magnitude range holds `qval`.
    pub fn get_qval_block(&self, qval: i64) -> (r: Option<HuffmanMapSBlock>)
        requires
            qval != i64::MIN,
        ensures
            r matches Some(b) ==> (exists|i: int|
                0 <= i < self.blocks@.len() && #[trigger] self.blocks@[i] == b
                    && b.start_quantized <= (if qval < 0 {
                    -(qval as int)
                } else {
                    qval as int
                }) < b.end_quantized),
            r is None ==> forall|i: int|
                0 <= i < self.blocks@.len() ==> !((#[trigger] self.blocks@[i]).start_quantized <= (
                if qval < 0 {
                    -(qval as int)
                } else {
                    qval as int
                }) && (if qval < 0 {
                    -(qval as int)
                } else {
                    qval as int
                }) < self.blocks@[i].end_quantized),
    {
        let a: i64 = if qval < 0 {
            -qval
        } else {
            qval
        };
        let mut i: usize = 0;
        while i < self.blocks.len()
            invariant
                i <= self.blocks@.len(),
                a == if qval < 0 {
                    -(qval as int)
                } else {
                    qval as int
                },
                forall|j: int|
                    0 <= j < i ==> !((#[trigger] self.blocks@[j]).start_quantized <= a
                        && a < self.blocks@[j].end_quantized),
            decreases self.blocks@.len() - i,
        {
            let b = self.blocks[i];
            if b.start_quantized <= a && a < b.end_quantized {
                return Some(b);
            }
            i += 1;
        }
        None
    }

    /// The first block whose symbol range holds `hkey`.
    pub fn get_hkey_block(&self, hkey: i64) -> (r: Option<HuffmanMapSBlock>)
        requires
            hkey != i64::MIN,
        ensures
            r matches Some(b) ==> (exists|i: int|
                0 <= i < self.blocks@.len() && #[trigger] self.blocks@[i] == b && b.start_huffman
                    <= (if hkey < 0 {
                    -(hkey as int)
                } else {
                    hkey as int
                }) < b.end_huffman),
            r is None ==> forall|i: int|
                0 <= i < self.blocks@.len() ==> !((#[trigger] self.blocks@[i]).start_huffman <= (
                if hkey < 0 {
                    -(hkey as int)
                } else {
                    hkey as int
                }) && (if hkey < 0 {
                    -(hkey as int)
                } else {
                    hkey as int
                }) < self.blocks@[i].end_huffman),
    {
        let a: i64 = if hkey < 0 {
            -hkey
        } else {
            hkey
        };
        let mut i: usize = 0;
        while i < self.blocks.len()
            invariant
                i <= self.blocks@.len(),
                a == if hkey < 0 {
                    -(hkey as int)
                } else {
                    hkey as int
                },
                forall|j: int|
                    0 <= j < i ==> !((#[trigger] self.blocks@[j]).start_huffman <= a
                        && a < self.blocks@[j].end_huffman),
            decreases self.blocks@.len() - i,
        {
            let b = self.blocks[i];
            if b.start_huffman <= a && a < b.end_huffman {
                return Some(b);
            }
            i += 1;
        }
        None
    }

    /// The raw descriptor behind a raw symbol.
    pub fn get_raw_block(&self, qval: i64) -> (r: Option<HuffmanMapSRaw>)
        ensures
            r matches Some(b) ==> (exists|i: int|
                0 <= i < self.raw@.len() && #[trigger] self.raw@[i] == b && b.key == qval),
            r is None ==> forall|i: int|
                0 <= i < self.raw@.len() ==> (#[trigger] self.raw@[i]).key != qval,
    {
        let mut i: usize = 0;
        while i < self.raw.len()
            invariant
                i <= self.raw@.len(),
                forall|j: int| 0 <= j < i ==> (#[trigger] self.raw@[j]).key != qval,
            decreases self.raw@.len() - i,
        {
            let b = self.raw[i];
            if b.key == qval {
                return Some(b);
            }
            i += 1;
        }
        None
    }

    /// The partial key for a symbol read from the stream: raw symbols sit at
    /// or above the raw threshold, everything else is a residual.
    pub fn get_partial_hkey(&self, hkey: i64) -> (r: Option<HuffmanPartialKey>)
        requires
            wf_maps(*self),
            hkey != i64::MIN,
        ensures
            r matches Some(pk) ==> pk.key == hkey && (pk.qtype == ValueType::Raw <==> hkey
                >= self.raw_start),
            hkey == 1000012 ==> r is Some,
            (hkey < self.raw_start && exists|i: int|
                0 <= i < self.blocks@.len() && (#[trigger] self.blocks@[i]).start_huffman <= (
                if hkey < 0 {
                    -(hkey as int)
                } else {
                    hkey as int
                }) && (if hkey < 0 {
                    -(hkey as int)
                } else {
                    hkey as int
                }) < self.blocks@[i].end_huffman) ==> r is Some,
    {
        if hkey >= self.raw_start {
            let rb = match self.get_raw_block(hkey) {
                Some(rb) => rb,
                None => {
                    return None;
                },
            };
            Some(
                HuffmanPartialKey {
                    qtype: ValueType::Raw,
                    key: hkey,
                    extra_bits: rb.bits,
                    metadata: HKeyMetadata::Raw(rb),
                },
            )
        } else {
            let blk = match self.get_hkey_block(hkey) {
                Some(b) => b,
                None => {
                    return None;
                },
            };
            Some(
                HuffmanPartialKey {
                    qtype: ValueType::Corrected,
                    key: hkey,
                    extra_bits: blk.block_size_bits,
                    metadata: HKeyMetadata::Block(blk),
                },
            )
        }
    }

    /// Maps a value to its symbol and extra bits: raw values ride the
    /// reserved symbol, residuals go through their block.
    pub fn to_hkey(&self, diffvalue: DiffValue) -> (r: Option<HuffmanKey>)
        requires
            wf_maps(*self),
            diffvalue.value != i64::MIN,
        ensures
            r matches Some(hk) ==> ({
                &&& hk.qtype == diffvalue.qtype
                &&& (diffvalue.qtype == ValueType::Raw ==> hk.key == self.raw@[0].key
                    && hk.extra_data == diffvalue.value)
                &&& (diffvalue.qtype == ValueType::Corrected ==> exists|i: int|
                    0 <= i < self.blocks@.len() && hk == block_to_hkey(
                        #[trigger] self.blocks@[i],
                        diffvalue.value as int,
                    ) && self.blocks@[i].start_quantized <= (if diffvalue.value < 0 {
                        -(diffvalue.value as int)
                    } else {
                        diffvalue.value as int
                    }) < self.blocks@[i].end_quantized)
            }),
            diffvalue.qtype == ValueType::Raw ==> r is Some,
            (diffvalue.qtype == ValueType::Corrected && exists|i: int|
                0 <= i < self.blocks@.len() && (#[trigger] self.blocks@[i]).start_quantized <= (
                if diffvalue.value < 0 {
                    -(diffvalue.value as int)
                } else {
                    diffvalue.value as int
                }) && (if diffvalue.value < 0 {
                    -(diffvalue.value as int)
                } else {
                    diffvalue.value as int
                }) < self.blocks@[i].end_quantized) ==> r is Some,
    {
        match diffvalue.qtype {
            ValueType::Raw => {
                let r0 = self.raw[0];
                Some(
                    HuffmanKey {
                        qtype: ValueType::Raw,
                        key: r0.key,
                        extra_bits: r0.bits,
                        extra_data: diffvalue.value,
                        metadata: HKeyMetadata::Raw(r0),
                    },
                )
            },
            ValueType::Corrected => {
                let hsblock = match self.get_qval_block(diffvalue.value) {
                    Some(b) => b,
                    None => {
                        return None;
                    },
                };
                proof {
                    let i = choose|i: int|
                        0 <= i < self.blocks@.len() && #[trigger] self.blocks@[i] == hsblock
                            && hsblock.start_quantized <= (if diffvalue.value < 0 {
                            -(diffvalue.value as int)
                        } else {
                            diffvalue.value as int
                        }) < hsblock.end_quantized;
                    assert(wf_block(self.blocks@[i]));
                }
                Some(hsblock.tr_corrected2hk(diffvalue.value))
            },
        }
    }

    /// Reads a value back from its symbol and extra bits.
    #[verifier::rlimit(100)]
    #[verifier::spinoff_prover]
    pub fn from_hkey(&self, hkey: HuffmanKey) -> (r: Option<DiffValue>)
        requires
            wf_maps(*self),
            hkey.key != i64::MIN,
        ensures
            r matches Some(dv) ==> ({
                &&& dv.qtype == hkey.qtype
                &&& (hkey.qtype == ValueType::Raw ==> dv.value == hkey.extra_data)
                &&& (hkey.qtype == ValueType::Corrected ==> exists|i: int|
                    0 <= i < self.blocks@.len() && dv.value == block_from_hkey(
                        #[trigger] self.blocks@[i],
                        hkey,
                    ) && self.blocks@[i].start_huffman <= (if hkey.key < 0 {
                        -(hkey.key as int)
                    } else {
                        hkey.key as int
                    }) < self.blocks@[i].end_huffman)
            }),
            hkey.qtype == ValueType::Raw ==> r is Some,
            (hkey.qtype == ValueType::Corrected && exists|i: int|
                0 <= i < self.blocks@.len() && (#[trigger] self.blocks@[i]).start_huffman <= (
                if hkey.key < 0 {
                    -(hkey.key as int)
                } else {
                    hkey.key as int
                }) && (if hkey.key < 0 {
                    -(hkey.key as int)
                } else {
                    hkey.key as int
                }) < self.blocks@[i].end_huffman && 0 <= hkey.extra_data
                < self.blocks@[i].block_size) ==> r is Some,
    {
        match hkey.qtype {
            ValueType::Raw => Some(DiffValue { qtype: ValueType::Raw, value: hkey.extra_data }),
            ValueType::Corrected => {
                let hsblock = match self.get_hkey_block(hkey.key) {
                    Some(b) => b,
                    None => {
                        return None;
                    },
                };
                if !(0 <= hkey.extra_data && hkey.extra_data < hsblock.block_size) {
                    proof {
                        let a = if hkey.key < 0 {
                            -(hkey.key as int)
                        } else {
                            hkey.key as int
                        };
                        let j = choose|j: int|
                            0 <= j < self.blocks@.len() && #[trigger] self.blocks@[j] == hsblock
                                && hsblock.start_huffman <= a < hsblock.end_huffman;
                        assert forall|i: int|
                            0 <= i < self.blocks@.len() && (#[trigger] self.blocks@[i]).start_huffman
                                <= a && a < self.blocks@[i].end_huffman implies !(0
                            <= hkey.extra_data && hkey.extra_data < self.blocks@[i].block_size) by {
                            lemma_covering_unique(self, a, i, j);
                        }
                    }
                    return None;
                }
                proof {
                    let i = choose|i: int|
                        0 <= i < self.blocks@.len() && #[trigger] self.blocks@[i] == hsblock
                            && hsblock.start_huffman <= (if hkey.key < 0 {
                            -(hkey.key as int)
                        } else {
                            hkey.key as int
                        }) < hsblock.end_huffman;
                    assert(wf_block(self.blocks@[i]));
                }
                Some(
                    DiffValue {
                        qtype: ValueType::Corrected,
                        value: hsblock.tr_hk2corrected(hkey),
                    },
                )
            },
        }
    }
}


/// Within a well-formed map the symbol ranges of distinct blocks do not
/// overlap: the blocks tile the range in order.
proof fn lemma_blocks_ordered<T: WeightFn>(m: &HuffmanMapS<T>, i: int, j: int)
    requires
        wf_maps(*m),
        0 <= i < j < m.blocks@.len(),
    ensures
        m.blocks@[i].end_huffman <= m.blocks@[j].start_huffman,
        m.blocks@[i].end_quantized <= m.blocks@[j].start_quantized,
    decreases j - i,
{
    if j == i + 1 {
    } else {
        lemma_blocks_ordered(m, i, j - 1);
        assert(wf_block(m.blocks@[j - 1]));
    }
}

/// Two blocks of a well-formed map covering the same symbol magnitude are
/// the same block.
proof fn lemma_covering_unique<T: WeightFn>(m: &HuffmanMapS<T>, a: int, i: int, j: int)
    requires
        wf_maps(*m),
        0 <= i < m.blocks@.len(),
        0 <= j < m.blocks@.len(),
        m.blocks@[i].start_huffman <= a < m.blocks@[i].end_huffman,
        m.blocks@[j].start_huffman <= a < m.blocks@[j].end_huffman,
    ensures
        m.blocks@[i] == m.blocks@[j],
{
    if i < j {
        lemma_blocks_ordered(m, i, j);
    } else if j < i {
        lemma_blocks_ordered(m, j, i);
    }
}

/// Mapping a residual to its symbol and reading it back through the block
/// search recovers the residual, whichever blocks the searches found.
#[verifier::rlimit(100)]
pub proof fn lemma_mapper_round_trip<T: WeightFn>(
    m: &HuffmanMapS<T>,
    d: DiffValue,
    hk: HuffmanKey,
    back: DiffValue,
    i: int,
    j: int,
)
    requires
        wf_maps(*m),
        d.qtype == ValueType::Corrected,
        0 <= i < m.blocks@.len(),
        hk == block_to_hkey(m.blocks@[i], d.value as int),
        m.blocks@[i].start_quantized <= (if d.value < 0 {
            -(d.value as int)
        } else {
            d.value as int
        }) < m.blocks@[i].end_quantized,
        back.qtype == ValueType::Corrected,
        0 <= j < m.blocks@.len(),
        back.value == block_from_hkey(m.blocks@[j], hk),
        m.blocks@[j].start_huffman <= (if hk.key < 0 {
            -(hk.key as int)
        } else {
            hk.key as int
        }) < m.blocks@[j].end_huffman,
    ensures
        back == d,
{
    let b = m.blocks@[i];
    assert(wf_block(b));
    crate::quantize::lemma_p2_pos(b.block_size_bits as nat);
    let a = if d.value < 0 {
        -(d.value as int)
    } else {
        d.value as int
    };
    let v = a - b.start_quantized;
    let vb = v / (b.block_size as int);
    let extra = v % (b.block_size as int);
    assert(v == vb * b.block_size + extra && 0 <= extra < b.block_size && 0 <= vb)
        by (nonlinear_arith)
        requires
            v >= 0,
            b.block_size >= 1,
            vb == v / (b.block_size as int),
            extra == v % (b.block_size as int),
    ;
    assert(vb < b.blocks) by (nonlinear_arith)
        requires
            v < b.blocks * b.block_size,
            v == vb * b.block_size + extra,
            0 <= extra < b.block_size,
            b.block_size >= 1,
    ;
    let keymag = vb + b.start_huffman;
    assert(b.start_huffman <= keymag < b.end_huffman);
    assert(0 <= keymag < 0x20000000000);
    let signv: int = if d.value < 0 {
        -1
    } else if d.value > 0 {
        1
    } else {
        0
    };
    assert(-0x20000000000 < keymag * signv < 0x20000000000) by (nonlinear_arith)
        requires
            0 <= keymag < 0x20000000000,
            -1 <= signv <= 1,
    ;
    assert(hk.key == keymag * signv);
    let hkmag = if hk.key < 0 {
        -(hk.key as int)
    } else {
        hk.key as int
    };
    if signv == 0 {
        // the residual is zero, which only the dense first block holds
        assert(a == 0);
        assert(b.start_quantized == 0);
        assert(b.start_huffman == 0);
        assert(keymag == vb);
        assert(vb == 0 && extra == 0) by (nonlinear_arith)
            requires
                v == 0,
                v == vb * b.block_size + extra,
                0 <= extra < b.block_size,
                0 <= vb,
                b.block_size >= 1,
        ;
        assert(hk.key == 0);
        assert(hkmag == keymag);
    } else if signv == 1 {
        assert(hk.key == keymag) by (nonlinear_arith)
            requires
                hk.key == keymag * signv,
                signv == 1,
        ;
        assert(hkmag == keymag);
    } else {
        assert(hk.key == -keymag) by (nonlinear_arith)
            requires
                hk.key == keymag * signv,
                signv == -1,
        ;
        assert(hkmag == keymag);
    }
    // the block the key search found is the block the value search found
    assert(hkmag == keymag);
    assert(m.blocks@[j] == b) by {
        if i < j {
            lemma_blocks_ordered(m, i, j);
            assert(false);
        } else if j < i {
            lemma_blocks_ordered(m, j, i);
            assert(false);
        }
    }
    lemma_block_round_trip(b, d.value as int);
}

fn pow2_i64(bits: usize) -> (r: i64)
    requires
        bits <= 30,
    ensures
        r == crate::quantize::p2(bits as nat),
        1 <= r <= 0x40000000,
{
    let mut r: i64 = 1;
    let mut i: usize = 0;
    while i < bits
        invariant
            i <= bits <= 30,
            r == crate::quantize::p2(i as nat),
            1 <= r,
            r <= 0x40000000,
        decreases bits - i,
    {
        proof {
            crate::quantize::lemma_p2_pos(i as nat);
            lemma_p2_le_30((i + 1) as nat);
        }
        r = r * 2;
        i += 1;
    }
    r
}

proof fn lemma_p2_le_30(n: nat)
    requires
        n <= 30,
    ensures
        crate::quantize::p2(n) <= 0x40000000,
{
    crate::quantize::lemma_p2_monotone(n, 30);
    crate::quantize::lemma_p2_30();
}

} // verus!
