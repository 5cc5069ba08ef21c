//! The static entropy coder over the residual symbols, and the composed
//! stage that drives it: quantizer, predictor, corrector and symbol mapper
//! are the library's verified pieces; the codebook and the bit store come
//! from outside crates behind trusted wrappers.

use vstd::prelude::*;
use crate::corrector::{BasicCorrector, ValueType};
use crate::huffmapper::{HuffmanMapS, WeightFn, wf_maps};
use crate::predict::WindowMedianPredictor;
use crate::quantize::LinearLogQuantizer;

verus! {

#[verifier::external_type_specification]
#[verifier::external_body]
#[verifier::reject_recursive_types(B)]
pub struct ExBitVec<B>(bit_vec::BitVec<B>);

#[verifier::external_type_specification]
#[verifier::external_body]
#[verifier::reject_recursive_types(K)]
pub struct ExBook<K>(huffman_compress::Book<K>);

#[verifier::external_type_specification]
#[verifier::external_body]
#[verifier::reject_recursive_types(K)]
pub struct ExTree<K>(huffman_compress::Tree<K>);

/// The bits a bit store holds, in order.
pub uninterp spec fn bits_of(v: bit_vec::BitVec<u32>) -> Seq<bool>;

/// The codeword each symbol carries in a codebook.
pub uninterp spec fn book_code(b: huffman_compress::Book<i64>) -> Map<i64, Seq<bool>>;

/// The codeword each symbol carries in a decoding tree.
pub uninterp spec fn tree_code(t: huffman_compress::Tree<i64>) -> Map<i64, Seq<bool>>;

/// Relies on huffman_compress's CodeBuilder::finish: the book and the tree
/// it returns carry one code, covering every weighted symbol.
#[verifier::external_body]
fn new_code(weights: &Vec<(i64, u64)>) -> (r: (
    huffman_compress::Book<i64>,
    huffman_compress::Tree<i64>,
))
    ensures
        book_code(r.0) == tree_code(r.1),
        forall|k: int|
            0 <= k < weights@.len() ==> #[trigger] book_code(r.0).dom().contains(weights@[k].0),
{
    let builder: huffman_compress::CodeBuilder<i64, u64> = weights.iter().cloned().collect();
    builder.finish()
}

/// Relies on bit_vec's BitVec::new: an empty bit store.
#[verifier::external_body]
fn bv_new() -> (r: bit_vec::BitVec<u32>)
    ensures
        bits_of(r) == Seq::<bool>::empty(),
{
    bit_vec::BitVec::new()
}

/// Relies on bit_vec's BitVec::push.
#[verifier::external_body]
fn bv_push(bits: &mut bit_vec::BitVec<u32>, b: bool)
    ensures
        bits_of(*final(bits)) == bits_of(*old(bits)).push(b),
{
    bits.push(b);
}

/// Relies on bit_vec's BitVec::len.
#[verifier::external_body]
fn bv_len(bits: &bit_vec::BitVec<u32>) -> (r: usize)
    ensures
        r == bits_of(*bits).len(),
{
    bits.len()
}

/// Relies on bit_vec's BitVec::get.
#[verifier::external_body]
fn bv_get(bits: &bit_vec::BitVec<u32>, i: usize) -> (r: bool)
    requires
        i < bits_of(*bits).len(),
    ensures
        r == bits_of(*bits)[i as int],
{
    bits.get(i).unwrap_or(false)
}

/// Relies on huffman_compress's Book::encode: it appends the symbol's
/// codeword, or leaves the store alone when the symbol is not in the book.
#[verifier::external_body]
fn encode_sym(
    book: &huffman_compress::Book<i64>,
    bits: &mut bit_vec::BitVec<u32>,
    sym: i64,
) -> (r: Result<(), ()>)
    ensures
        r is Ok ==> (book_code(*book).dom().contains(sym) && bits_of(*final(bits)) == bits_of(
            *old(bits),
        ) + book_code(*book)[sym]),
        r is Err ==> (!book_code(*book).dom().contains(sym) && bits_of(*final(bits)) == bits_of(
            *old(bits),
        )),
{
    book.encode(bits, &sym).map_err(|_| ())
}

/// Relies on huffman_compress's Tree::decoder over bit_vec's iterator: when
/// the bits at `pos` open with a symbol's codeword, that symbol comes back
/// with the position just past it; the codewords are prefix-free, so at most
/// one symbol matches.
#[verifier::external_body]
fn decode_sym(
    tree: &huffman_compress::Tree<i64>,
    bits: &bit_vec::BitVec<u32>,
    pos: usize,
) -> (r: Option<(i64, usize)>)
    requires
        pos <= bits_of(*bits).len(),
    ensures
        r matches Some(p) ==> pos <= p.1 <= bits_of(*bits).len(),
        forall|sym: i64|
            (#[trigger] tree_code(*tree).dom().contains(sym) && pos + tree_code(*tree)[sym].len()
                <= bits_of(*bits).len() && bits_of(*bits).subrange(
                pos as int,
                pos + tree_code(*tree)[sym].len(),
            ) == tree_code(*tree)[sym]) ==> r == Some(
                (sym, (pos + tree_code(*tree)[sym].len()) as usize),
            ),
{
    let mut it = bits.iter();
    if pos > 0 {
        it.nth(pos - 1);
    }
    let before = it.len();
    let sym = tree.unbounded_decoder(&mut it).next()?;
    let after = it.len();
    Some((sym, pos + (before - after)))
}

/// The composed stage: quantize, predict, take the residual, map it to a
/// symbol, and entropy-code the symbol with its extra bits.
pub struct CompositeStage<T: WeightFn> {
    pub quantizer: LinearLogQuantizer,
    pub predictor: WindowMedianPredictor,
    pub correction: BasicCorrector,
    pub huffmapper: HuffmanMapS<T>,
    pub book: huffman_compress::Book<i64>,
    pub tree: huffman_compress::Tree<i64>,
}

pub open spec fn stage_wf<T: WeightFn>(st: CompositeStage<T>) -> bool {
    &&& st.quantizer.wf()
    &&& wf_maps(st.huffmapper)
    &&& book_code(st.book) == tree_code(st.tree)
}

impl<T: WeightFn> CompositeStage<T> {
    /// A stage over the given weight curve; `precision_bits` names the
    /// quantizer precision `2^-bits`.
    pub fn new(f: T, precision_bits: u32, window_size: usize) -> (r: Self)
        requires
            1 <= precision_bits <= 30,
        ensures
            stage_wf(r),
            r.predictor.buffer@.len() == 0,
    {
        let hmaps = HuffmanMapS::new(f);
        let weights = hmaps.get_huffmap();
        let (book, tree) = new_code(&weights);
        Self {
            quantizer: LinearLogQuantizer::new(precision_bits),
            predictor: WindowMedianPredictor::new(window_size),
            correction: BasicCorrector::new(),
            huffmapper: hmaps,
            book,
            tree,
        }
    }

    /// Quantizes and codes one value onto the bit store: the residual's
    /// symbol codeword, then its extra bits, most significant first.
    pub fn encode(&mut self, bits: &mut bit_vec::BitVec<u32>, value: i64) -> (r: Result<(), ()>)
        requires
            stage_wf(*old(self)),
            -0x4000000000000000 < value < 0x4000000000000000,
        ensures
            stage_wf(*final(self)),
            r matches Ok(hk) ==> (exists|cw: Seq<bool>, extra: Seq<bool>|
                bits_of(*final(bits)) == bits_of(*old(bits)) + cw + extra),
            r is Err ==> bits_of(*final(bits)) == bits_of(*old(bits)),
    {
        let qval = self.quantizer.encode(value);
        if qval == i64::MIN {
            return Err(());
        }
        let predicted = self.predictor.predict();
        self.predictor.push_value(qval);
        if let Some(p) = predicted {
            let wide: i128 = qval as i128 - p as i128;
            if !(i64::MIN as i128 <= wide && wide <= i64::MAX as i128) {
                return Err(());
            }
        }
        let diff = self.correction.diff(qval, predicted);
        if diff.value == i64::MIN {
            return Err(());
        }
        let hkey = match self.huffmapper.to_hkey(diff) {
            Some(hk) => hk,
            None => {
                return Err(());
            },
        };
        if !(0 <= hkey.extra_data && hkey.extra_bits <= 30) {
            return Err(());
        }
        match encode_sym(&self.book, bits, hkey.key) {
            Ok(()) => {},
            Err(()) => {
                return Err(());
            },
        }
        let ghost mid = bits_of(*bits);
        proof {
            assert(bits_of(*bits) =~= mid + Seq::<bool>::empty());
        }
        let mut b: usize = hkey.extra_bits;
        while b > 0
            invariant
                b <= hkey.extra_bits <= 30,
                hkey.extra_data >= 0,
                exists|extra: Seq<bool>| bits_of(*bits) == mid + extra,
            decreases b,
        {
            let ghost pre = bits_of(*bits);
            let bit = (hkey.extra_data / pow2_i64_local(b - 1)) % 2 == 1;
            bv_push(bits, bit);
            proof {
                let extra = choose|extra: Seq<bool>| pre == mid + extra;
                assert(bits_of(*bits) =~= mid + extra.push(bit));
            }
            b = b - 1;
        }
        Ok(())
    }

    /// Reads one value back: the symbol, its extra bits, and the inverse of
    /// the residual pipeline.
    pub fn decode(&mut self, bits: &bit_vec::BitVec<u32>, pos: usize) -> (r: Result<
        (i64, usize),
        (),
    >)
        requires
            stage_wf(*old(self)),
            pos <= bits_of(*bits).len(),
        ensures
            stage_wf(*final(self)),
            r matches Ok(p) ==> pos <= p.1 <= bits_of(*bits).len(),
    {
        let (sym, p1) = match decode_sym(&self.tree, bits, pos) {
            Some(x) => x,
            None => {
                return Err(());
            },
        };
        if sym == i64::MIN {
            return Err(());
        }
        let partial = match self.huffmapper.get_partial_hkey(sym) {
            Some(p) => p,
            None => {
                return Err(());
            },
        };
        if partial.extra_bits > 30 {
            return Err(());
        }
        let total = bv_len(bits);
        if p1 > total || partial.extra_bits > total - p1 {
            return Err(());
        }
        let mut extra_data: i64 = 0;
        let mut j: usize = 0;
        while j < partial.extra_bits
            invariant
                j <= partial.extra_bits <= 30,
                p1 + partial.extra_bits <= bits_of(*bits).len(),
                bits_of(*bits).len() <= usize::MAX,
                0 <= extra_data < crate::quantize::p2(j as nat),
            decreases partial.extra_bits - j,
        {
            proof {
                crate::quantize::lemma_p2_pos(j as nat);
                lemma_p2_le_30_local((j + 1) as nat);
            }
            let bit = bv_get(bits, p1 + j);
            extra_data = extra_data * 2 + (if bit {
                1
            } else {
                0
            });
            j = j + 1;
        }
        let p2 = p1 + partial.extra_bits;
        let hkey = partial.add_extra_data(extra_data);
        let diff = match self.huffmapper.from_hkey(hkey) {
            Some(d) => d,
            None => {
                return Err(());
            },
        };
        let last_pred = self.predictor.predict();
        if diff.qtype == ValueType::Corrected && last_pred.is_none() {
            return Err(());
        }
        if diff.qtype == ValueType::Corrected {
            let p = match last_pred {
                Some(p) => p,
                None => unreached(),
            };
            if !(i64::MIN as i128 <= p as i128 + diff.value as i128 && p as i128
                + diff.value as i128 <= i64::MAX as i128) {
                return Err(());
            }
        }
        let orig_qval = self.correction.undiff(last_pred, diff);
        self.predictor.push_value(orig_qval);
        if orig_qval == i64::MIN || !self.quantizer.bucket_in_range_exec(orig_qval) {
            return Err(());
        }
        Ok((self.quantizer.decode(orig_qval), p2))
    }
}

fn pow2_i64_local(bits: usize) -> (r: i64)
    requires
        bits <= 30,
    ensures
        r == crate::quantize::p2(bits as nat),
        1 <= r <= 0x40000000,
{
    let mut r: i64 = 1;
    let mut i: usize = 0;
    while i < bits
        invariant
            i <= bits <= 30,
            r == crate::quantize::p2(i as nat),
            1 <= r,
            r <= 0x40000000,
        decreases bits - i,
    {
        proof {
            crate::quantize::lemma_p2_pos(i as nat);
            lemma_p2_le_30_local((i + 1) as nat);
        }
        r = r * 2;
        i += 1;
    }
    r
}

proof fn lemma_p2_le_30_local(n: nat)
    requires
        n <= 30,
    ensures
        crate::quantize::p2(n) <= 0x40000000,
{
    crate::quantize::lemma_p2_monotone(n, 30);
    crate::quantize::lemma_p2_30();
}

} // verus!
