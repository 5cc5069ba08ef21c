//! ICMP Echo packets: building a request with its one's-complement checksum
//! and reading the identifier and sequence back out of a reply.

use vstd::prelude::*;

verus! {

/// An ICMP Echo identity: sequence, identifier, IPv4 address, and the
/// monotonic arrival stamp in microseconds once a reply has come in.
#[derive(Debug, Clone, Copy, PartialEq, Eq)]
pub struct PacketData {
    pub seqn: u16,
    pub ident: u16,
    /// The four octets of the IPv4 address.
    pub addr: [u8; 4],
    pub received: Option<u64>,
}

/// A probe that has been sent: the identity, the monotonic send stamp, the
/// wall-clock send stamp, and the round-trip time in microseconds once the
/// reply has been matched.
#[derive(Debug, Clone, Copy, PartialEq, Eq)]
pub struct PacketSent {
    pub data: PacketData,
    /// Monotonic stamp at send, microseconds.
    pub sent: u64,
    /// Wall-clock stamp at send, microseconds since the epoch.
    pub when: u64,
    /// Round-trip time in microseconds, once matched.
    pub received: Option<u64>,
}

impl PacketSent {
    pub fn new(data: PacketData, sent: u64, when: u64) -> (r: Self)
        ensures
            r == (PacketSent { data, sent, when, received: None }),
    {
        Self { data, sent, when, received: None }
    }
}

/// Length of an Echo Request: 8 header bytes and a 16-byte zero payload.
pub open spec fn echo_packet_len() -> int {
    24
}

/// The 16-bit word at byte offset `2*i`, big-endian.
pub open spec fn word_at(s: Seq<u8>, i: int) -> int {
    s[2 * i] * 256 + s[2 * i + 1]
}

/// Sum of the first `n` words, skipping the word at index `skip`.
pub open spec fn sum_words(s: Seq<u8>, n: int, skip: int) -> int
    decreases n,
{
    if n <= 0 {
        0
    } else {
        sum_words(s, n - 1, skip) + (if n - 1 == skip {
            0
        } else {
            word_at(s, n - 1)
        })
    }
}

/// One folding step of the one's-complement sum.
pub open spec fn fold16(x: int) -> int {
    x / 0x10000 + x % 0x10000
}

/// The checksum over the packet with the checksum word zeroed: the
/// complement of the twice-folded sum of the other words.
pub open spec fn icmp_checksum(s: Seq<u8>) -> int {
    0xffff - fold16(fold16(sum_words(s, 12, 1)))
}

/// The packet verifies: folding the sum over all words gives all ones.
pub open spec fn checksum_valid(s: Seq<u8>) -> bool {
    fold16(fold16(sum_words(s, 12, -1))) == 0xffff
}

/// The bytes of an Echo Request: type 8, code 0, checksum, identifier,
/// sequence, then sixteen zero bytes.
pub open spec fn echo_request_bytes(seqn: u16, ident: u16) -> Seq<u8> {
    let ck = icmp_checksum(echo_request_nock(seqn, ident));
    echo_request_nock(seqn, ident).update(2, (ck / 256) as u8).update(3, (ck % 256) as u8)
}

/// The same packet with the checksum word still zero.
pub open spec fn echo_request_nock(seqn: u16, ident: u16) -> Seq<u8> {
    seq![
        8u8,
        0u8,
        0u8,
        0u8,
        (ident / 256) as u8,
        (ident % 256) as u8,
        (seqn / 256) as u8,
        (seqn % 256) as u8,
    ] + Seq::new(16, |i: int| 0u8)
}

proof fn lemma_fold16_congruent(x: int)
    requires
        x >= 0,
    ensures
        fold16(x) % 0xffff == x % 0xffff,
        x > 0 ==> fold16(x) > 0,
        fold16(x) <= x,
        x < 0x100000000 ==> fold16(x) <= 0x1fffe,
{
    let q = x / 0x10000;
    let r = x % 0x10000;
    assert(x == q * 0x10000 + r && q >= 0 && 0 <= r < 0x10000) by (nonlinear_arith)
        requires
            x >= 0,
            q == x / 0x10000,
            r == x % 0x10000,
    ;
    assert(fold16(x) == q + r);
    assert((q + r) % 0xffff == (q * 0x10000 + r) % 0xffff) by (nonlinear_arith)
        requires
            q >= 0,
            r >= 0,
    ;
    assert(q + r <= q * 0x10000 + r) by (nonlinear_arith)
        requires
            q >= 0,
    ;
    if x < 0x100000000 {
        assert(q <= 0xffff) by (nonlinear_arith)
            requires
                x < 0x100000000,
                q == x / 0x10000,
                x >= 0,
        ;
    }
}

/// A sum below 2^32 that is a positive multiple of 0xffff folds to 0xffff.
proof fn lemma_fold_to_ffff(x: int)
    requires
        0 < x < 0x100000000,
        x % 0xffff == 0,
    ensures
        fold16(fold16(x)) == 0xffff,
{
    lemma_fold16_congruent(x);
    let y = fold16(x);
    lemma_fold16_congruent(y);
    let z = fold16(y);
    assert(z % 0xffff == 0);
    assert(0 < z <= 0x1fffe + 2);
    assert(y <= 0x1fffe);
    assert(z == fold16(y));
    assert(y / 0x10000 <= 1);
    assert(z <= 1 + 0xffff);
    assert(z == 0xffff) by (nonlinear_arith)
        requires
            0 < z <= 0x10000,
            z % 0xffff == 0,
    ;
}

/// Setting the checksum word makes the whole-packet sum a multiple of 0xffff,
/// so the packet verifies.
proof fn lemma_checksum_works(s: Seq<u8>, seqn: u16, ident: u16)
    requires
        s == echo_request_bytes(seqn, ident),
    ensures
        checksum_valid(s),
{
    let base = echo_request_nock(seqn, ident);
    let sk = sum_words(base, 12, 1);
    lemma_sum_words_skip_eq(base, 12, 1);
    assert(sum_words(base, 12, -1) == sk) by {
        lemma_sum_word1_zero(base, seqn, ident);
    }
    assert(sk == 0x800 + ident + seqn) by {
        lemma_sum_base(base, seqn, ident);
    }
    let ck = 0xffff - fold16(fold16(sk));
    assert(0 <= ck <= 0xffff) by {
        lemma_fold16_congruent(sk);
        lemma_fold16_congruent(fold16(sk));
        assert(fold16(sk) <= sk);
        assert(fold16(fold16(sk)) <= 0xffff) by {
            assert(fold16(sk) <= 0x1fffe);
            assert(fold16(sk) / 0x10000 <= 1);
            if fold16(sk) >= 0x10000 {
                assert(fold16(fold16(sk)) == 1 + fold16(sk) % 0x10000);
                assert(fold16(sk) % 0x10000 <= 0x1fffe - 0x10000);
            }
        }
    }
    lemma_sum_update_ck(base, s, ck);
    let total = sum_words(s, 12, -1);
    assert(total == sk + ck);
    assert(total % 0xffff == 0) by {
        lemma_fold16_congruent(sk);
        lemma_fold16_congruent(fold16(sk));
        assert(fold16(fold16(sk)) % 0xffff == sk % 0xffff);
        assert((sk + 0xffff - fold16(fold16(sk))) % 0xffff == 0) by (nonlinear_arith)
            requires
                fold16(fold16(sk)) % 0xffff == sk % 0xffff,
                sk >= 0,
                0 <= fold16(fold16(sk)) <= 0xffff,
                sk >= fold16(fold16(sk)),
        ;
    }
    assert(0 < total < 0x100000000) by {
        assert(sk >= 0x800);
        assert(fold16(fold16(sk)) >= 0) by {
            lemma_fold16_congruent(sk);
            lemma_fold16_congruent(fold16(sk));
        }
        assert(sk <= 0x800 + 0xffff + 0xffff);
    }
    lemma_fold_to_ffff(total);
}

proof fn lemma_sum_words_skip_eq(s: Seq<u8>, n: int, skip: int)
    requires
        0 <= skip < n,
        2 * n <= s.len(),
    ensures
        sum_words(s, n, -1) == sum_words(s, n, skip) + word_at(s, skip),
    decreases n,
{
    if n > 0 {
        if n - 1 == skip {
            lemma_sum_words_same(s, n - 1, -1, skip);
        } else {
            lemma_sum_words_skip_eq(s, n - 1, skip);
        }
    }
}

proof fn lemma_sum_words_same(s: Seq<u8>, n: int, a: int, b: int)
    requires
        a < 0 || a >= n,
        b < 0 || b >= n,
    ensures
        sum_words(s, n, a) == sum_words(s, n, b),
    decreases n,
{
    if n > 0 {
        lemma_sum_words_same(s, n - 1, a, b);
    }
}

proof fn lemma_sum_word1_zero(base: Seq<u8>, seqn: u16, ident: u16)
    requires
        base == echo_request_nock(seqn, ident),
    ensures
        word_at(base, 1) == 0,
{
    assert(base[2] == 0 && base[3] == 0);
}

proof fn lemma_sum_base(base: Seq<u8>, seqn: u16, ident: u16)
    requires
        base == echo_request_nock(seqn, ident),
    ensures
        sum_words(base, 12, 1) == 0x800 + ident + seqn,
{
    assert(base[0] == 8 && base[1] == 0);
    assert(base[4] == (ident / 256) as u8 && base[5] == (ident % 256) as u8);
    assert(base[6] == (seqn / 256) as u8 && base[7] == (seqn % 256) as u8);
    assert(forall|i: int| 8 <= i < 24 ==> base[i] == 0);
    assert(word_at(base, 0) == 0x800);
    assert(word_at(base, 2) == ident);
    assert(word_at(base, 3) == seqn);
    assert(forall|i: int| 4 <= i < 12 ==> #[trigger] word_at(base, i) == 0);
    reveal_with_fuel(sum_words, 13);
}

proof fn lemma_sum_update_ck(base: Seq<u8>, s: Seq<u8>, ck: int)
    requires
        base.len() == 24,
        0 <= ck <= 0xffff,
        s == base.update(2, (ck / 256) as u8).update(3, (ck % 256) as u8),
    ensures
        sum_words(s, 12, -1) == sum_words(base, 12, 1) + ck,
{
    assert(word_at(s, 1) == ck);
    assert(forall|i: int| 0 <= i < 12 && i != 1 ==> #[trigger] word_at(s, i) == word_at(base, i));
    lemma_sum_words_parts(base, s, 12, ck);
}

proof fn lemma_sum_words_parts(base: Seq<u8>, s: Seq<u8>, n: int, ck: int)
    requires
        word_at(s, 1) == ck,
        forall|i: int| 0 <= i < 12 && i != 1 ==> #[trigger] word_at(s, i) == word_at(base, i),
        0 <= n <= 12,
    ensures
        sum_words(s, n, -1) == sum_words(base, n, 1) + (if n >= 2 {
            ck
        } else {
            0int
        }),
    decreases n,
{
    if n > 0 {
        lemma_sum_words_parts(base, s, n - 1, ck);
    }
}

impl PacketData {
    /// A fresh identity for a probe not yet sent.
    pub fn new(seqn: u16, ident: u16, addr: [u8; 4]) -> (r: Self)
        ensures
            r == (PacketData { seqn, ident, addr, received: None }),
    {
        Self { seqn, ident, addr, received: None }
    }

    /// Reads a reply's identifier and sequence from the ICMP bytes; the
    /// transport supplies the source address.
    pub fn parse(packet: &[u8], addr: [u8; 4]) -> (r: Option<Self>)
        ensures
            packet@.len() >= 8 ==> (r matches Some(p) && p.ident == word_at(packet@, 2)
                && p.seqn == word_at(packet@, 3) && p.addr@ == addr@ && p.received is None),
            packet@.len() < 8 ==> r is None,
    {
        if packet.len() < 8 {
            return None;
        }
        let ident = (packet[4] as u16) * 256 + (packet[5] as u16);
        let seqn = (packet[6] as u16) * 256 + (packet[7] as u16);
        Some(Self { seqn, ident, addr, received: None })
    }

    /// Builds the Echo Request bytes for this identity: type 8, code 0, the
    /// identifier and sequence, a 16-byte zero payload, and a checksum that
    /// verifies.
    pub fn create_echo_packet(&self) -> (r: Vec<u8>)
        ensures
            r@ == echo_request_bytes(self.seqn, self.ident),
            r@.len() == echo_packet_len(),
            checksum_valid(r@),
    {
        let mut v: Vec<u8> = Vec::new();
        v.push(8);
        v.push(0);
        v.push(0);
        v.push(0);
        v.push((self.ident / 256) as u8);
        v.push((self.ident % 256) as u8);
        v.push((self.seqn / 256) as u8);
        v.push((self.seqn % 256) as u8);
        let mut i: usize = 0;
        while i < 16
            invariant
                i <= 16,
                v@.len() == 8 + i,
                v@ == echo_request_nock(self.seqn, self.ident).take(8 + i),
            decreases 16 - i,
        {
            v.push(0);
            proof {
                let base = echo_request_nock(self.seqn, self.ident);
                assert(base.take(8 + i + 1) =~= base.take(8 + i).push(0u8));
            }
            i += 1;
        }
        proof {
            let base = echo_request_nock(self.seqn, self.ident);
            assert(base.take(24) =~= base);
        }
        let ck = self.compute_checksum(&v);
        v.set(2, (ck / 256) as u8);
        v.set(3, (ck % 256) as u8);
        proof {
            lemma_checksum_works(v@, self.seqn, self.ident);
        }
        v
    }

    fn compute_checksum(&self, v: &Vec<u8>) -> (r: u16)
        requires
            v@ == echo_request_nock(self.seqn, self.ident),
        ensures
            r == icmp_checksum(v@),
    {
        let base_sum: u32 = 0x800 + self.ident as u32 + self.seqn as u32;
        proof {
            lemma_sum_base(v@, self.seqn, self.ident);
        }
        let f1 = base_sum / 0x10000 + base_sum % 0x10000;
        let f2 = f1 / 0x10000 + f1 % 0x10000;
        proof {
            lemma_fold16_congruent(base_sum as int);
            lemma_fold16_congruent(f1 as int);
        }
        (0xffff - f2) as u16
    }
}

} // verus!
