//! Destination state and the probing pipeline: pacing and admission for
//! sends, matching replies to in-flight probes, retention of the three
//! queues, and the per-refresh helpers the statistics read.
//!
//! Time is carried as monotonic microseconds supplied by the caller; the
//! socket work around these decisions lives outside the library.

use vstd::prelude::*;
use crate::icmp::{PacketData, PacketSent, echo_request_bytes, checksum_valid};

verus! {

/// A target address that could not be used.
#[derive(Debug, Clone, Copy, PartialEq, Eq, Structural)]
pub enum ConfigError {
    BadAddress,
}

/// Relies on rand's thread_rng / gen: a uniformly random 16-bit value.
/// Nothing is promised of the value.
#[verifier::external_body]
fn rand_u16() -> u16 {
    rand::Rng::gen(&mut rand::thread_rng())
}

/// Relies on rand's gen_range: a value drawn from `[lo, hi)`.
#[verifier::external_body]
fn rand_range_u64(lo: u64, hi: u64) -> (r: u64)
    requires
        lo < hi,
    ensures
        lo <= r < hi,
{
    rand::Rng::gen_range(&mut rand::thread_rng(), lo..hi)
}

// ---- the textual IPv4 literal ----

pub open spec fn is_digit(c: char) -> bool {
    '0' <= c && c <= '9'
}

pub open spec fn dval(c: char) -> int {
    c as int - '0' as int
}

/// Reads one decimal octet at `pos`: one to three digits, no leading zero,
/// value at most 255.
pub open spec fn parse_octet(s: Seq<char>, pos: int) -> Option<(int, int)> {
    if pos < 0 || pos >= s.len() || !is_digit(s[pos]) {
        None
    } else if pos + 1 >= s.len() || !is_digit(s[pos + 1]) {
        Some((dval(s[pos]), pos + 1))
    } else if s[pos] == '0' {
        None
    } else if pos + 2 >= s.len() || !is_digit(s[pos + 2]) {
        Some((10 * dval(s[pos]) + dval(s[pos + 1]), pos + 2))
    } else if pos + 3 < s.len() && is_digit(s[pos + 3]) {
        None
    } else {
        let v = 100 * dval(s[pos]) + 10 * dval(s[pos + 1]) + dval(s[pos + 2]);
        if v <= 255 {
            Some((v, pos + 3))
        } else {
            None
        }
    }
}

/// Reads a dotted-quad IPv4 literal spanning the whole string.
pub open spec fn parse_ipv4_spec(s: Seq<char>) -> Option<(int, int, int, int)> {
    match parse_octet(s, 0) {
        Some((a, p1)) => if p1 < s.len() && s[p1] == '.' {
            match parse_octet(s, p1 + 1) {
                Some((b, p2)) => if p2 < s.len() && s[p2] == '.' {
                    match parse_octet(s, p2 + 1) {
                        Some((c, p3)) => if p3 < s.len() && s[p3] == '.' {
                            match parse_octet(s, p3 + 1) {
                                Some((d, p4)) => if p4 == s.len() {
                                    Some((a, b, c, d))
                                } else {
                                    None
                                },
                                None => None,
                            }
                        } else {
                            None
                        },
                        None => None,
                    }
                } else {
                    None
                },
                None => None,
            }
        } else {
            None
        },
        None => None,
    }
}

fn parse_octet_exec(s: &[char], pos: usize) -> (r: Option<(u8, usize)>)
    requires
        s@.len() < 0x10000000,
    ensures
        match r {
            Some((v, p2)) => parse_octet(s@, pos as int) == Some((v as int, p2 as int)),
            None => parse_octet(s@, pos as int) is None,
        },
{
    if pos >= s.len() || !(s[pos] >= '0' && s[pos] <= '9') {
        None
    } else if pos + 1 >= s.len() || !(s[pos + 1] >= '0' && s[pos + 1] <= '9') {
        Some((s[pos] as u8 - '0' as u8, pos + 1))
    } else if s[pos] == '0' {
        None
    } else if pos + 2 >= s.len() || !(s[pos + 2] >= '0' && s[pos + 2] <= '9') {
        Some((10 * (s[pos] as u8 - '0' as u8) + (s[pos + 1] as u8 - '0' as u8), pos + 2))
    } else if pos + 3 < s.len() && s[pos + 3] >= '0' && s[pos + 3] <= '9' {
        None
    } else {
        let v: u32 = 100 * (s[pos] as u32 - '0' as u32) + 10 * (s[pos + 1] as u32 - '0' as u32) + (
        s[pos + 2] as u32 - '0' as u32);
        if v <= 255 {
            Some((v as u8, pos + 3))
        } else {
            None
        }
    }
}

/// Parses a textual IPv4 literal into its four octets.
pub fn parse_ipaddr(ipaddr: &str) -> (r: Option<[u8; 4]>)
    requires
        ipaddr@.len() < 0x10000000,
    ensures
        match r {
            Some(a) => parse_ipv4_spec(ipaddr@) == Some(
                (a@[0] as int, a@[1] as int, a@[2] as int, a@[3] as int),
            ),
            None => parse_ipv4_spec(ipaddr@) is None,
        },
{
    let chars = chars_of(ipaddr);
    let (a, p1) = match parse_octet_exec(chars.as_slice(), 0) {
        Some(x) => x,
        None => {
            return None;
        },
    };
    if !(p1 < chars.len() && chars[p1] == '.') {
        return None;
    }
    let (b, p2) = match parse_octet_exec(chars.as_slice(), p1 + 1) {
        Some(x) => x,
        None => {
            return None;
        },
    };
    if !(p2 < chars.len() && chars[p2] == '.') {
        return None;
    }
    let (c, p3) = match parse_octet_exec(chars.as_slice(), p2 + 1) {
        Some(x) => x,
        None => {
            return None;
        },
    };
    if !(p3 < chars.len() && chars[p3] == '.') {
        return None;
    }
    let (d, p4) = match parse_octet_exec(chars.as_slice(), p3 + 1) {
        Some(x) => x,
        None => {
            return None;
        },
    };
    if p4 != chars.len() {
        return None;
    }
    Some([a, b, c, d])
}

/// Relies on str::chars: the characters of the string, in order.
#[verifier::external_body]
fn chars_of(s: &str) -> (r: Vec<char>)
    ensures
        r@ == s@,
{
    s.chars().collect()
}

// ---- time filters ----

pub open spec fn sat_sub(a: int, b: int) -> int {
    if a >= b {
        a - b
    } else {
        0
    }
}

pub open spec fn rtt_or_0(p: PacketSent) -> int {
    match p.received {
        Some(r) => r as int,
        None => 0,
    }
}

pub open spec fn recv_before_spec(p: PacketSent, now: int, wait: int) -> bool {
    sat_sub(now, p.sent + rtt_or_0(p)) < wait
}

pub open spec fn sent_before_spec(p: PacketSent, now: int, wait: int) -> bool {
    sat_sub(now, p.sent as int) < wait
}

/// True when the packet's reply arrived within `wait` of `now`.
pub fn recv_before(pck: &PacketSent, now: u64, wait: u64) -> (r: bool)
    ensures
        r == recv_before_spec(*pck, now as int, wait as int),
{
    let received: u64 = match pck.received {
        Some(x) => x,
        None => 0,
    };
    let fin: u128 = pck.sent as u128 + received as u128;
    if now as u128 >= fin {
        (now as u128 - fin) < wait as u128
    } else {
        wait > 0
    }
}

/// True when the packet was sent within `wait` of `now`.
pub fn sent_before(pck: &PacketSent, now: u64, wait: u64) -> (r: bool)
    ensures
        r == sent_before_spec(*pck, now as int, wait as int),
{
    if now >= pck.sent {
        (now - pck.sent) < wait
    } else {
        wait > 0
    }
}

/// True when the packet was sent at least `wait` before `now`.
pub fn sent_after(pck: &PacketSent, now: u64, wait: u64) -> (r: bool)
    ensures
        r == !sent_before_spec(*pck, now as int, wait as int),
{
    !sent_before(pck, now, wait)
}

// ---- the destination ----

/// A probed target: its identity, pacing state, and the three retention
/// queues.
#[derive(Debug)]
pub struct Destination {
    /// The address as it was configured.
    pub str_addr: String,
    /// Minimum spacing between this target's probes, microseconds.
    pub interval: u64,
    /// The four octets of the target address.
    pub addr: [u8; 4],
    /// The next sequence number to use.
    pub seq: u16,
    /// The ICMP identifier of this destination.
    pub ident: u16,
    /// Monotonic stamp of the last emission, for pacing.
    pub last_pckt_sent: u64,
    /// Probes awaiting a reply.
    pub inflight_packets: Vec<PacketSent>,
    /// Probes whose reply arrived.
    pub recv_packets: Vec<PacketSent>,
    /// Probes given up on.
    pub lost_packets: Vec<PacketSent>,
    /// Probes sent over the process lifetime.
    pub sent_count: u64,
    /// Replies matched over the process lifetime.
    pub recv_count: u64,
}

/// Every in-flight probe still waits for its reply; every received probe
/// carries one.
pub open spec fn dest_wf(d: Destination) -> bool {
    &&& forall|i: int|
        0 <= i < d.inflight_packets@.len() ==> (#[trigger] d.inflight_packets@[i]).received
            is None
    &&& forall|i: int|
        0 <= i < d.recv_packets@.len() ==> (#[trigger] d.recv_packets@[i]).received is Some
    &&& d.interval > 0
}

/// A reply matches an in-flight probe: same sequence, still unanswered, and
/// it did not arrive before the probe left.
pub open spec fn pkt_match(p: PacketSent, pk: PacketData) -> bool {
    &&& p.data.seqn == pk.seqn
    &&& p.received is None
    &&& pk.received.unwrap() >= p.sent
}

/// The reply settled as a received probe: the round-trip time filled in.
pub open spec fn settled(p: PacketSent, pk: PacketData) -> PacketSent {
    PacketSent { received: Some((pk.received.unwrap() - p.sent) as u64), ..p }
}

/// Index of the first in-flight probe the reply settles, if any: the first
/// entry with the reply's sequence, still unanswered, and not sent after the
/// reply arrived.
pub open spec fn first_match_in(s: Seq<PacketSent>, pk: PacketData, n: int) -> Option<int>
    decreases n,
{
    if n <= 0 {
        None
    } else {
        match first_match_in(s, pk, n - 1) {
            Some(i) => Some(i),
            None => if pkt_match(s[n - 1], pk) {
                Some(n - 1)
            } else {
                None
            },
        }
    }
}

proof fn lemma_first_match_none(s: Seq<PacketSent>, pk: PacketData, n: int)
    requires
        forall|j: int| 0 <= j < n ==> !pkt_match(#[trigger] s[j], pk),
    ensures
        first_match_in(s, pk, n) is None,
    decreases n,
{
    if n > 0 {
        lemma_first_match_none(s, pk, n - 1);
    }
}

proof fn lemma_first_match_at(s: Seq<PacketSent>, pk: PacketData, n: int, idx: int)
    requires
        0 <= idx < n,
        pkt_match(s[idx], pk),
        forall|j: int| 0 <= j < idx ==> !pkt_match(#[trigger] s[j], pk),
    ensures
        first_match_in(s, pk, n) == Some(idx),
    decreases n,
{
    if n - 1 > idx {
        lemma_first_match_at(s, pk, n - 1, idx);
    } else {
        lemma_first_match_none(s, pk, n - 1);
    }
}

/// How one reply relates a destination's new state to its old one: a
/// foreign identifier or no match leaves it unchanged; otherwise the first
/// matching probe moves, settled, to the received queue.
pub open spec fn recv_rel(d0: Destination, d1: Destination, pk: PacketData) -> bool {
    if pk.ident != d0.ident {
        d1 == d0
    } else {
        match first_match_in(d0.inflight_packets@, pk, d0.inflight_packets@.len() as int) {
            None => d1 == d0,
            Some(i) => {
                &&& d1.inflight_packets@ == d0.inflight_packets@.remove(i)
                &&& d1.recv_packets@ == d0.recv_packets@.push(
                    settled(d0.inflight_packets@[i], pk),
                )
                &&& d1.recv_count == sat_add_u64(d0.recv_count as int, 1)
                &&& d1.lost_packets@ == d0.lost_packets@
                &&& d1.seq == d0.seq
                &&& d1.ident == d0.ident
                &&& d1.addr@ == d0.addr@
                &&& d1.str_addr@ == d0.str_addr@
                &&& d1.interval == d0.interval
                &&& d1.last_pckt_sent == d0.last_pckt_sent
                &&& d1.sent_count == d0.sent_count
            },
        }
    }
}

/// The destination after every reply of the batch, offered in order.
pub open spec fn recv_chain(d0: Destination, d1: Destination, packets: Seq<PacketData>) -> bool
    decreases packets.len(),
{
    if packets.len() == 0 {
        d1 == d0
    } else {
        exists|mid: Destination|
            #[trigger] recv_rel(d0, mid, packets[0]) && recv_chain(mid, d1, packets.skip(1))
    }
}

proof fn lemma_recv_chain_extend(
    d0: Destination,
    dm: Destination,
    d1: Destination,
    ps: Seq<PacketData>,
    p: PacketData,
)
    requires
        recv_chain(d0, dm, ps),
        recv_rel(dm, d1, p),
    ensures
        recv_chain(d0, d1, ps.push(p)),
    decreases ps.len(),
{
    if ps.len() == 0 {
        assert(dm == d0);
        assert(ps.push(p)[0] == p);
        assert(ps.push(p).skip(1) =~= Seq::<PacketData>::empty());
        assert(recv_rel(d0, d1, ps.push(p)[0]) && recv_chain(d1, d1, ps.push(p).skip(1)));
    } else {
        let mid = choose|mid: Destination|
            #[trigger] recv_rel(d0, mid, ps[0]) && recv_chain(mid, dm, ps.skip(1));
        lemma_recv_chain_extend(mid, dm, d1, ps.skip(1), p);
        assert(ps.skip(1).push(p) =~= ps.push(p).skip(1));
        assert(ps.push(p)[0] == ps[0]);
        assert(recv_rel(d0, mid, ps.push(p)[0]) && recv_chain(mid, d1, ps.push(p).skip(1)));
    }
}

pub open spec fn sat_add_u64(a: int, b: int) -> int {
    if a + b > u64::MAX {
        u64::MAX as int
    } else {
        a + b
    }
}

impl Destination {
    /// A new destination: address parsed from its literal, sequence starting
    /// at one, and pacing set so the first probe fires at once.
    pub fn new(str_addr: &str, interval: u64, now_us: u64) -> (r: Result<Self, ConfigError>)
        requires
            str_addr@.len() < 0x10000000,
            interval > 0,
        ensures
            match r {
                Ok(d) => {
                    &&& parse_ipv4_spec(str_addr@) == Some(
                        (d.addr@[0] as int, d.addr@[1] as int, d.addr@[2] as int, d.addr@[3] as int),
                    )
                    &&& d.str_addr@ == str_addr@
                    &&& d.interval == interval
                    &&& d.seq == 1
                    &&& d.last_pckt_sent == sat_sub(now_us as int, interval as int)
                    &&& d.inflight_packets@.len() == 0
                    &&& d.recv_packets@.len() == 0
                    &&& d.lost_packets@.len() == 0
                    &&& d.sent_count == 0
                    &&& d.recv_count == 0
                    &&& dest_wf(d)
                },
                Err(_) => parse_ipv4_spec(str_addr@) is None,
            },
    {
        let addr = match parse_ipaddr(str_addr) {
            Some(a) => a,
            None => {
                return Err(ConfigError::BadAddress);
            },
        };
        let last = if now_us >= interval {
            now_us - interval
        } else {
            0
        };
        Ok(Self {
            addr,
            str_addr: str_addr.to_owned(),
            last_pckt_sent: last,
            interval,
            seq: 1,
            ident: rand_u16(),
            inflight_packets: Vec::new(),
            recv_packets: Vec::new(),
            lost_packets: Vec::new(),
            sent_count: 0,
            recv_count: 0,
        })
    }

    /// Matches an incoming reply against the in-flight queue.  The first
    /// probe it settles moves to the received queue with its round-trip time;
    /// exactly one probe is promoted per reply, and a reply that arrived
    /// before its probe left settles nothing.
    pub fn recv(&mut self, packet: &PacketData) -> (r: Option<([u8; 4], u64)>)
        requires
            dest_wf(*old(self)),
            packet.received is Some,
        ensures
            dest_wf(*final(self)),
            recv_rel(*old(self), *final(self), *packet),
            packet.ident != old(self).ident ==> (*final(self) == *old(self) && r is None),
            packet.ident == old(self).ident ==> ({
                let fm = first_match_in(
                    old(self).inflight_packets@,
                    *packet,
                    old(self).inflight_packets@.len() as int,
                );
                &&& (fm is None ==> *final(self) == *old(self) && r is None)
                &&& (fm matches Some(i) ==> {
                    let hit = settled(old(self).inflight_packets@[i], *packet);
                    &&& final(self).inflight_packets@ == old(self).inflight_packets@.remove(i)
                    &&& final(self).recv_packets@ == old(self).recv_packets@.push(hit)
                    &&& final(self).recv_count == sat_add_u64(old(self).recv_count as int, 1)
                    &&& final(self).lost_packets@ == old(self).lost_packets@
                    &&& final(self).seq == old(self).seq
                    &&& final(self).ident == old(self).ident
                    &&& final(self).addr@ == old(self).addr@
                    &&& final(self).str_addr@ == old(self).str_addr@
                    &&& final(self).interval == old(self).interval
                    &&& final(self).last_pckt_sent == old(self).last_pckt_sent
                    &&& final(self).sent_count == old(self).sent_count
                    &&& (r matches Some((a, rtt)) && a@ == packet.addr@ && rtt
                        == hit.received.unwrap())
                })
            }),
    {
        if self.ident != packet.ident {
            return None;
        }
        let arrived = match packet.received {
            Some(a) => a,
            None => unreached(),
        };
        let n = self.inflight_packets.len();
        let mut i: usize = 0;
        while i < n
            invariant
                dest_wf(*self),
                *self == *old(self),
                packet.received == Some(arrived),
                packet.ident == old(self).ident,
                n == self.inflight_packets@.len(),
                i <= n,
                forall|j: int|
                    0 <= j < i ==> !pkt_match(#[trigger] self.inflight_packets@[j], *packet),
            decreases n - i,
        {
            let p = self.inflight_packets[i];
            if p.data.seqn == packet.seqn && p.received.is_none() && arrived >= p.sent {
                let rtt = arrived - p.sent;
                let hit = PacketSent { received: Some(rtt), ..p };
                proof {
                    lemma_first_match_at(
                        self.inflight_packets@,
                        *packet,
                        n as int,
                        i as int,
                    );
                    assert(hit == settled(self.inflight_packets@[i as int], *packet));
                }
                self.recv_packets.push(hit);
                self.inflight_packets.remove(i);
                if self.recv_count < u64::MAX {
                    self.recv_count = self.recv_count + 1;
                }
                proof {
                    assert forall|k: int|
                        0 <= k < self.inflight_packets@.len() implies (#[trigger] self
                            .inflight_packets@[k]).received is None by {
                        assert(self.inflight_packets@[k] == if k < i {
                            old(self).inflight_packets@[k]
                        } else {
                            old(self).inflight_packets@[k + 1]
                        });
                    }
                }
                return Some((packet.addr, rtt));
            }
            i += 1;
        }
        proof {
            lemma_first_match_none(self.inflight_packets@, *packet, n as int);
        }
        None
    }

    /// Decides whether to probe now.  The admission limit draws a random
    /// threshold in `[16, 64)`, so a destination with fewer than 16 probes
    /// in flight is never refused by it and one with 64 or more always is;
    /// pacing requires the configured spacing minus `min_delay` to have
    /// passed.  On a send the request bytes are returned for the caller to
    /// put on the wire, the probe joins the in-flight queue, and the pacing
    /// stamp moves to `now` minus a random jitter of up to 100
    /// microseconds.
    pub fn send(&mut self, now_us: u64, wall_us: u64, min_delay: u64) -> (r: Option<Vec<u8>>)
        requires
            dest_wf(*old(self)),
        ensures
            dest_wf(*final(self)),
            r is None ==> *final(self) == *old(self),
            r matches Some(bytes) ==> ({
                &&& bytes@ == echo_request_bytes(old(self).seq, old(self).ident)
                &&& checksum_valid(bytes@)
                &&& final(self).inflight_packets@ == old(self).inflight_packets@.push(
                    PacketSent {
                        data: PacketData {
                            seqn: old(self).seq,
                            ident: old(self).ident,
                            addr: old(self).addr,
                            received: None,
                        },
                        sent: now_us,
                        when: wall_us,
                        received: None,
                    },
                )
                &&& final(self).sent_count == sat_add_u64(old(self).sent_count as int, 1)
                &&& sat_sub(now_us as int, 100) <= final(self).last_pckt_sent <= now_us
                &&& final(self).recv_packets@ == old(self).recv_packets@
                &&& final(self).lost_packets@ == old(self).lost_packets@
                &&& final(self).ident == old(self).ident
                &&& final(self).addr@ == old(self).addr@
                &&& final(self).str_addr@ == old(self).str_addr@
                &&& final(self).interval == old(self).interval
                &&& final(self).recv_count == old(self).recv_count
            }),
            sat_sub(now_us as int, old(self).last_pckt_sent as int) + min_delay < old(
                self,
            ).interval ==> r is None,
            old(self).inflight_packets@.len() >= 64 ==> r is None,
            (old(self).inflight_packets@.len() < 16 && sat_sub(
                now_us as int,
                old(self).last_pckt_sent as int,
            ) + min_delay >= old(self).interval) ==> r is Some,
    {
        let inflight = self.inflight_packets.len();
        let rnd_num = rand_range_u64(16, 64);
        if (rnd_num as usize) < inflight {
            return None;
        }
        let elapsed: u64 = if now_us >= self.last_pckt_sent {
            now_us - self.last_pckt_sent
        } else {
            0
        };
        if (elapsed as u128) + (min_delay as u128) < self.interval as u128 {
            return None;
        }
        let data = PacketData::new(self.seq, self.ident, self.addr);
        let bytes = data.create_echo_packet();
        let jitter = rand_range_u64(0, 101);
        self.last_pckt_sent = if now_us >= jitter {
            now_us - jitter
        } else {
            0
        };
        proof {
            assert(sat_sub(now_us as int, 100) <= self.last_pckt_sent <= now_us);
        }
        self.inflight_packets.push(PacketSent::new(data, now_us, wall_us));
        self.seq = rand_u16();
        if self.sent_count < u64::MAX {
            self.sent_count = self.sent_count + 1;
        }
        Some(bytes)
    }
}

// ---- retention filters ----

/// The first `n` received probes whose reply is within `wait` of `now`.
pub open spec fn recv_last_of(s: Seq<PacketSent>, now: int, wait: int, n: int) -> Seq<PacketSent>
    decreases n,
{
    if n <= 0 {
        Seq::empty()
    } else {
        recv_last_of(s, now, wait, n - 1) + (if recv_before_spec(s[n - 1], now, wait) {
            seq![s[n - 1]]
        } else {
            Seq::empty()
        })
    }
}

/// The first `n` in-flight probes older than `wait`.
pub open spec fn inflight_after_of(s: Seq<PacketSent>, now: int, wait: int, n: int) -> Seq<
    PacketSent,
>
    decreases n,
{
    if n <= 0 {
        Seq::empty()
    } else {
        inflight_after_of(s, now, wait, n - 1) + (if !recv_before_spec(s[n - 1], now, wait) {
            seq![s[n - 1]]
        } else {
            Seq::empty()
        })
    }
}

/// The first `n` probes sent within `wait` of `now`.
pub open spec fn sent_within_of(s: Seq<PacketSent>, now: int, wait: int, n: int) -> Seq<PacketSent>
    decreases n,
{
    if n <= 0 {
        Seq::empty()
    } else {
        sent_within_of(s, now, wait, n - 1) + (if sent_before_spec(s[n - 1], now, wait) {
            seq![s[n - 1]]
        } else {
            Seq::empty()
        })
    }
}

/// The first `n` probes sent at least `wait` before `now`.
pub open spec fn sent_outside_of(s: Seq<PacketSent>, now: int, wait: int, n: int) -> Seq<
    PacketSent,
>
    decreases n,
{
    if n <= 0 {
        Seq::empty()
    } else {
        sent_outside_of(s, now, wait, n - 1) + (if !sent_before_spec(s[n - 1], now, wait) {
            seq![s[n - 1]]
        } else {
            Seq::empty()
        })
    }
}

/// Round-trip times summed over the first `n` probes.
pub open spec fn rtt_sum(s: Seq<PacketSent>, n: int) -> int
    decreases n,
{
    if n <= 0 {
        0
    } else {
        rtt_sum(s, n - 1) + rtt_or_0(s[n - 1])
    }
}

impl Destination {
    /// Clones the received probes whose reply came within `wait` of `now`.
    pub fn received_last(&self, now_us: u64, wait: u64) -> (r: Vec<PacketSent>)
        ensures
            r@ == recv_last_of(
                self.recv_packets@,
                now_us as int,
                wait as int,
                self.recv_packets@.len() as int,
            ),
    {
        let mut out: Vec<PacketSent> = Vec::new();
        let mut i: usize = 0;
        let n = self.recv_packets.len();
        while i < n
            invariant
                i <= n,
                n == self.recv_packets@.len(),
                out@ == recv_last_of(self.recv_packets@, now_us as int, wait as int, i as int),
            decreases n - i,
        {
            let p = self.recv_packets[i];
            if recv_before(&p, now_us, wait) {
                out.push(p);
            }
            proof {
                assert(out@ =~= recv_last_of(
                    self.recv_packets@,
                    now_us as int,
                    wait as int,
                    i + 1,
                ));
            }
            i += 1;
        }
        out
    }

    /// Clones the in-flight probes older than `wait`: the ones likely lost.
    pub fn inflight_after(&self, now_us: u64, wait: u64) -> (r: Vec<PacketSent>)
        ensures
            r@ == inflight_after_of(
                self.inflight_packets@,
                now_us as int,
                wait as int,
                self.inflight_packets@.len() as int,
            ),
    {
        let mut out: Vec<PacketSent> = Vec::new();
        let mut i: usize = 0;
        let n = self.inflight_packets.len();
        while i < n
            invariant
                i <= n,
                n == self.inflight_packets@.len(),
                out@ == inflight_after_of(
                    self.inflight_packets@,
                    now_us as int,
                    wait as int,
                    i as int,
                ),
            decreases n - i,
        {
            let p = self.inflight_packets[i];
            if !recv_before(&p, now_us, wait) {
                out.push(p);
            }
            proof {
                assert(out@ =~= inflight_after_of(
                    self.inflight_packets@,
                    now_us as int,
                    wait as int,
                    i + 1,
                ));
            }
            i += 1;
        }
        out
    }

    /// Mean round-trip time over the received probes whose reply came within
    /// `time_avg` of `now`; nothing when no probe was ever received.
    pub fn mean_recv_time(&self, now_us: u64, time_avg: u64) -> (r: Option<u64>)
        ensures
            r is None <==> self.recv_packets@.len() == 0,
            r matches Some(avg) ==> ({
                let f = recv_last_of(
                    self.recv_packets@,
                    now_us as int,
                    time_avg as int,
                    self.recv_packets@.len() as int,
                );
                let cnt = if f.len() == 0 {
                    1int
                } else {
                    f.len() as int
                };
                avg == rtt_sum(f, f.len() as int) / cnt
            }),
    {
        if self.recv_packets.len() == 0 {
            return None;
        }
        let fv = self.received_last(now_us, time_avg);
        let n = fv.len();
        let mut total: u128 = 0;
        let mut i: usize = 0;
        while i < n
            invariant
                i <= n,
                n == fv@.len(),
                total == rtt_sum(fv@, i as int),
                total <= i * 0xffffffffffffffff,
            decreases n - i,
        {
            let rtt: u64 = match fv[i].received {
                Some(x) => x,
                None => 0,
            };
            proof {
                assert((i + 1) * 0xffffffffffffffff == i * 0xffffffffffffffff + 0xffffffffffffffff)
                    by (nonlinear_arith);
                assert(i * 0xffffffffffffffff <= 0xffffffffffffffff * 0xffffffffffffffff)
                    by (nonlinear_arith)
                    requires
                        0 <= i <= 0xffffffffffffffff,
                ;
                assert(0xffffffffffffffff * 0xffffffffffffffff + 0xffffffffffffffff
                    < 0x100000000000000000000000000000000) by (nonlinear_arith);
            }
            total = total + rtt as u128;
            i += 1;
        }
        let cnt: u128 = if n == 0 {
            1
        } else {
            n as u128
        };
        let avg = total / cnt;
        proof {
            lemma_rtt_sum_bound(fv@, n as int);
            assert(avg <= 0xffffffffffffffff) by (nonlinear_arith)
                requires
                    total <= n * 0xffffffffffffffff,
                    avg == (total as int) / (cnt as int),
                    cnt >= 1,
                    n <= cnt,
                    total >= 0,
            ;
        }
        Some(avg as u64)
    }

    /// Ages the queues: in-flight probes past hope of a reply move to lost,
    /// and each queue forgets entries older than its window.  The received
    /// and lost windows are compounded with the in-flight window, so a
    /// settled probe never ages out before an in-flight one would have.
    pub fn cleanup_one(
        &mut self,
        now_us: u64,
        forget_inflight: u64,
        forget_recv: u64,
        forget_lost: u64,
    )
        requires
            dest_wf(*old(self)),
        ensures
            dest_wf(*final(self)),
            ({
                let inf = old(self).inflight_packets@;
                let aged = sent_outside_of(inf, now_us as int, forget_recv as int, inf.len() as int);
                let lost1 = old(self).lost_packets@ + aged;
                let w2 = sat_add_u64(forget_inflight as int, forget_recv as int);
                let w3 = sat_add_u64(forget_inflight as int, forget_lost as int);
                &&& final(self).inflight_packets@ == sent_within_of(
                    inf,
                    now_us as int,
                    forget_inflight as int,
                    inf.len() as int,
                )
                &&& final(self).recv_packets@ == sent_within_of(
                    old(self).recv_packets@,
                    now_us as int,
                    w2,
                    old(self).recv_packets@.len() as int,
                )
                &&& final(self).lost_packets@ == sent_within_of(
                    lost1,
                    now_us as int,
                    w3,
                    lost1.len() as int,
                )
            }),
            final(self).str_addr@ == old(self).str_addr@,
            final(self).interval == old(self).interval,
            final(self).addr@ == old(self).addr@,
            final(self).seq == old(self).seq,
            final(self).ident == old(self).ident,
            final(self).last_pckt_sent == old(self).last_pckt_sent,
            final(self).sent_count == old(self).sent_count,
            final(self).recv_count == old(self).recv_count,
    {
        let n_inf = self.inflight_packets.len();
        let mut i: usize = 0;
        while i < n_inf
            invariant
                dest_wf(*old(self)),
                i <= n_inf,
                n_inf == self.inflight_packets@.len(),
                self.inflight_packets@ == old(self).inflight_packets@,
                self.recv_packets@ == old(self).recv_packets@,
                self.lost_packets@ == old(self).lost_packets@ + sent_outside_of(
                    self.inflight_packets@,
                    now_us as int,
                    forget_recv as int,
                    i as int,
                ),
                self.str_addr@ == old(self).str_addr@,
                self.interval == old(self).interval,
                self.addr@ == old(self).addr@,
                self.seq == old(self).seq,
                self.ident == old(self).ident,
                self.last_pckt_sent == old(self).last_pckt_sent,
                self.sent_count == old(self).sent_count,
                self.recv_count == old(self).recv_count,
            decreases n_inf - i,
        {
            let p = self.inflight_packets[i];
            if sent_after(&p, now_us, forget_recv) {
                self.lost_packets.push(p);
            }
            proof {
                assert(self.lost_packets@ =~= old(self).lost_packets@ + sent_outside_of(
                    self.inflight_packets@,
                    now_us as int,
                    forget_recv as int,
                    i + 1,
                ));
            }
            i += 1;
        }
        let kept_inf = retain_sent_within(&self.inflight_packets, now_us, forget_inflight);
        self.inflight_packets = kept_inf;
        let w2: u64 = if forget_inflight <= u64::MAX - forget_recv {
            forget_inflight + forget_recv
        } else {
            u64::MAX
        };
        let kept_recv = retain_sent_within(&self.recv_packets, now_us, w2);
        self.recv_packets = kept_recv;
        let w3: u64 = if forget_inflight <= u64::MAX - forget_lost {
            forget_inflight + forget_lost
        } else {
            u64::MAX
        };
        let kept_lost = retain_sent_within(&self.lost_packets, now_us, w3);
        self.lost_packets = kept_lost;
        proof {
            lemma_sent_within_none(
                old(self).inflight_packets@,
                now_us as int,
                forget_inflight as int,
                old(self).inflight_packets@.len() as int,
            );
            lemma_sent_within_some(
                old(self).recv_packets@,
                now_us as int,
                w2 as int,
                old(self).recv_packets@.len() as int,
            );
        }
    }
}

fn retain_sent_within(v: &Vec<PacketSent>, now_us: u64, wait: u64) -> (r: Vec<PacketSent>)
    ensures
        r@ == sent_within_of(v@, now_us as int, wait as int, v@.len() as int),
{
    let mut out: Vec<PacketSent> = Vec::new();
    let mut i: usize = 0;
    let n = v.len();
    while i < n
        invariant
            i <= n,
            n == v@.len(),
            out@ == sent_within_of(v@, now_us as int, wait as int, i as int),
        decreases n - i,
    {
        let p = v[i];
        if sent_before(&p, now_us, wait) {
            out.push(p);
        }
        proof {
            assert(out@ =~= sent_within_of(v@, now_us as int, wait as int, i + 1));
        }
        i += 1;
    }
    out
}

proof fn lemma_rtt_sum_bound(s: Seq<PacketSent>, n: int)
    requires
        0 <= n <= s.len(),
    ensures
        0 <= rtt_sum(s, n) <= n * 0xffffffffffffffff,
    decreases n,
{
    if n > 0 {
        lemma_rtt_sum_bound(s, n - 1);
        assert(n * 0xffffffffffffffff == (n - 1) * 0xffffffffffffffff + 0xffffffffffffffff)
            by (nonlinear_arith);
    }
}

proof fn lemma_sent_within_none(s: Seq<PacketSent>, now: int, wait: int, n: int)
    requires
        forall|i: int| 0 <= i < s.len() ==> (#[trigger] s[i]).received is None,
        n <= s.len(),
    ensures
        forall|i: int|
            0 <= i < sent_within_of(s, now, wait, n).len() ==> (#[trigger] sent_within_of(
                s,
                now,
                wait,
                n,
            )[i]).received is None,
    decreases n,
{
    if n > 0 {
        lemma_sent_within_none(s, now, wait, n - 1);
    }
}

proof fn lemma_sent_within_some(s: Seq<PacketSent>, now: int, wait: int, n: int)
    requires
        forall|i: int| 0 <= i < s.len() ==> (#[trigger] s[i]).received is Some,
        n <= s.len(),
    ensures
        forall|i: int|
            0 <= i < sent_within_of(s, now, wait, n).len() ==> (#[trigger] sent_within_of(
                s,
                now,
                wait,
                n,
            )[i]).received is Some,
    decreases n,
{
    if n > 0 {
        lemma_sent_within_some(s, now, wait, n - 1);
    }
}

// ---- the pinger over all destinations ----

/// Retention windows and the pacing precision multiplier (scaled by 1000).
#[derive(Debug, Clone, Copy, PartialEq, Eq, Structural)]
pub struct CommConfig {
    /// Time until an in-flight probe is dropped, microseconds.
    pub forget_inflight: u64,
    /// How long lost probes are kept, microseconds.
    pub forget_lost: u64,
    /// How long received probes are kept, microseconds.
    pub forget_recv: u64,
    /// Pacing precision multiplier, thousandths.
    pub precision_mult_x1000: u32,
}

/// A probe ready for the wire: where to send it and its bytes.
pub struct SendOrder {
    pub addr: [u8; 4],
    pub packet: Vec<u8>,
}

/// The pinger: every configured destination and the pacing it derives.
pub struct Comms {
    /// The destinations being probed.
    pub dest: Vec<Destination>,
    /// Timing configuration.
    pub config: CommConfig,
    /// Recommended inter-wake delay, microseconds.
    pub delay: u64,
}

pub open spec fn comms_wf(c: Comms) -> bool {
    &&& forall|i: int| 0 <= i < c.dest@.len() ==> dest_wf(#[trigger] c.dest@[i])
    &&& c.dest@.len() <= 1000000
}

/// Inverse intervals summed over the first `n` destinations, in probes per
/// million seconds.
pub open spec fn sum_inv(ds: Seq<Destination>, n: int) -> int
    decreases n,
{
    if n <= 0 {
        0
    } else {
        sum_inv(ds, n - 1) + 1000000000000int / (ds[n - 1].interval as int)
    }
}

/// The average spacing that keeps the aggregate rate flat: the reciprocal of
/// the precision-scaled sum of the destination rates, or one millisecond
/// when there is nothing to pace.
pub open spec fn delay_spec(ds: Seq<Destination>, pm_x1000: u32) -> int {
    let denom = pm_x1000 * sum_inv(ds, ds.len() as int);
    if denom == 0 {
        1000
    } else {
        1000000000000000int / denom
    }
}

impl Comms {
    /// A pinger with no destinations yet.
    pub fn new(config: CommConfig) -> (r: Self)
        ensures
            r.dest@.len() == 0,
            r.config == config,
            r.delay == 1000,
            comms_wf(r),
    {
        Self { dest: Vec::new(), config, delay: 1000 }
    }

    /// Adds a destination and refreshes the recommended delay.
    pub fn add_destination(&mut self, addr: &str, interval: u64, now_us: u64) -> (r: Result<
        (),
        ConfigError,
    >)
        requires
            comms_wf(*old(self)),
            old(self).dest@.len() < 1000000,
            addr@.len() < 0x10000000,
            interval > 0,
        ensures
            comms_wf(*final(self)),
            final(self).config == old(self).config,
            r is Ok ==> ({
                &&& final(self).dest@.len() == old(self).dest@.len() + 1
                &&& final(self).dest@.subrange(0, old(self).dest@.len() as int) == old(self).dest@
                &&& final(self).dest@.last().str_addr@ == addr@
                &&& final(self).dest@.last().interval == interval
                &&& final(self).delay == delay_spec(final(self).dest@, final(self).config.precision_mult_x1000)
            }),
            r is Err ==> (*final(self) == *old(self) && parse_ipv4_spec(addr@) is None),
    {
        let d = match Destination::new(addr, interval, now_us) {
            Ok(d) => d,
            Err(e) => {
                return Err(e);
            },
        };
        self.dest.push(d);
        proof {
            assert(self.dest@.subrange(0, old(self).dest@.len() as int) =~= old(self).dest@);
        }
        self.delay = self.get_delay();
        Ok(())
    }

    /// The recommended wake-up spacing for the current destination set.
    pub fn get_delay(&self) -> (r: u64)
        requires
            comms_wf(*self),
        ensures
            r == delay_spec(self.dest@, self.config.precision_mult_x1000),
    {
        let n = self.dest.len();
        let mut sum: u128 = 0;
        let mut i: usize = 0;
        while i < n
            invariant
                comms_wf(*self),
                i <= n,
                n == self.dest@.len(),
                sum == sum_inv(self.dest@, i as int),
                sum <= i * 1000000000000,
            decreases n - i,
        {
            proof {
                assert(dest_wf(self.dest@[i as int]));
                assert((i + 1) * 1000000000000 == i * 1000000000000 + 1000000000000)
                    by (nonlinear_arith);
                assert(i * 1000000000000 + 1000000000000 <= 1000001 * 1000000000000)
                    by (nonlinear_arith)
                    requires
                        i <= 1000000,
                ;
            }
            let iv = self.dest[i].interval;
            sum = sum + 1000000000000u128 / (iv as u128);
            i += 1;
        }
        proof {
            assert(sum <= 1000000 * 1000000000000) by (nonlinear_arith)
                requires
                    sum <= n * 1000000000000,
                    n <= 1000000,
            ;
            assert((self.config.precision_mult_x1000 as int) * (sum as int) <= 0x100000000
                * (1000000 * 1000000000000)) by (nonlinear_arith)
                requires
                    self.config.precision_mult_x1000 <= 0xffffffff,
                    0 <= sum <= 1000000 * 1000000000000,
            ;
            assert(0x100000000 * (1000000 * 1000000000000) < 0x100000000000000000000000000000000)
                by (nonlinear_arith);
        }
        let denom: u128 = (self.config.precision_mult_x1000 as u128) * sum;
        if denom == 0 {
            1000
        } else {
            let d = 1000000000000000u128 / denom;
            proof {
                assert(d <= 1000000000000000) by (nonlinear_arith)
                    requires
                        denom >= 1,
                        d == 1000000000000000 as int / (denom as int),
                ;
            }
            d as u64
        }
    }

    /// Decides which destinations probe now, most overdue first, and hands
    /// back the packets to put on the wire; stops once `limit` probes are
    /// ordered when `limit` is positive.
    pub fn send_all(&mut self, now_us: u64, wall_us: u64, limit: usize) -> (r: Vec<SendOrder>)
        requires
            comms_wf(*old(self)),
        ensures
            comms_wf(*final(self)),
            final(self).dest@.len() == old(self).dest@.len(),
            final(self).config == old(self).config,
            final(self).delay == old(self).delay,
            limit > 0 ==> r@.len() <= limit,
            forall|k: int|
                0 <= k < r@.len() ==> (#[trigger] r@[k].packet@).len() == 24 && checksum_valid(
                    r@[k].packet@,
                ),
            forall|i: int|
                0 <= i < final(self).dest@.len() ==> send_rel(
                    old(self).dest@[i],
                    #[trigger] final(self).dest@[i],
                    now_us,
                    wall_us,
                ),
            (limit == 0 || r@.len() < limit) ==> forall|i: int|
                0 <= i < final(self).dest@.len() && must_send(
                    old(self).dest@[i],
                    now_us,
                    old(self).delay / 2,
                ) ==> sent_shape(
                    old(self).dest@[i],
                    #[trigger] final(self).dest@[i],
                    now_us,
                    wall_us,
                ),
    {
        let n = self.dest.len();
        let mut order: Vec<(u64, usize)> = Vec::new();
        let mut i: usize = 0;
        while i < n
            invariant
                i <= n,
                n == self.dest@.len(),
                order@.len() == i,
                forall|k: int| 0 <= k < order@.len() ==> (#[trigger] order@[k]).1 == k,
            decreases n - i,
        {
            let d = &self.dest[i];
            let elig: u64 = {
                let target = d.last_pckt_sent as u128 + d.interval as u128;
                if target > now_us as u128 {
                    let diff = target - now_us as u128;
                    if diff > u64::MAX as u128 {
                        u64::MAX
                    } else {
                        diff as u64
                    }
                } else {
                    0
                }
            };
            order.push((elig, i));
            i += 1;
        }
        let order = sort_orders(order, Ghost(n));
        proof {
            assert forall|d: int| 0 <= d < n implies #[trigger] appears_from(order@, 0, d) by {
                assert(idx_appears(order@, d));
                let j = choose|j: int| 0 <= j < order@.len() && (#[trigger] order@[j]).1 == d;
                assert(order@[j].1 == d);
            }
        }
        let min_delay = self.delay / 2;
        let mut out: Vec<SendOrder> = Vec::new();
        let mut count: usize = 0;
        let mut k: usize = 0;
        while k < order.len()
            invariant
                comms_wf(*self),
                n == self.dest@.len(),
                self.dest@.len() == old(self).dest@.len(),
                self.config == old(self).config,
                self.delay == old(self).delay,
                min_delay == old(self).delay / 2,
                k <= order@.len(),
                forall|j: int| 0 <= j < order@.len() ==> (#[trigger] order@[j]).1 < n,
                forall|j1: int, j2: int|
                    0 <= j1 < j2 < order@.len() ==> (#[trigger] order@[j1]).1 != (
                    #[trigger] order@[j2]).1,
                count == out@.len(),
                count <= k,
                limit > 0 ==> count <= limit,
                limit > 0 ==> (count == limit ==> k >= order@.len()),
                forall|j: int|
                    0 <= j < out@.len() ==> (#[trigger] out@[j].packet@).len() == 24
                        && checksum_valid(out@[j].packet@),
                forall|i: int|
                    0 <= i < n && appears_from(order@, k as int, i) ==> #[trigger] self.dest@[i]
                        == old(self).dest@[i],
                forall|i: int|
                    0 <= i < n ==> send_rel(
                        old(self).dest@[i],
                        #[trigger] self.dest@[i],
                        now_us,
                        wall_us,
                    ),
                forall|i: int|
                    0 <= i < n && !appears_from(order@, k as int, i) && must_send(
                        old(self).dest@[i],
                        now_us,
                        old(self).delay / 2,
                    ) ==> sent_shape(
                        old(self).dest@[i],
                        #[trigger] self.dest@[i],
                        now_us,
                        wall_us,
                    ),
            decreases order@.len() - k,
        {
            let idx = order[k].1;
            let addr = self.dest[idx].addr;
            let ghost pre = self.dest@[idx as int];
            proof {
                assert(appears_from(order@, k as int, idx as int)) by {
                    assert(order@[k as int].1 == idx as int);
                }
                assert(pre == old(self).dest@[idx as int]);
            }
            let sent = vec_dest_send(&mut self.dest, idx, now_us, wall_us, min_delay);
            proof {
                assert forall|i: int|
                    0 <= i < n && appears_from(order@, k + 1, i) implies #[trigger] self.dest@[i]
                        == old(self).dest@[i] by {
                    assert(appears_from(order@, k as int, i)) by {
                        let j = choose|j: int|
                            k + 1 <= j < order@.len() && (#[trigger] order@[j]).1 == i;
                        assert(order@[j].1 == i);
                    }
                    if i == idx as int {
                        let j = choose|j: int|
                            k + 1 <= j < order@.len() && (#[trigger] order@[j]).1 == i;
                        assert(order@[j].1 == order@[k as int].1);
                        assert(false);
                    }
                }
                assert forall|i: int|
                    0 <= i < n && !appears_from(order@, k + 1, i) && must_send(
                        old(self).dest@[i],
                        now_us,
                        old(self).delay / 2,
                    ) implies sent_shape(
                    old(self).dest@[i],
                    #[trigger] self.dest@[i],
                    now_us,
                    wall_us,
                ) by {
                    if i == idx as int {
                    } else {
                        if appears_from(order@, k as int, i) {
                            let j = choose|j: int|
                                k <= j < order@.len() && (#[trigger] order@[j]).1 == i;
                            assert(j == k || k + 1 <= j);
                            assert(order@[k as int].1 == idx as int);
                            assert(false);
                        }
                    }
                }
            }
            match sent {
                Some(bytes) => {
                    proof {
                        assert(bytes@ == echo_request_bytes(pre.seq, pre.ident));
                    }
                    out.push(SendOrder { addr, packet: bytes });
                    count = count + 1;
                    if limit > 0 && count >= limit {
                        return out;
                    }
                },
                None => {},
            }
            k += 1;
        }
        out
    }

    /// Ages every destination's queues by the configured windows.
    pub fn cleanup(&mut self, now_us: u64)
        requires
            comms_wf(*old(self)),
        ensures
            comms_wf(*final(self)),
            final(self).dest@.len() == old(self).dest@.len(),
            final(self).config == old(self).config,
            final(self).delay == old(self).delay,
            forall|i: int|
                0 <= i < final(self).dest@.len() ==> cleanup_relates(
                    old(self).dest@[i],
                    #[trigger] final(self).dest@[i],
                    now_us as int,
                    old(self).config,
                ),
    {
        let n = self.dest.len();
        let fi = self.config.forget_inflight;
        let fr = self.config.forget_recv;
        let fl = self.config.forget_lost;
        let mut i: usize = 0;
        while i < n
            invariant
                comms_wf(*self),
                i <= n,
                n == self.dest@.len(),
                self.dest@.len() == old(self).dest@.len(),
                self.config == old(self).config,
                self.delay == old(self).delay,
                fi == self.config.forget_inflight,
                fr == self.config.forget_recv,
                fl == self.config.forget_lost,
                forall|j: int| i <= j < n ==> self.dest@[j] == old(self).dest@[j],
                forall|j: int|
                    0 <= j < i ==> cleanup_relates(
                        old(self).dest@[j],
                        #[trigger] self.dest@[j],
                        now_us as int,
                        old(self).config,
                    ),
            decreases n - i,
        {
            vec_dest_cleanup(&mut self.dest, i, now_us, fi, fr, fl);
            i += 1;
        }
    }

    /// Matches every buffered reply against every destination: each packet
    /// is offered to each destination in order, and each destination ends in
    /// the state that chain of offers dictates.
    pub fn recv_all(&mut self, packets: &Vec<PacketData>)
        requires
            comms_wf(*old(self)),
            forall|k: int| 0 <= k < packets@.len() ==> (#[trigger] packets@[k]).received is Some,
        ensures
            comms_wf(*final(self)),
            final(self).dest@.len() == old(self).dest@.len(),
            final(self).config == old(self).config,
            final(self).delay == old(self).delay,
            forall|i: int|
                0 <= i < final(self).dest@.len() ==> recv_chain(
                    old(self).dest@[i],
                    #[trigger] final(self).dest@[i],
                    packets@,
                ),
    {
        let np = packets.len();
        let mut pi: usize = 0;
        while pi < np
            invariant
                comms_wf(*self),
                pi <= np,
                np == packets@.len(),
                self.dest@.len() == old(self).dest@.len(),
                self.config == old(self).config,
                self.delay == old(self).delay,
                forall|k: int| 0 <= k < packets@.len() ==> (#[trigger] packets@[k]).received
                    is Some,
                forall|i: int|
                    0 <= i < self.dest@.len() ==> recv_chain(
                        old(self).dest@[i],
                        #[trigger] self.dest@[i],
                        packets@.take(pi as int),
                    ),
            decreases np - pi,
        {
            let n = self.dest.len();
            let ghost mid_dests = self.dest@;
            let mut di: usize = 0;
            while di < n
                invariant
                    comms_wf(*self),
                    di <= n,
                    n == self.dest@.len(),
                    pi < np,
                    np == packets@.len(),
                    self.dest@.len() == old(self).dest@.len(),
                    self.config == old(self).config,
                    self.delay == old(self).delay,
                    mid_dests.len() == n,
                    forall|k: int| 0 <= k < packets@.len() ==> (#[trigger] packets@[k]).received
                        is Some,
                    forall|i: int|
                        0 <= i < n ==> recv_chain(
                            old(self).dest@[i],
                            #[trigger] mid_dests[i],
                            packets@.take(pi as int),
                        ),
                    forall|i: int|
                        di <= i < n ==> #[trigger] self.dest@[i] == mid_dests[i],
                    forall|i: int|
                        0 <= i < di ==> recv_rel(
                            mid_dests[i],
                            #[trigger] self.dest@[i],
                            packets@[pi as int],
                        ),
                decreases n - di,
            {
                let pk = packets[pi];
                vec_dest_recv(&mut self.dest, di, &pk);
                di += 1;
            }
            proof {
                assert forall|i: int| 0 <= i < n implies recv_chain(
                    old(self).dest@[i],
                    #[trigger] self.dest@[i],
                    packets@.take(pi + 1),
                ) by {
                    lemma_recv_chain_extend(
                        old(self).dest@[i],
                        mid_dests[i],
                        self.dest@[i],
                        packets@.take(pi as int),
                        packets@[pi as int],
                    );
                    assert(packets@.take(pi as int).push(packets@[pi as int]) =~= packets@.take(
                        pi + 1,
                    ));
                }
            }
            pi += 1;
        }
        proof {
            assert(packets@.take(np as int) =~= packets@);
        }
    }
}

/// How one aging pass relates a destination's queues to their old state.
pub open spec fn cleanup_relates(d0: Destination, d1: Destination, now: int, c: CommConfig) -> bool {
    let inf = d0.inflight_packets@;
    let aged = sent_outside_of(inf, now, c.forget_recv as int, inf.len() as int);
    let lost1 = d0.lost_packets@ + aged;
    let w2 = sat_add_u64(c.forget_inflight as int, c.forget_recv as int);
    let w3 = sat_add_u64(c.forget_inflight as int, c.forget_lost as int);
    &&& d1.inflight_packets@ == sent_within_of(inf, now, c.forget_inflight as int, inf.len() as int)
    &&& d1.recv_packets@ == sent_within_of(d0.recv_packets@, now, w2, d0.recv_packets@.len() as int)
    &&& d1.lost_packets@ == sent_within_of(lost1, now, w3, lost1.len() as int)
    &&& d1.str_addr@ == d0.str_addr@
    &&& d1.interval == d0.interval
    &&& d1.seq == d0.seq
    &&& d1.ident == d0.ident
    &&& d1.last_pckt_sent == d0.last_pckt_sent
    &&& d1.sent_count == d0.sent_count
    &&& d1.recv_count == d0.recv_count
}

/// Sorts the eligibility list ascending, so the most overdue come first;
/// every entry's destination index stays below `n`.
/// What a probe emission does to a destination: the probe joins the
/// in-flight queue carrying the old sequence, the counter steps, and the
/// pacing stamp moves to `now` minus the jitter.
pub open spec fn sent_shape(d0: Destination, d1: Destination, now: u64, wall: u64) -> bool {
    &&& d1.inflight_packets@ == d0.inflight_packets@.push(
        PacketSent {
            data: PacketData { seqn: d0.seq, ident: d0.ident, addr: d0.addr, received: None },
            sent: now,
            when: wall,
            received: None,
        },
    )
    &&& d1.sent_count == sat_add_u64(d0.sent_count as int, 1)
    &&& sat_sub(now as int, 100) <= d1.last_pckt_sent <= now
    &&& d1.recv_packets@ == d0.recv_packets@
    &&& d1.lost_packets@ == d0.lost_packets@
    &&& d1.ident == d0.ident
    &&& d1.addr@ == d0.addr@
    &&& d1.str_addr@ == d0.str_addr@
    &&& d1.interval == d0.interval
    &&& d1.recv_count == d0.recv_count
}

/// One scheduling pass leaves a destination unchanged or sends one probe.
pub open spec fn send_rel(d0: Destination, d1: Destination, now: u64, wall: u64) -> bool {
    d1 == d0 || sent_shape(d0, d1, now, wall)
}

/// A destination the admission limiter never refuses and whose pacing is
/// due, given the process-wide slack `min_delay`.
pub open spec fn must_send(d: Destination, now: u64, min_delay: u64) -> bool {
    &&& d.inflight_packets@.len() < 16
    &&& sat_sub(now as int, d.last_pckt_sent as int) + min_delay >= d.interval
}

/// Some position of the list at or past `k` names destination `i`.
spec fn appears_from(s: Seq<(u64, usize)>, k: int, i: int) -> bool {
    exists|j: int| k <= j < s.len() && (#[trigger] s[j]).1 == i
}

/// Some position of the list names destination `d`.
spec fn idx_appears(s: Seq<(u64, usize)>, d: int) -> bool {
    exists|j: int| 0 <= j < s.len() && (#[trigger] s[j]).1 == d
}

fn sort_orders(input: Vec<(u64, usize)>, n: Ghost<usize>) -> (r: Vec<(u64, usize)>)
    requires
        forall|k: int| 0 <= k < input@.len() ==> (#[trigger] input@[k]).1 == k,
        input@.len() <= n@,
    ensures
        r@.len() == input@.len(),
        forall|i: int, j: int| 0 <= i < j < r@.len() ==> (#[trigger] r@[i]).0 <= (#[trigger] r@[j]).0,
        forall|k: int| 0 <= k < r@.len() ==> (#[trigger] r@[k]).1 < n@,
        forall|i: int, j: int| 0 <= i < j < r@.len() ==> (#[trigger] r@[i]).1 != (#[trigger] r@[j]).1,
        forall|d: int| 0 <= d < input@.len() ==> #[trigger] idx_appears(r@, d),
{
    broadcast use vstd::seq_lib::group_to_multiset_ensures, vstd::seq_lib::to_multiset_insert;

    let mut out: Vec<(u64, usize)> = Vec::new();
    let mut i: usize = 0;
    while i < input.len()
        invariant
            i <= input@.len(),
            input@.len() <= n@,
            out@.len() == i,
            forall|k: int| 0 <= k < input@.len() ==> (#[trigger] input@[k]).1 == k,
            forall|a: int, b: int|
                0 <= a < b < out@.len() ==> (#[trigger] out@[a]).0 <= (#[trigger] out@[b]).0,
            forall|k: int| 0 <= k < out@.len() ==> (#[trigger] out@[k]).1 < i,
            forall|a: int, b: int|
                0 <= a < b < out@.len() ==> (#[trigger] out@[a]).1 != (#[trigger] out@[b]).1,
            forall|d: int| 0 <= d < i ==> #[trigger] idx_appears(out@, d),
        decreases input@.len() - i,
    {
        let x = input[i];
        let mut k: usize = 0;
        while k < out.len() && out[k].0 <= x.0
            invariant
                k <= out@.len(),
                forall|a: int| 0 <= a < k ==> (#[trigger] out@[a]).0 <= x.0,
            decreases out@.len() - k,
        {
            k += 1;
        }
        let ghost pre = out@;
        out.insert(k, x);
        proof {
            assert(x.1 == i);
            assert forall|a: int| 0 <= a < out@.len() implies ((#[trigger] out@[a]).1 < i + 1
                && (a != k ==> out@[a].1 < i)) by {
                if a < k {
                    assert(out@[a] == pre[a]);
                } else if a == k {
                } else {
                    assert(out@[a] == pre[a - 1]);
                }
            }
            assert forall|a: int, b: int| 0 <= a < b < out@.len() implies (#[trigger] out@[a]).1
                != (#[trigger] out@[b]).1 by {
                if a != k && b != k {
                    let a0 = if a < k {
                        a
                    } else {
                        a - 1
                    };
                    let b0 = if b < k {
                        b
                    } else {
                        b - 1
                    };
                    assert(out@[a] == pre[a0] && out@[b] == pre[b0]);
                }
            }
            assert forall|d: int| 0 <= d < i + 1 implies #[trigger] idx_appears(out@, d) by {
                if d == i {
                    assert(out@[k as int].1 == d);
                } else {
                    assert(idx_appears(pre, d));
                    let j0 = choose|j0: int| 0 <= j0 < pre.len() && (#[trigger] pre[j0]).1 == d;
                    let j = if j0 < k {
                        j0
                    } else {
                        j0 + 1
                    };
                    assert(out@[j].1 == d);
                }
            }
        }
        i += 1;
    }
    out
}

/// Calls `send` on the destination at `idx`, leaving the others alone.
fn vec_dest_send(ds: &mut Vec<Destination>, idx: usize, now_us: u64, wall_us: u64, min_delay: u64)
    -> (r: Option<Vec<u8>>)
    requires
        idx < old(ds)@.len(),
        forall|i: int| 0 <= i < old(ds)@.len() ==> dest_wf(#[trigger] old(ds)@[i]),
    ensures
        final(ds)@.len() == old(ds)@.len(),
        forall|i: int| 0 <= i < final(ds)@.len() ==> dest_wf(#[trigger] final(ds)@[i]),
        forall|i: int| 0 <= i < final(ds)@.len() && i != idx ==> final(ds)@[i] == old(ds)@[i],
        r matches Some(bytes) ==> (bytes@ == echo_request_bytes(
            old(ds)@[idx as int].seq,
            old(ds)@[idx as int].ident,
        ) && checksum_valid(bytes@)),
        r is Some ==> sent_shape(old(ds)@[idx as int], final(ds)@[idx as int], now_us, wall_us),
        r is None ==> final(ds)@[idx as int] == old(ds)@[idx as int],
        must_send(old(ds)@[idx as int], now_us, min_delay) ==> r is Some,
    {
        let mut d = ds.remove(idx);
        let r = d.send(now_us, wall_us, min_delay);
        ds.insert(idx, d);
        proof {
            assert(final(ds)@.len() == old(ds)@.len());
        }
        r
    }

/// Calls `recv` on the destination at `idx`, leaving the others alone.
fn vec_dest_recv(ds: &mut Vec<Destination>, idx: usize, pk: &PacketData)
    requires
        idx < old(ds)@.len(),
        forall|i: int| 0 <= i < old(ds)@.len() ==> dest_wf(#[trigger] old(ds)@[i]),
        pk.received is Some,
    ensures
        final(ds)@.len() == old(ds)@.len(),
        forall|i: int| 0 <= i < final(ds)@.len() ==> dest_wf(#[trigger] final(ds)@[i]),
        forall|i: int| 0 <= i < final(ds)@.len() && i != idx ==> final(ds)@[i] == old(ds)@[i],
        recv_rel(old(ds)@[idx as int], final(ds)@[idx as int], *pk),
    {
        let mut d = ds.remove(idx);
        let _ = d.recv(pk);
        ds.insert(idx, d);
    }

/// Calls `cleanup_one` on the destination at `idx`, leaving the others
/// alone.
fn vec_dest_cleanup(
    ds: &mut Vec<Destination>,
    idx: usize,
    now_us: u64,
    fi: u64,
    fr: u64,
    fl: u64,
)
    requires
        idx < old(ds)@.len(),
        forall|i: int| 0 <= i < old(ds)@.len() ==> dest_wf(#[trigger] old(ds)@[i]),
    ensures
        final(ds)@.len() == old(ds)@.len(),
        forall|i: int| 0 <= i < final(ds)@.len() ==> dest_wf(#[trigger] final(ds)@[i]),
        forall|i: int| 0 <= i < final(ds)@.len() && i != idx ==> final(ds)@[i] == old(ds)@[i],
        cleanup_relates(
            old(ds)@[idx as int],
            final(ds)@[idx as int],
            now_us as int,
            CommConfig { forget_inflight: fi, forget_recv: fr, forget_lost: fl, precision_mult_x1000: 0 },
        ),
    {
        let mut d = ds.remove(idx);
        d.cleanup_one(now_us, fi, fr, fl);
        ds.insert(idx, d);
    }

/// One refresh's derived statistics for a destination.
#[derive(Debug, Clone, Copy, PartialEq, Eq, Structural)]
pub struct RefreshStats {
    pub inflight_count: usize,
    /// Replies kept per second, scaled by 1000.
    pub recv_per_sec_x1000: u64,
    /// Mean round-trip over the averaging window, microseconds.
    pub avg_time_us: u64,
    /// Age of the last reply, microseconds.
    pub last_pckt_us: u64,
    /// Loss percentage scaled by 1000.
    pub packet_loss_x100_000: u32,
    pub packets_lost: u64,
    pub packets_recv: u64,
}

/// In-flight probes older than this count as lost for the loss figure.
pub open spec fn loss_inflight_window() -> int {
    300000
}

/// Replies within this window count as received for the loss figure.
pub open spec fn loss_recv_window() -> int {
    1000000
}

impl Destination {
    /// The statistics one refresh derives from this destination: the loss
    /// figure weighs probes stuck past 300 ms against replies of the last
    /// second, biased a tenth of a packet toward zero; the mean round trip
    /// runs over five intervals or one refresh, whichever is longer.
    pub fn refresh_stats(&self, now_us: u64, refresh_us: u64, last_refresh_us: u64, uptime_us: u64, forget_recv_us: u64)
        -> (r: RefreshStats)
        requires
            self.inflight_packets@.len() <= 0x10000000,
            self.recv_packets@.len() <= 0x10000000,
            self.lost_packets@.len() <= 0x10000000,
            self.interval <= 0x100000000,
        ensures
            r.inflight_count == self.inflight_packets@.len(),
            r.packets_lost == inflight_after_of(
                self.inflight_packets@,
                now_us as int,
                loss_inflight_window(),
                self.inflight_packets@.len() as int,
            ).len() + self.lost_packets@.len(),
            r.packets_recv == recv_last_of(
                self.recv_packets@,
                now_us as int,
                loss_recv_window(),
                self.recv_packets@.len() as int,
            ).len(),
            r.packet_loss_x100_000 == 1000000 * r.packets_lost / (10 * (r.packets_lost
                + r.packets_recv) + 1),
            ({
                let window = if forget_recv_us <= uptime_us {
                    forget_recv_us as int
                } else {
                    uptime_us as int
                };
                r.recv_per_sec_x1000 == if window > 0 {
                    (self.recv_packets@.len() * 1000000000) as int / window
                } else {
                    0int
                }
            }),
            ({
                let avg_window = if self.interval * 5 >= refresh_us {
                    (self.interval * 5) as int
                } else {
                    refresh_us as int
                };
                let f = recv_last_of(
                    self.recv_packets@,
                    now_us as int,
                    avg_window,
                    self.recv_packets@.len() as int,
                );
                let cnt = if f.len() == 0 {
                    1int
                } else {
                    f.len() as int
                };
                r.avg_time_us == if self.recv_packets@.len() == 0 {
                    0int
                } else {
                    rtt_sum(f, f.len() as int) / cnt
                }
            }),
            r.last_pckt_us == (if self.recv_packets@.len() > 0 {
                sat_sub(now_us as int, self.recv_packets@.last().sent as int)
            } else {
                sat_sub(now_us as int, last_refresh_us as int)
            }),
    {
        let inflight_count = self.inflight_packets.len();
        let inflight_long = self.inflight_after(now_us, 300000).len() as u64;
        proof {
            lemma_filter_len_bound_inflight(
                self.inflight_packets@,
                now_us as int,
                loss_inflight_window(),
                self.inflight_packets@.len() as int,
            );
            lemma_filter_len_bound_recv(
                self.recv_packets@,
                now_us as int,
                loss_recv_window(),
                self.recv_packets@.len() as int,
            );
        }
        let packets_lost = inflight_long + self.lost_packets.len() as u64;
        let packets_recv = self.received_last(now_us, 1000000).len() as u64;
        proof {
            assert(1000000 * packets_lost <= 1000000 * 0x20000000) by (nonlinear_arith)
                requires
                    0 <= packets_lost <= 0x20000000,
            ;
            assert(1000000 * packets_lost / (10 * (packets_lost + packets_recv) + 1) <= 100000)
                by (nonlinear_arith)
                requires
                    packets_lost >= 0,
                    packets_recv >= 0,
            ;
        }
        let packet_loss_x100_000 = (1000000 * packets_lost / (10 * (packets_lost + packets_recv)
            + 1)) as u32;
        let window: u64 = if forget_recv_us <= uptime_us {
            forget_recv_us
        } else {
            uptime_us
        };
        let recv_per_sec_x1000: u64 = if window > 0 {
            ((self.recv_packets.len() as u128) * 1000000000u128 / (window as u128)) as u64
        } else {
            0
        };
        proof {
            assert(self.recv_packets@.len() * 1000000000 <= 0x10000000 * 1000000000)
                by (nonlinear_arith)
                requires
                    self.recv_packets@.len() <= 0x10000000,
            ;
            if window > 0 {
                assert((self.recv_packets@.len() * 1000000000) as int / (window as int)
                    <= self.recv_packets@.len() * 1000000000) by (nonlinear_arith)
                    requires
                        window >= 1,
                        self.recv_packets@.len() * 1000000000 >= 0,
                ;
            }
        }
        let avg_window: u64 = if self.interval * 5 >= refresh_us {
            self.interval * 5
        } else {
            refresh_us
        };
        let avg_time_us: u64 = match self.mean_recv_time(now_us, avg_window) {
            Some(v) => v,
            None => 0,
        };
        let last_pckt_us: u64 = if self.recv_packets.len() > 0 {
            let p = self.recv_packets[self.recv_packets.len() - 1];
            if now_us >= p.sent {
                now_us - p.sent
            } else {
                0
            }
        } else {
            if now_us >= last_refresh_us {
                now_us - last_refresh_us
            } else {
                0
            }
        };
        RefreshStats {
            inflight_count,
            recv_per_sec_x1000,
            avg_time_us,
            last_pckt_us,
            packet_loss_x100_000,
            packets_lost,
            packets_recv,
        }
    }
}

proof fn lemma_filter_len_bound_inflight(s: Seq<PacketSent>, now: int, wait: int, n: int)
    requires
        0 <= n <= s.len(),
    ensures
        inflight_after_of(s, now, wait, n).len() <= n,
    decreases n,
{
    if n > 0 {
        lemma_filter_len_bound_inflight(s, now, wait, n - 1);
    }
}

proof fn lemma_filter_len_bound_recv(s: Seq<PacketSent>, now: int, wait: int, n: int)
    requires
        0 <= n <= s.len(),
    ensures
        recv_last_of(s, now, wait, n).len() <= n,
    decreases n,
{
    if n > 0 {
        lemma_filter_len_bound_recv(s, now, wait, n - 1);
    }
}

} // verus!
