//! The rolling window a viewer keeps per followed address: latencies and
//! loss, capped to a sample budget, fed from decoded stats datagrams.

use vstd::prelude::*;
use crate::udp_comm::UdpStats;

verus! {

/// Latency samples capped to half a second for display.
pub open spec fn lat_cap(v: u32) -> u32 {
    if v > 500000 {
        500000u32
    } else {
        v
    }
}

/// The capped latencies of the first `n` stats matching the address.
pub open spec fn matched_lat(stats: Seq<UdpStats>, addr: Seq<char>, n: int) -> Seq<u32>
    decreases n,
{
    if n <= 0 {
        Seq::empty()
    } else {
        matched_lat(stats, addr, n - 1) + (if stats[n - 1].addr@ == addr {
            seq![lat_cap(stats[n - 1].avg_time_us)]
        } else {
            Seq::empty()
        })
    }
}

/// The loss figures of the first `n` stats matching the address.
pub open spec fn matched_loss(stats: Seq<UdpStats>, addr: Seq<char>, n: int) -> Seq<u32>
    decreases n,
{
    if n <= 0 {
        Seq::empty()
    } else {
        matched_loss(stats, addr, n - 1) + (if stats[n - 1].addr@ == addr {
            seq![stats[n - 1].packet_loss_x100_000]
        } else {
            Seq::empty()
        })
    }
}

/// The rolling latency and loss window for one followed address.
#[derive(Debug)]
pub struct LatencyGraph {
    /// How many samples the window may hold.
    pub samples: usize,
    pub latency_us: Vec<u32>,
    pub packet_loss_x100_000: Vec<u32>,
    /// Monotonic stamp of the last change, microseconds.
    pub current: u64,
    pub display_address: String,
}

pub open spec fn graph_wf(g: LatencyGraph) -> bool {
    &&& g.latency_us@.len() == g.packet_loss_x100_000@.len()
    &&& g.samples >= 1
}

impl LatencyGraph {
    pub fn new(display_address: &str, samples: usize, now_us: u64) -> (r: Self)
        requires
            samples >= 1,
        ensures
            graph_wf(r),
            r.samples == samples,
            r.latency_us@.len() == 0,
            r.packet_loss_x100_000@.len() == 0,
            r.current == now_us,
            r.display_address@ == display_address@,
    {
        Self {
            latency_us: Vec::new(),
            packet_loss_x100_000: Vec::new(),
            current: now_us,
            display_address: display_address.to_owned(),
            samples,
        }
    }

    /// Feeds one refresh of stats: matching samples join the window, the
    /// oldest leave once the budget is met, and the change stamp moves when
    /// anything happened or a second has passed.
    pub fn update(&mut self, now_us: u64, stats: &Vec<UdpStats>) -> (r: bool)
        requires
            graph_wf(*old(self)),
        ensures
            graph_wf(*final(self)),
            ({
                let m = matched_lat(stats@, old(self).display_address@, stats@.len() as int);
                let lat1 = old(self).latency_us@ + m;
                let loss1 = old(self).packet_loss_x100_000@ + matched_loss(
                    stats@,
                    old(self).display_address@,
                    stats@.len() as int,
                );
                let total = lat1.len() as int;
                let drop = if total >= old(self).samples {
                    total - old(self).samples + 1
                } else {
                    0
                };
                &&& final(self).latency_us@ == lat1.skip(drop)
                &&& final(self).packet_loss_x100_000@ == loss1.skip(drop)
                &&& r == (m.len() > 0 || total >= old(self).samples || old(self).current + 1000000
                    < now_us)
                &&& final(self).current == if r {
                    now_us
                } else {
                    old(self).current
                }
                &&& final(self).samples == old(self).samples
                &&& final(self).display_address@ == old(self).display_address@
            }),
    {
        let mut modified = false;
        let n = stats.len();
        let mut i: usize = 0;
        while i < n
            invariant
                graph_wf(*self),
                i <= n,
                n == stats@.len(),
                self.samples == old(self).samples,
                self.display_address@ == old(self).display_address@,
                self.current == old(self).current,
                self.latency_us@ == old(self).latency_us@ + matched_lat(
                    stats@,
                    old(self).display_address@,
                    i as int,
                ),
                self.packet_loss_x100_000@ == old(self).packet_loss_x100_000@ + matched_loss(
                    stats@,
                    old(self).display_address@,
                    i as int,
                ),
                modified == (matched_lat(stats@, old(self).display_address@, i as int).len() > 0),
            decreases n - i,
        {
            let s = &stats[i];
            if s.addr == self.display_address {
                let capped: u32 = if s.avg_time_us > 500000 {
                    500000
                } else {
                    s.avg_time_us
                };
                self.latency_us.push(capped);
                self.packet_loss_x100_000.push(s.packet_loss_x100_000);
                modified = true;
            }
            proof {
                assert(self.latency_us@ =~= old(self).latency_us@ + matched_lat(
                    stats@,
                    old(self).display_address@,
                    i + 1,
                ));
                assert(self.packet_loss_x100_000@ =~= old(self).packet_loss_x100_000@
                    + matched_loss(stats@, old(self).display_address@, i + 1));
            }
            i += 1;
        }
        let ghost lat1 = self.latency_us@;
        let ghost loss1 = self.packet_loss_x100_000@;
        let cur_len = self.latency_us.len();
        proof {
            assert(lat1.len() == cur_len);
        }
        let mut dropped: usize = 0;
        while self.latency_us.len() >= self.samples
            invariant
                graph_wf(*self),
                self.samples == old(self).samples,
                self.display_address@ == old(self).display_address@,
                self.current == old(self).current,
                dropped <= lat1.len(),
                lat1.len() <= usize::MAX,
                modified == (matched_lat(stats@, old(self).display_address@, stats@.len() as int).len()
                    > 0 || dropped > 0),
                dropped <= (if lat1.len() >= old(self).samples {
                    lat1.len() - old(self).samples + 1
                } else {
                    0int
                }),
                self.latency_us@ == lat1.skip(dropped as int),
                self.packet_loss_x100_000@ == loss1.skip(dropped as int),
                lat1.len() == loss1.len(),
            decreases self.latency_us@.len(),
        {
            proof {
                assert(dropped < lat1.len());
            }
            self.latency_us.remove(0);
            self.packet_loss_x100_000.remove(0);
            proof {
                assert(self.latency_us@ =~= lat1.skip(dropped + 1));
                assert(self.packet_loss_x100_000@ =~= loss1.skip(dropped + 1));
            }
            dropped += 1;
            modified = true;
        }
        proof {
            let total = lat1.len() as int;
            let want = if total >= old(self).samples {
                total - old(self).samples + 1
            } else {
                0int
            };
            assert(dropped == want);
        }
        if now_us > self.current && now_us - self.current > 1000000 {
            modified = true;
        }
        if modified {
            self.current = now_us;
        }
        modified
    }
}

} // verus!
