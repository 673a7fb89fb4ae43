use vstd::prelude::*;

use crate::error::ScanError;
use crate::frames;
use crate::host::Host;
use crate::net::IpAddress;
use crate::range::{cap_u64, IpCollection};
use crate::timer::sat_add;

verus! {

/// The floor of the routed scan window, in nanoseconds: 200 ms.
pub const ROUTED_MIN_SCAN_NANOS: u64 = 200_000_000;

/// The ceiling of the routed scan window, in nanoseconds: 3 s.
pub const ROUTED_MAX_SCAN_NANOS: u64 = 3_000_000_000;

/// The layer-three discovery state machine: one SYN per target, replies
/// correlated by source address and acknowledged sequence number.
#[derive(Debug)]
pub struct RoutedScan {
    pub src_v4: Option<u32>,
    pub src_v6: Option<u128>,
    pub src_port: u16,
    pub ips: IpCollection,
    /// Targets that answered, each with its reply round trips in
    /// arrival order; change it only through `on_segment`.
    pub responded: Vec<(IpAddress, Vec<u64>)>,
    /// Send times keyed by target and sequence number.
    pub rtt_map: Vec<(IpAddress, u32, u64)>,
}

/// The first responded entry for this source, or -1.
pub open spec fn find_resp_index(m: Seq<(IpAddress, Vec<u64>)>, ip: IpAddress, i: int) -> int
    decreases m.len() - i,
{
    if i < 0 || i >= m.len() {
        -1
    } else if m[i].0 == ip {
        i
    } else {
        find_resp_index(m, ip, i + 1)
    }
}

proof fn lemma_find_resp_from(m: Seq<(IpAddress, Vec<u64>)>, ip: IpAddress, j: int, i: int)
    requires
        0 <= j <= i <= m.len(),
        forall|k: int| j <= k < i ==> (#[trigger] m[k]).0 != ip,
        i == m.len() || m[i].0 == ip,
    ensures
        find_resp_index(m, ip, j) == if i == m.len() {
            -1int
        } else {
            i
        },
    decreases i - j,
{
    if j < i {
        lemma_find_resp_from(m, ip, j + 1, i);
    }
}

/// The first outstanding probe entry for this target and sequence
/// number, or -1.
pub open spec fn find_probe_index(m: Seq<(IpAddress, u32, u64)>, ip: IpAddress, seq: u32, i: int) -> int
    decreases m.len() - i,
{
    if i < 0 || i >= m.len() {
        -1
    } else if m[i].0 == ip && m[i].1 == seq {
        i
    } else {
        find_probe_index(m, ip, seq, i + 1)
    }
}

proof fn lemma_find_probe_from(m: Seq<(IpAddress, u32, u64)>, ip: IpAddress, seq: u32, j: int, i: int)
    requires
        0 <= j <= i <= m.len(),
        forall|k: int| j <= k < i ==> !((#[trigger] m[k]).0 == ip && m[k].1 == seq),
        i == m.len() || (m[i].0 == ip && m[i].1 == seq),
    ensures
        find_probe_index(m, ip, seq, j) == if i == m.len() {
            -1int
        } else {
            i
        },
    decreases i - j,
{
    if j < i {
        lemma_find_probe_from(m, ip, seq, j + 1, i);
    }
}

/// The sequence number a reply acknowledges: its ack minus one,
/// wrapping below zero.
pub open spec fn spec_acked_seq(ack: int) -> u32 {
    if ack == 0 {
        u32::MAX
    } else {
        (ack - 1) as u32
    }
}

/// The sample window kept of a reply list: its most recent entries, at
/// most `RTT_WINDOW` of them.
pub open spec fn spec_rtt_window(s: Seq<u64>) -> Seq<u64> {
    if s.len() <= crate::host::RTT_WINDOW {
        s
    } else {
        s.subrange(s.len() - crate::host::RTT_WINDOW, s.len() as int)
    }
}

impl RoutedScan {
    pub open spec fn wf(&self) -> bool {
        self.ips.wf()
    }

    /// Sets the scan up; an interface with no address of either family
    /// cannot source probes.
    pub fn new(src_v4: Option<u32>, src_v6: Option<u128>, src_port: u16, ips: IpCollection) -> (r:
        Result<RoutedScan, ScanError>)
        requires
            ips.wf(),
        ensures
            r is Ok <==> (src_v4 is Some || src_v6 is Some),
            r is Err ==> r->Err_0 == ScanError::NoViableInterface,
            r is Ok ==> r->Ok_0.wf() && r->Ok_0.src_v4 == src_v4 && r->Ok_0.src_v6 == src_v6
                && r->Ok_0.src_port == src_port && r->Ok_0.responded@.len() == 0,
    {
        if src_v4.is_none() && src_v6.is_none() {
            return Err(ScanError::NoViableInterface);
        }
        Ok(
            RoutedScan {
                src_v4,
                src_v6,
                src_port,
                ips,
                responded: Vec::new(),
                rtt_map: Vec::new(),
            },
        )
    }

    /// Builds the SYN probe for one target with the given sequence
    /// number; fails when the interface has no address of its family.
    pub fn make_probe(&self, dst: &IpAddress, seq: u32) -> (r: Result<Vec<u8>, ScanError>)
        ensures
            r is Ok <==> (*dst is V4 && self.src_v4 is Some) || (*dst is V6 && self.src_v6
                is Some),
            r is Ok ==> r->Ok_0@ == frames::spec_tcp_syn_packet(
                if *dst is V4 {
                    IpAddress::V4(self.src_v4->0)
                } else {
                    IpAddress::V6(self.src_v6->0)
                },
                *dst,
                self.src_port,
                443,
                seq,
            ),
            r is Err ==> r->Err_0 == ScanError::Send,
    {
        match dst {
            IpAddress::V4(_) => {
                match self.src_v4 {
                    Some(s) => frames::create_tcp_syn(
                        &IpAddress::V4(s),
                        dst,
                        self.src_port,
                        443,
                        seq,
                    ),
                    None => Err(ScanError::Send),
                }
            },
            IpAddress::V6(_) => {
                match self.src_v6 {
                    Some(s) => frames::create_tcp_syn(
                        &IpAddress::V6(s),
                        dst,
                        self.src_port,
                        443,
                        seq,
                    ),
                    None => Err(ScanError::Send),
                }
            },
        }
    }

    /// Remembers when a probe left, keyed by its target and sequence.
    pub fn record_sent(&mut self, target: &IpAddress, seq: u32, now: u64)
        requires
            old(self).wf(),
        ensures
            final(self).wf(),
            final(self).responded@ == old(self).responded@,
            final(self).rtt_map@ == old(self).rtt_map@.push((*target, seq, now)),
            final(self).ips == old(self).ips,
            final(self).src_v4 == old(self).src_v4,
            final(self).src_v6 == old(self).src_v6,
            final(self).src_port == old(self).src_port,
    {
        self.rtt_map.push((*target, seq, now));
    }

    /// Takes one captured TCP segment from `src`: ignored unless the
    /// source is a target; otherwise the host is booked, and when the
    /// acknowledged sequence matches an outstanding probe, the round
    /// trip is appended. The result says whether the source is newly
    /// seen — the caller then notifies the resolver.
    pub fn on_segment(&mut self, src: &IpAddress, bytes: &Vec<u8>, now: u64) -> (is_new: bool)
        requires
            old(self).wf(),
        ensures
            final(self).wf(),
            final(self).ips == old(self).ips,
            final(self).src_v4 == old(self).src_v4,
            final(self).src_v6 == old(self).src_v6,
            final(self).src_port == old(self).src_port,
            !old(self).ips.spec_contains(*src) ==> !is_new && *final(self) == *old(self),
            is_new == (old(self).ips.spec_contains(*src) && find_resp_index(
                old(self).responded@,
                *src,
                0,
            ) < 0),
            old(self).responded@.len() <= final(self).responded@.len() <= old(
                self,
            ).responded@.len() + 1,
            // the source's entry is appended when new, and the probe
            // that the segment acknowledges is consumed, its round
            // trip going to that entry
            old(self).ips.spec_contains(*src) ==> ({
                let w0 = find_resp_index(old(self).responded@, *src, 0);
                let widx = if w0 >= 0 {
                    w0
                } else {
                    old(self).responded@.len() as int
                };
                let p = if bytes@.len() >= 20 {
                    find_probe_index(
                        old(self).rtt_map@,
                        *src,
                        spec_acked_seq(frames::be_val(bytes@.subrange(8, 12))),
                        0,
                    )
                } else {
                    -1int
                };
                &&& final(self).responded@.len() == (if w0 >= 0 {
                    old(self).responded@.len() as int
                } else {
                    old(self).responded@.len() + 1int
                })
                &&& (forall|k: int|
                    0 <= k < old(self).responded@.len() && k != widx
                        ==> #[trigger] final(self).responded@[k] == old(self).responded@[k])
                &&& final(self).responded@[widx].0 == *src
                &&& final(self).responded@[widx].1@ == ({
                    let base = if w0 >= 0 {
                        old(self).responded@[w0].1@
                    } else {
                        Seq::<u64>::empty()
                    };
                    if p >= 0 {
                        base.push(crate::timer::sat_sub(now, old(self).rtt_map@[p].2))
                    } else {
                        base
                    }
                })
                &&& final(self).rtt_map@ == (if p >= 0 {
                    old(self).rtt_map@.remove(p)
                } else {
                    old(self).rtt_map@
                })
            }),
    {
        if !self.ips.contains(src) {
            proof {
                assert(!old(self).ips.spec_contains(*src));
            }
            return false;
        }
        let found = find_responded(&self.responded, src);
        let is_new = found.is_none();
        let ghost w0 = find_resp_index(old(self).responded@, *src, 0);
        let idx = match found {
            Some(i) => i,
            None => {
                self.responded.push((*src, Vec::new()));
                proof {
                    assert(forall|k: int|
                        0 <= k < old(self).responded@.len() ==> self.responded@[k]
                            == #[trigger] old(self).responded@[k]);
                }
                self.responded.len() - 1
            },
        };
        // correlate by the acknowledged sequence number
        match frames::tcp_ack_number(bytes) {
            Some(ack) => {
                let seq: u32 = if ack == 0 {
                    u32::MAX
                } else {
                    ack - 1
                };
                proof {
                    assert(seq == spec_acked_seq(frames::be_val(bytes@.subrange(8, 12))));
                }
                match take_rtt(&mut self.rtt_map, src, seq) {
                    Some(t0) => {
                        let rtt = if now >= t0 {
                            now - t0
                        } else {
                            0
                        };
                        let ghost pre = self.responded@;
                        let (ip, mut lat) = self.responded.remove(idx);
                        lat.push(rtt);
                        self.responded.insert(idx, (ip, lat));
                        proof {
                            assert(self.responded@.len() == pre.len());
                            assert(forall|k: int|
                                0 <= k < pre.len() && k != idx ==> self.responded@[k]
                                    == #[trigger] pre[k]);
                        }
                    },
                    None => {},
                }
            },
            None => {},
        }
        is_new
    }

    /// How many targets have answered.
    pub fn responded_count(&self) -> (r: usize)
        ensures
            r == self.responded@.len(),
    {
        self.responded.len()
    }

    /// Whether every target has answered.
    pub fn all_responded(&self) -> (r: bool)
        requires
            self.wf(),
        ensures
            r == (cap_u64(self.ips.size()) == self.responded@.len()),
    {
        let total = self.ips.len();
        total == (self.responded.len() as u64)
    }

    /// Builds the result hosts: one per responded target, carrying its
    /// captured round trips.
    pub fn finish(self) -> (r: Vec<Host>)
        requires
            self.wf(),
        ensures
            r@.len() == self.responded@.len(),
            forall|i: int| 0 <= i < r@.len() ==> (#[trigger] r@[i]).wf(),
            forall|i: int|
                0 <= i < r@.len() ==> (#[trigger] r@[i]).primary_ip == self.responded@[i].0,
            forall|i: int| 0 <= i < r@.len() ==> (#[trigger] r@[i]).ips@ == seq![self.responded@[i].0],
            forall|i: int|
                0 <= i < r@.len() ==> (#[trigger] r@[i]).rtts() == spec_rtt_window(
                    self.responded@[i].1@,
                ),
            forall|i: int|
                0 <= i < r@.len() ==> (#[trigger] r@[i]).hostname is None && r@[i].mac is None,
    {
        let ghost g = self.responded@;
        let mut out: Vec<Host> = Vec::new();
        let mut rest = self.responded;
        let n = rest.len();
        let mut i: usize = 0;
        proof {
            assert(rest@ =~= g.subrange(0, n as int));
        }
        while i < n
            invariant
                0 <= i <= n == g.len(),
                rest@ =~= g.subrange(i as int, n as int),
                out@.len() == i,
                forall|k: int| 0 <= k < out@.len() ==> (#[trigger] out@[k]).wf(),
                forall|k: int| 0 <= k < out@.len() ==> (#[trigger] out@[k]).primary_ip == g[k].0,
                forall|k: int| 0 <= k < out@.len() ==> (#[trigger] out@[k]).ips@ == seq![g[k].0],
                forall|k: int|
                    0 <= k < out@.len() ==> (#[trigger] out@[k]).rtts() == spec_rtt_window(
                        g[k].1@,
                    ),
                forall|k: int|
                    0 <= k < out@.len() ==> (#[trigger] out@[k]).hostname is None && out@[k].mac
                        is None,
            decreases n - i,
        {
            let (ip, lat) = rest.remove(0);
            proof {
                assert(g.subrange(i as int, n as int)[0] == g[i as int]);
                assert(rest@ =~= g.subrange((i + 1) as int, n as int));
            }
            let mut host = Host::new(ip);
            proof {
                assert(host.ips@ == seq![ip]);
            }
            host.set_rtts(lat);
            out.push(host);
            i = i + 1;
        }
        out
    }
}

/// The soft deadline of a routed scan: 200 ms plus half a millisecond
/// per target, capped at 3 s, from `now`.
pub fn calculate_deadline(now: u64, targets: u64) -> (r: u64)
    ensures
        r == sat_add(
            now,
            ({
                let variable = (targets / 2) * 1_000_000;
                if ROUTED_MIN_SCAN_NANOS + variable > ROUTED_MAX_SCAN_NANOS {
                    ROUTED_MAX_SCAN_NANOS as int
                } else {
                    ROUTED_MIN_SCAN_NANOS + variable
                }
            }) as u64,
        ),
{
    let half_ms: u64 = targets / 2;
    let duration: u64 = if half_ms > 2_800 {
        ROUTED_MAX_SCAN_NANOS
    } else {
        ROUTED_MIN_SCAN_NANOS + half_ms * 1_000_000
    };
    proof {
        if half_ms > 2_800 {
            assert(ROUTED_MIN_SCAN_NANOS + (targets / 2) * 1_000_000 > ROUTED_MAX_SCAN_NANOS)
                by (nonlinear_arith)
                requires
                    targets / 2 > 2_800,
                    ROUTED_MIN_SCAN_NANOS == 200_000_000,
                    ROUTED_MAX_SCAN_NANOS == 3_000_000_000,
            ;
        }
    }
    now.saturating_add(duration)
}

fn find_responded(entries: &Vec<(IpAddress, Vec<u64>)>, key: &IpAddress) -> (r: Option<usize>)
    ensures
        r is Some <==> find_resp_index(entries@, *key, 0) >= 0,
        r is Some ==> r->0 == find_resp_index(entries@, *key, 0) && r->0 < entries@.len()
            && entries@[r->0 as int].0 == *key,
        r is None ==> forall|k: int| 0 <= k < entries@.len() ==> (#[trigger] entries@[k]).0 != *key,
{
    let n = entries.len();
    let mut i: usize = 0;
    while i < n
        invariant
            0 <= i <= n == entries@.len(),
            forall|k: int| 0 <= k < i ==> (#[trigger] entries@[k]).0 != *key,
        decreases n - i,
    {
        if entries[i].0 == *key {
            proof {
                lemma_find_resp_from(entries@, *key, 0, i as int);
            }
            return Some(i);
        }
        i = i + 1;
    }
    proof {
        lemma_find_resp_from(entries@, *key, 0, n as int);
    }
    None
}

/// Takes the send time recorded for a target and sequence pair,
/// consuming the first matching entry.
fn take_rtt(entries: &mut Vec<(IpAddress, u32, u64)>, key: &IpAddress, seq: u32) -> (r: Option<
    u64,
>)
    ensures
        ({
            let p = find_probe_index(old(entries)@, *key, seq, 0);
            if p >= 0 {
                r == Some(old(entries)@[p].2) && final(entries)@ == old(entries)@.remove(p)
            } else {
                r is None && final(entries)@ == old(entries)@
            }
        }),
{
    let n = entries.len();
    let mut i: usize = 0;
    while i < n
        invariant
            0 <= i <= n == entries@.len(),
            entries@ == old(entries)@,
            forall|k: int| 0 <= k < i ==> !((#[trigger] entries@[k]).0 == *key && entries@[k].1
                == seq),
        decreases n - i,
    {
        if entries[i].0 == *key && entries[i].1 == seq {
            proof {
                lemma_find_probe_from(old(entries)@, *key, seq, 0, i as int);
            }
            let (_, _, t) = entries.remove(i);
            return Some(t);
        }
        i = i + 1;
    }
    proof {
        lemma_find_probe_from(old(entries)@, *key, seq, 0, n as int);
    }
    None
}

} // verus!
