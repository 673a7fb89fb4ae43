use vstd::prelude::*;

use crate::error::ScanError;
use crate::frames;
use crate::host::Host;
use crate::net::{IpAddress, Mac};
use crate::sender::SenderConfig;
use crate::timer::ScanTimer;

verus! {

/// The layer-two discovery state machine: hosts keyed by source MAC,
/// probe send times per target, the shared timer. The caller pumps
/// captured frames in and carries probes and notifications out.
#[derive(Debug)]
pub struct LocalScan {
    pub cfg: SenderConfig,
    pub timer: ScanTimer,
    /// Whether this scan came from the `lan` keyword; only then are
    /// IPv6 neighbours harvested from unknown hardware addresses.
    pub lan_scan: bool,
    /// Hosts keyed by source hardware address; change it only through
    /// `on_frame`.
    pub hosts: Vec<(Mac, Host)>,
    /// Probe send times by IPv4 target.
    pub rtt_v4: Vec<(u32, u64)>,
    /// Probe send times by IPv6 target.
    pub rtt_v6: Vec<(u128, u64)>,
}

/// The first host entry under this hardware address, or -1.
pub open spec fn find_mac_index(m: Seq<(Mac, Host)>, key: Mac, i: int) -> int
    decreases m.len() - i,
{
    if i < 0 || i >= m.len() {
        -1
    } else if m[i].0 == key {
        i
    } else {
        find_mac_index(m, key, i + 1)
    }
}

proof fn lemma_find_mac_from(m: Seq<(Mac, Host)>, key: Mac, j: int, i: int)
    requires
        0 <= j <= i <= m.len(),
        forall|k: int| j <= k < i ==> (#[trigger] m[k]).0 != key,
        i == m.len() || m[i].0 == key,
    ensures
        find_mac_index(m, key, j) == if i == m.len() {
            -1int
        } else {
            i
        },
    decreases i - j,
{
    if j < i {
        lemma_find_mac_from(m, key, j + 1, i);
    }
}

/// The first probe entry for this IPv4 target, or -1.
pub open spec fn find_u32_index(m: Seq<(u32, u64)>, key: u32, i: int) -> int
    decreases m.len() - i,
{
    if i < 0 || i >= m.len() {
        -1
    } else if m[i].0 == key {
        i
    } else {
        find_u32_index(m, key, i + 1)
    }
}

proof fn lemma_find_u32_from(m: Seq<(u32, u64)>, key: u32, j: int, i: int)
    requires
        0 <= j <= i <= m.len(),
        forall|k: int| j <= k < i ==> (#[trigger] m[k]).0 != key,
        i == m.len() || m[i].0 == key,
    ensures
        find_u32_index(m, key, j) == if i == m.len() {
            -1int
        } else {
            i
        },
    decreases i - j,
{
    if j < i {
        lemma_find_u32_from(m, key, j + 1, i);
    }
}

/// The first probe entry for this IPv6 target, or -1.
pub open spec fn find_u128_index(m: Seq<(u128, u64)>, key: u128, i: int) -> int
    decreases m.len() - i,
{
    if i < 0 || i >= m.len() {
        -1
    } else if m[i].0 == key {
        i
    } else {
        find_u128_index(m, key, i + 1)
    }
}

proof fn lemma_find_u128_from(m: Seq<(u128, u64)>, key: u128, j: int, i: int)
    requires
        0 <= j <= i <= m.len(),
        forall|k: int| j <= k < i ==> (#[trigger] m[k]).0 != key,
        i == m.len() || m[i].0 == key,
    ensures
        find_u128_index(m, key, j) == if i == m.len() {
            -1int
        } else {
            i
        },
    decreases i - j,
{
    if j < i {
        lemma_find_u128_from(m, key, j + 1, i);
    }
}

/// A frame of our own sending, echoed back by the capture.
pub open spec fn spec_own_echo(cfg: SenderConfig, bytes: Seq<u8>) -> bool {
    frames::spec_frame_src_mac(bytes) is Some && cfg.local_mac == Some(
        frames::spec_frame_src_mac(bytes)->0,
    )
}

/// A frame the scan can book: a readable source hardware address that
/// is not our own, and a readable source address inside the scanned
/// subnets.
pub open spec fn spec_frame_accepted(cfg: SenderConfig, bytes: Seq<u8>) -> bool {
    &&& frames::spec_frame_src_mac(bytes) is Some
    &&& !spec_own_echo(cfg, bytes)
    &&& frames::spec_frame_src_ip(bytes) is Some
    &&& cfg.spec_in_subnet(frames::spec_frame_src_ip(bytes)->0)
}

/// The round trip a frame settles and what it leaves of the IPv4 probe
/// table: an ARP reply consumes its matching entry; an IPv6 frame sent
/// to a link-local destination reads its entry and keeps it, since more
/// replies may follow; anything else settles nothing.
pub open spec fn spec_rtt_sample(
    rtt4: Seq<(u32, u64)>,
    rtt6: Seq<(u128, u64)>,
    bytes: Seq<u8>,
    now: u64,
) -> (Option<u64>, Seq<(u32, u64)>) {
    if frames::spec_frame_ethertype(bytes) == Some(0x0806 as int) {
        match frames::spec_frame_src_ip(bytes) {
            Some(IpAddress::V4(v)) => {
                let w = find_u32_index(rtt4, v, 0);
                if w >= 0 {
                    (Some(crate::timer::sat_sub(now, rtt4[w].1)), rtt4.remove(w))
                } else {
                    (None, rtt4)
                }
            },
            _ => (None, rtt4),
        }
    } else if frames::spec_frame_ethertype(bytes) == Some(0x86dd as int) && bytes.len() >= 54 {
        let d = frames::be_val(bytes.subrange(38, 54)) as u128;
        if crate::net::spec_v6_is_unicast_link_local(d) {
            let w = find_u128_index(rtt6, d, 0);
            if w >= 0 {
                (Some(crate::timer::sat_sub(now, rtt6[w].1)), rtt4)
            } else {
                (None, rtt4)
            }
        } else {
            (None, rtt4)
        }
    } else {
        (None, rtt4)
    }
}

/// What booking one source address does to a host: the address joins
/// the set, an IPv4 source replaces an IPv6 primary, a settled round
/// trip enters the sample window, and everything else stays.
pub open spec fn spec_booked(h0: Host, h1: Host, ip: IpAddress, rtt: Option<u64>) -> bool {
    &&& h1.wf()
    &&& (forall|x: IpAddress| #[trigger] h1.ips@.contains(x) <==> h0.ips@.contains(x) || x == ip)
    &&& h1.primary_ip == (if ip is V4 && h0.primary_ip is V6 {
        ip
    } else {
        h0.primary_ip
    })
    &&& h1.hostname == h0.hostname
    &&& h1.mac == h0.mac
    &&& h1.vendor == h0.vendor
    &&& h1.ports@ == h0.ports@
    &&& h1.network_roles@ == h0.network_roles@
    &&& h1.rtts() == (match rtt {
        Some(s) => if h0.rtts().len() < crate::host::RTT_WINDOW {
            h0.rtts().push(s)
        } else {
            h0.rtts().push(s).drop_first()
        },
        None => h0.rtts(),
    })
}

impl LocalScan {
    pub open spec fn spec_hosts(&self) -> Seq<(Mac, Host)> {
        self.hosts@
    }

    pub open spec fn wf(&self) -> bool {
        &&& self.cfg.wf()
        &&& forall|i: int| 0 <= i < self.spec_hosts().len() ==> (#[trigger] self.spec_hosts()[i]).1.wf()
    }

    pub fn new(cfg: SenderConfig, timer: ScanTimer, lan_scan: bool) -> (r: LocalScan)
        requires
            cfg.wf(),
        ensures
            r.wf(),
            r.spec_hosts().len() == 0,
            r.cfg == cfg,
            r.timer == timer,
            r.lan_scan == lan_scan,
    {
        LocalScan { cfg, timer, lan_scan, hosts: Vec::new(), rtt_v4: Vec::new(), rtt_v6: Vec::new() }
    }

    pub fn host_count(&self) -> (r: usize)
        ensures
            r == self.spec_hosts().len(),
    {
        self.hosts.len()
    }

    /// Remembers when a probe for this target left, for the round-trip
    /// measurement when its answer arrives.
    pub fn record_sent(&mut self, target: &IpAddress, now: u64)
        requires
            old(self).wf(),
        ensures
            final(self).wf(),
            final(self).spec_hosts() == old(self).spec_hosts(),
            final(self).cfg == old(self).cfg,
            final(self).timer == old(self).timer,
            final(self).lan_scan == old(self).lan_scan,
            *target is V4 ==> final(self).rtt_v6@ == old(self).rtt_v6@ && ({
                let w = find_u32_index(old(self).rtt_v4@, target->V4_0, 0);
                if w >= 0 {
                    final(self).rtt_v4@ == old(self).rtt_v4@.remove(w).push((target->V4_0, now))
                } else {
                    final(self).rtt_v4@ == old(self).rtt_v4@.push((target->V4_0, now))
                }
            }),
            *target is V6 ==> final(self).rtt_v4@ == old(self).rtt_v4@ && ({
                let w = find_u128_index(old(self).rtt_v6@, target->V6_0, 0);
                if w >= 0 {
                    final(self).rtt_v6@ == old(self).rtt_v6@.remove(w).push((target->V6_0, now))
                } else {
                    final(self).rtt_v6@ == old(self).rtt_v6@.push((target->V6_0, now))
                }
            }),
    {
        match target {
            IpAddress::V4(v) => {
                assoc_put_u32(&mut self.rtt_v4, *v, now);
            },
            IpAddress::V6(v) => {
                assoc_put_u128(&mut self.rtt_v6, *v, now);
            },
        }
        proof {
            assert(self.hosts@ == old(self).hosts@);
            assert(self.cfg == old(self).cfg);
            assert forall|i: int| 0 <= i < self.spec_hosts().len() implies (
            #[trigger] self.spec_hosts()[i]).1.wf() by {
                assert(self.spec_hosts()[i] == old(self).spec_hosts()[i]);
            }
        }
    }

    /// Whether the loop should go on: not stopped, not expired, and
    /// targets still unanswered.
    pub fn should_continue(&self, stopped: bool, now: u64) -> (r: bool)
        requires
            self.cfg.targets_v4@.len() + self.cfg.targets_v6@.len() <= usize::MAX,
        ensures
            r == (!stopped && !self.timer.spec_is_expired(now) && self.cfg.targets_v4@.len()
                + self.cfg.targets_v6@.len() > self.spec_hosts().len()),
    {
        let not_stopped = !stopped;
        let time_left = !self.timer.is_expired(now);
        let work_remains = self.cfg.len() > self.hosts.len();
        not_stopped && time_left && work_remains
    }

    /// Takes one captured frame: drops echoes of our own probes and
    /// frames from outside the segment, measures the round trip, and
    /// books the host under its hardware address. The returned address,
    /// if any, is the frame's source and is new to its host — the
    /// caller forwards it to the resolver.
    pub fn on_frame(&mut self, bytes: &Vec<u8>, now: u64) -> (r: Result<
        Option<IpAddress>,
        ScanError,
    >)
        requires
            old(self).wf(),
        ensures
            final(self).wf(),
            final(self).cfg == old(self).cfg,
            final(self).lan_scan == old(self).lan_scan,
            old(self).spec_hosts().len() <= final(self).spec_hosts().len() <= old(
                self,
            ).spec_hosts().len() + 1,
            r is Err ==> *final(self) == *old(self) && r->Err_0 == ScanError::Decode,
            // a frame is refused exactly when its source cannot be
            // read, or lies outside the scanned subnets
            r is Err <==> (frames::spec_frame_src_mac(bytes@) is None || (!spec_own_echo(
                old(self).cfg,
                bytes@,
            ) && (frames::spec_frame_src_ip(bytes@) is None || !old(self).cfg.spec_in_subnet(
                frames::spec_frame_src_ip(bytes@)->0,
            )))),
            // echoes of our own probes are dropped untouched
            spec_own_echo(old(self).cfg, bytes@) ==> r is Ok && r->Ok_0 is None && *final(self)
                == *old(self),
            // an IPv6 neighbour from unknown hardware is dropped
            // untouched unless this is a LAN-wide scan
            spec_frame_accepted(old(self).cfg, bytes@) && frames::spec_frame_src_ip(bytes@)->0
                is V6 && !old(self).lan_scan && find_mac_index(
                old(self).spec_hosts(),
                frames::spec_frame_src_mac(bytes@)->0,
                0,
            ) < 0 ==> r is Ok && r->Ok_0 is None && *final(self) == *old(self),
            // every other accepted frame books its host
            ({
                let m = frames::spec_frame_src_mac(bytes@)->0;
                let ip = frames::spec_frame_src_ip(bytes@)->0;
                let w = find_mac_index(old(self).spec_hosts(), m, 0);
                let s = spec_rtt_sample(old(self).rtt_v4@, old(self).rtt_v6@, bytes@, now);
                spec_frame_accepted(old(self).cfg, bytes@) && !(ip is V6 && !old(self).lan_scan
                    && w < 0) ==> {
                    &&& r is Ok
                    &&& final(self).rtt_v4@ == s.1
                    &&& final(self).rtt_v6@ == old(self).rtt_v6@
                    &&& (w < 0 ==> {
                        // a first frame from this hardware address
                        // books a new host and restarts the silence
                        // clock
                        &&& final(self).spec_hosts().len() == old(self).spec_hosts().len() + 1
                        &&& (forall|k: int|
                            0 <= k < old(self).spec_hosts().len()
                                ==> #[trigger] final(self).spec_hosts()[k] == old(
                                self,
                            ).spec_hosts()[k])
                        &&& final(self).spec_hosts().last().0 == m
                        &&& ({
                            let h = final(self).spec_hosts().last().1;
                            &&& (forall|x: IpAddress| #[trigger] h.ips@.contains(x) <==> x == ip)
                            &&& h.primary_ip == ip
                            &&& h.hostname is None
                            &&& h.mac == Some(m)
                            &&& h.rtts() == (match s.0 {
                                Some(v) => seq![v],
                                None => Seq::<u64>::empty(),
                            })
                        })
                        &&& r->Ok_0 == Some(ip)
                        &&& final(self).timer.spec_last_seen() == now
                        &&& final(self).timer.spec_hard_deadline() == old(
                            self,
                        ).timer.spec_hard_deadline()
                        &&& final(self).timer.spec_min_runtime() == old(
                            self,
                        ).timer.spec_min_runtime()
                        &&& final(self).timer.spec_max_silence() == old(
                            self,
                        ).timer.spec_max_silence()
                    })
                    &&& (w >= 0 ==> {
                        // a frame from known hardware updates its host
                        // in place and notifies only a new address
                        &&& final(self).spec_hosts().len() == old(self).spec_hosts().len()
                        &&& (forall|k: int|
                            0 <= k < old(self).spec_hosts().len() && k != w
                                ==> #[trigger] final(self).spec_hosts()[k] == old(
                                self,
                            ).spec_hosts()[k])
                        &&& final(self).spec_hosts()[w].0 == m
                        &&& spec_booked(
                            old(self).spec_hosts()[w].1,
                            final(self).spec_hosts()[w].1,
                            ip,
                            s.0,
                        )
                        &&& r->Ok_0 == (if !old(self).spec_hosts()[w].1.ips@.contains(ip) {
                            Some(ip)
                        } else {
                            None::<IpAddress>
                        })
                        &&& final(self).timer == old(self).timer
                    })
                }
            }),
            // whatever was notified now stands in the book, under the
            // frame's hardware address
            r is Ok && r->Ok_0 is Some ==> Some(r->Ok_0->0) == frames::spec_frame_src_ip(bytes@)
                && exists|i: int|
                0 <= i < final(self).spec_hosts().len() && Some(
                    (#[trigger] final(self).spec_hosts()[i]).0,
                ) == frames::spec_frame_src_mac(bytes@) && final(self).spec_hosts()[i].1.ips
                    @.contains(r->Ok_0->0),
    {
        let ghost init = *self;
        let src_mac = match frames::frame_source_mac(bytes) {
            Some(m) => m,
            None => {
                return Err(ScanError::Decode);
            },
        };
        match self.cfg.local_mac {
            Some(local) => {
                if src_mac == local {
                    // our own transmission echoed back
                    return Ok(None);
                }
            },
            None => {},
        }
        let source_addr = match frames::get_ip_addr_from_eth(bytes) {
            Ok(a) => a,
            Err(e) => {
                return Err(e);
            },
        };
        if !self.cfg.is_addr_in_subnet(&source_addr) {
            return Err(ScanError::Decode);
        }
        // do not harvest IPv6 neighbours from unknown hardware unless
        // this is a LAN-wide scan
        let known = assoc_has_mac(&self.hosts, &src_mac);
        if source_addr.is_v6() && !self.lan_scan && !known {
            return Ok(None);
        }
        let ghost w0 = find_mac_index(init.spec_hosts(), src_mac, 0);
        let rtt = self.calculate_rtt(bytes, now);
        let ghost s = spec_rtt_sample(init.rtt_v4@, init.rtt_v6@, bytes@, now);
        let mut is_new_host = false;
        let idx = match assoc_find_mac(&self.hosts, &src_mac) {
            Some(i) => i,
            None => {
                is_new_host = true;
                self.timer.mark_seen(now);
                let host = Host::new(source_addr).with_mac(src_mac);
                self.hosts.push((src_mac, host));
                proof {
                    assert(forall|k: int|
                        0 <= k < init.spec_hosts().len() ==> self.spec_hosts()[k]
                            == #[trigger] init.spec_hosts()[k]);
                }
                self.hosts.len() - 1
            },
        };
        let ghost pre_hosts = self.hosts@;
        let (key, mut host) = self.hosts.remove(idx);
        let ghost h0 = host;
        match rtt {
            Some(sample) => {
                host.add_rtt(sample);
            },
            None => {},
        }
        let is_new_ip = host.observe_ip(source_addr);
        self.hosts.insert(idx, (key, host));
        proof {
            assert(forall|k: int|
                0 <= k < self.hosts@.len() && k != idx ==> self.hosts@[k] == #[trigger] pre_hosts[k]);
            assert(self.hosts@[idx as int].1.wf());
            assert(self.hosts@[idx as int].0 == src_mac);
            assert(self.hosts@[idx as int].1.ips@.contains(source_addr));
            if !is_new_host {
                assert(w0 == idx);
                assert(h0 == init.spec_hosts()[w0].1);
                assert(spec_booked(h0, host, source_addr, s.0));
            } else {
                assert(w0 < 0);
                assert(forall|x: IpAddress| #[trigger] host.ips@.contains(x) <==> x
                    == source_addr);
            }
        }
        if is_new_host || is_new_ip {
            Ok(Some(source_addr))
        } else {
            Ok(None)
        }
    }

    /// The round trip of an answer frame: an ARP reply consumes its
    /// probe entry; an IPv6 frame to our link-local address reads its
    /// entry but keeps it, since more replies may follow.
    fn calculate_rtt(&mut self, bytes: &Vec<u8>, now: u64) -> (r: Option<u64>)
        ensures
            final(self).cfg == old(self).cfg,
            final(self).timer == old(self).timer,
            final(self).lan_scan == old(self).lan_scan,
            final(self).spec_hosts() == old(self).spec_hosts(),
            final(self).rtt_v6@ == old(self).rtt_v6@,
            ({
                let s = spec_rtt_sample(old(self).rtt_v4@, old(self).rtt_v6@, bytes@, now);
                r == s.0 && final(self).rtt_v4@ == s.1
            }),
    {
        match frames::frame_ethertype(bytes) {
            Some(et) => {
                if et == 0x0806 {
                    match frames::get_ip_addr_from_eth(bytes) {
                        Ok(IpAddress::V4(v)) => {
                            match assoc_take_u32(&mut self.rtt_v4, v) {
                                Some(t0) => Some(sat_sub_u64(now, t0)),
                                None => None,
                            }
                        },
                        _ => None,
                    }
                } else if et == 0x86dd {
                    match frames::frame_ipv6_dst(bytes) {
                        Some(dst) => {
                            proof {
                                frames::lemma_be_val_bound(bytes@.subrange(38, 54));
                            }
                            if crate::net::v6_is_unicast_link_local(dst) {
                                match assoc_get_u128(&self.rtt_v6, dst) {
                                    Some(t0) => Some(sat_sub_u64(now, t0)),
                                    None => None,
                                }
                            } else {
                                None
                            }
                        },
                        None => None,
                    }
                } else {
                    None
                }
            },
            None => None,
        }
    }

    /// Hands the collected hosts out, ending the scan.
    pub fn finish(self) -> (r: Vec<Host>)
        requires
            self.wf(),
        ensures
            r@.len() == self.spec_hosts().len(),
            forall|i: int| 0 <= i < r@.len() ==> #[trigger] r@[i] == self.spec_hosts()[i].1,
            forall|i: int| 0 <= i < r@.len() ==> (#[trigger] r@[i]).wf(),
    {
        let ghost g = self.spec_hosts();
        let mut out: Vec<Host> = Vec::new();
        let mut rest = self.hosts;
        let ghost all = rest@;
        let n = rest.len();
        let mut i: usize = 0;
        proof {
            assert(all == g);
            assert forall|k: int| 0 <= k < all.len() implies (#[trigger] all[k]).1.wf() by {
                assert(all[k] == g[k]);
            }
            assert(rest@ =~= all.subrange(0, n as int));
        }
        while i < n
            invariant
                0 <= i <= n == all.len(),
                rest@ =~= all.subrange(i as int, n as int),
                out@.len() == i,
                forall|k: int| 0 <= k < all.len() ==> (#[trigger] all[k]).1.wf(),
                forall|k: int| 0 <= k < out@.len() ==> #[trigger] out@[k] == all[k].1,
                forall|k: int| 0 <= k < out@.len() ==> (#[trigger] out@[k]).wf(),
            decreases n - i,
        {
            let (_, host) = rest.remove(0);
            proof {
                assert(all.subrange(i as int, n as int)[0] == all[i as int]);
                assert(rest@ =~= all.subrange((i + 1) as int, n as int));
            }
            out.push(host);
            i = i + 1;
        }
        out
    }
}

fn sat_sub_u64(a: u64, b: u64) -> (r: u64)
    ensures
        r == crate::timer::sat_sub(a, b),
{
    if a >= b {
        a - b
    } else {
        0
    }
}

fn assoc_find_mac(entries: &Vec<(Mac, Host)>, key: &Mac) -> (r: Option<usize>)
    ensures
        r is Some <==> find_mac_index(entries@, *key, 0) >= 0,
        r is Some ==> r->0 == find_mac_index(entries@, *key, 0) && r->0 < entries@.len()
            && entries@[r->0 as int].0 == *key,
        r is None ==> forall|k: int| 0 <= k < entries@.len() ==> (#[trigger] entries@[k]).0 != *key,
{
    let n = entries.len();
    let mut i: usize = 0;
    while i < n
        invariant
            0 <= i <= n == entries@.len(),
            forall|k: int| 0 <= k < i ==> (#[trigger] entries@[k]).0 != *key,
        decreases n - i,
    {
        if entries[i].0 == *key {
            proof {
                lemma_find_mac_from(entries@, *key, 0, i as int);
            }
            return Some(i);
        }
        i = i + 1;
    }
    proof {
        lemma_find_mac_from(entries@, *key, 0, n as int);
    }
    None
}

fn assoc_has_mac(entries: &Vec<(Mac, Host)>, key: &Mac) -> (r: bool)
    ensures
        r == (find_mac_index(entries@, *key, 0) >= 0),
        !r ==> forall|k: int| 0 <= k < entries@.len() ==> (#[trigger] entries@[k]).0 != *key,
{
    match assoc_find_mac(entries, key) {
        Some(_) => true,
        None => false,
    }
}

/// Stores a send time, replacing any earlier entry for the key.
fn assoc_put_u32(entries: &mut Vec<(u32, u64)>, key: u32, val: u64)
    ensures
        ({
            let w = find_u32_index(old(entries)@, key, 0);
            if w >= 0 {
                final(entries)@ == old(entries)@.remove(w).push((key, val))
            } else {
                final(entries)@ == old(entries)@.push((key, val))
            }
        }),
{
    let n = entries.len();
    let mut i: usize = 0;
    while i < n
        invariant
            0 <= i <= n == entries@.len(),
            entries@ == old(entries)@,
            forall|k: int| 0 <= k < i ==> (#[trigger] entries@[k]).0 != key,
        decreases n - i,
    {
        if entries[i].0 == key {
            proof {
                lemma_find_u32_from(old(entries)@, key, 0, i as int);
            }
            let _ = entries.remove(i);
            entries.push((key, val));
            return ;
        }
        i = i + 1;
    }
    proof {
        lemma_find_u32_from(old(entries)@, key, 0, n as int);
    }
    entries.push((key, val));
}

fn assoc_put_u128(entries: &mut Vec<(u128, u64)>, key: u128, val: u64)
    ensures
        ({
            let w = find_u128_index(old(entries)@, key, 0);
            if w >= 0 {
                final(entries)@ == old(entries)@.remove(w).push((key, val))
            } else {
                final(entries)@ == old(entries)@.push((key, val))
            }
        }),
{
    let n = entries.len();
    let mut i: usize = 0;
    while i < n
        invariant
            0 <= i <= n == entries@.len(),
            entries@ == old(entries)@,
            forall|k: int| 0 <= k < i ==> (#[trigger] entries@[k]).0 != key,
        decreases n - i,
    {
        if entries[i].0 == key {
            proof {
                lemma_find_u128_from(old(entries)@, key, 0, i as int);
            }
            let _ = entries.remove(i);
            entries.push((key, val));
            return ;
        }
        i = i + 1;
    }
    proof {
        lemma_find_u128_from(old(entries)@, key, 0, n as int);
    }
    entries.push((key, val));
}

/// Takes a send time out, consuming the first entry under the key.
fn assoc_take_u32(entries: &mut Vec<(u32, u64)>, key: u32) -> (r: Option<u64>)
    ensures
        ({
            let w = find_u32_index(old(entries)@, key, 0);
            if w >= 0 {
                r == Some(old(entries)@[w].1) && final(entries)@ == old(entries)@.remove(w)
            } else {
                r is None && final(entries)@ == old(entries)@
            }
        }),
{
    let n = entries.len();
    let mut i: usize = 0;
    while i < n
        invariant
            0 <= i <= n == entries@.len(),
            entries@ == old(entries)@,
            forall|k: int| 0 <= k < i ==> (#[trigger] entries@[k]).0 != key,
        decreases n - i,
    {
        if entries[i].0 == key {
            proof {
                lemma_find_u32_from(old(entries)@, key, 0, i as int);
            }
            let (_, v) = entries.remove(i);
            return Some(v);
        }
        i = i + 1;
    }
    proof {
        lemma_find_u32_from(old(entries)@, key, 0, n as int);
    }
    None
}

/// Reads a send time without consuming the entry.
fn assoc_get_u128(entries: &Vec<(u128, u64)>, key: u128) -> (r: Option<u64>)
    ensures
        ({
            let w = find_u128_index(entries@, key, 0);
            if w >= 0 {
                r == Some(entries@[w].1)
            } else {
                r is None
            }
        }),
{
    let n = entries.len();
    let mut i: usize = 0;
    while i < n
        invariant
            0 <= i <= n == entries@.len(),
            forall|k: int| 0 <= k < i ==> (#[trigger] entries@[k]).0 != key,
        decreases n - i,
    {
        if entries[i].0 == key {
            proof {
                lemma_find_u128_from(entries@, key, 0, i as int);
            }
            return Some(entries[i].1);
        }
        i = i + 1;
    }
    proof {
        lemma_find_u128_from(entries@, key, 0, n as int);
    }
    None
}

} // verus!
