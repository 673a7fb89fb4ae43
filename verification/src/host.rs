use vstd::prelude::*;

use crate::ipset::IpSet;
use crate::net::{IpAddress, Mac};
use crate::vendor::{get_vendor, mac_text, vendor_of};

verus! {

/// The roles a host may play on the network; recorded but not yet
/// inferred by any scanner.
#[derive(Clone, Copy, PartialEq, Eq, Structural, Debug, Hash)]
pub enum NetworkRole {
    Gateway,
    DHCP,
    DNS,
}

/// How many round-trip samples a host retains.
pub const RTT_WINDOW: usize = 10;

/// The sum of a sequence of samples.
pub open spec fn sum_rtts(s: Seq<u64>) -> int
    decreases s.len(),
{
    if s.len() == 0 {
        0
    } else {
        sum_rtts(s.drop_last()) + s.last()
    }
}

/// A discovered network device.
///
/// The identity of a host is its `primary_ip`, the address by which it was
/// first observed — except that IPv4 is canonical: as soon as an IPv4
/// address is known for the host, the primary address is IPv4.
#[derive(Debug)]
pub struct Host {
    /// The address the host is identified by.
    pub primary_ip: IpAddress,
    /// The resolved name, once the resolver found one.
    pub hostname: Option<String>,
    /// Every address observed for this host.
    pub ips: IpSet,
    /// Open ports; recorded but not yet filled by any scanner.
    pub ports: Vec<u16>,
    /// The hardware address, when the host shares our segment.
    pub mac: Option<Mac>,
    /// The vendor derived from the hardware address.
    pub vendor: Option<String>,
    /// Inferred roles; recorded but not yet filled by any scanner.
    pub network_roles: Vec<NetworkRole>,
    /// The most recent round-trip samples, in nanoseconds, oldest first.
    /// Change it only through `add_rtt` and `set_rtts`, which keep the
    /// window bounded.
    pub rtt_history: Vec<u64>,
}

impl Host {
    /// The retained round-trip samples, oldest first.
    pub open spec fn rtts(&self) -> Seq<u64> {
        self.rtt_history@
    }

    /// What every constructor establishes and every method keeps:
    /// the address set is ordered, holds the primary address, the primary
    /// address is IPv4 whenever any member is, and the sample window is
    /// bounded.
    pub open spec fn wf(&self) -> bool {
        &&& self.ips.wf()
        &&& self.ips@.contains(self.primary_ip)
        &&& (exists|i: int| 0 <= i < self.ips@.len() && self.ips@[i] is V4)
            ==> self.primary_ip is V4
        &&& self.rtts().len() <= RTT_WINDOW
    }

    /// A host known only by one address.
    pub fn new(primary_ip: IpAddress) -> (h: Host)
        ensures
            h.wf(),
            h.primary_ip == primary_ip,
            h.ips@ =~= seq![primary_ip],
            h.hostname is None,
            h.mac is None,
            h.vendor is None,
            h.rtts() =~= Seq::<u64>::empty(),
            h.ports@ =~= Seq::<u16>::empty(),
            h.network_roles@ =~= Seq::<NetworkRole>::empty(),
    {
        let mut ips = IpSet::new();
        ips.insert(primary_ip);
        let h = Host {
            primary_ip,
            hostname: None,
            ips,
            ports: Vec::new(),
            mac: None,
            vendor: None,
            network_roles: Vec::new(),
            rtt_history: Vec::new(),
        };
        proof {
            assert(h.ips@.contains(primary_ip));
            assert(h.ips@.len() == 1);
            assert(h.ips@ =~= seq![primary_ip]);
            if exists|i: int| 0 <= i < h.ips@.len() && h.ips@[i] is V4 {
                let w = choose|i: int| 0 <= i < h.ips@.len() && h.ips@[i] is V4;
                assert(h.ips@[w] == primary_ip);
            }
        }
        h
    }

    /// The same host with its hardware address set, and the vendor that
    /// the OUI table gives for it.
    pub fn with_mac(self, mac: Mac) -> (h: Host)
        requires
            self.wf(),
        ensures
            h.wf(),
            h.mac == Some(mac),
            h.vendor is Some <==> vendor_of(mac_text(mac)) is Some,
            h.vendor is Some ==> h.vendor->0@ == vendor_of(mac_text(mac))->0,
            h.primary_ip == self.primary_ip,
            h.ips@ == self.ips@,
            h.hostname == self.hostname,
            h.ports@ == self.ports@,
            h.network_roles@ == self.network_roles@,
            h.rtts() == self.rtts(),
    {
        let vendor = get_vendor(&mac);
        Host { mac: Some(mac), vendor, ..self }
    }

    /// The same host with one round-trip sample recorded.
    pub fn with_rtt(self, rtt: u64) -> (h: Host)
        requires
            self.wf(),
        ensures
            h.wf(),
            h.primary_ip == self.primary_ip,
            h.ips@ == self.ips@,
            h.mac == self.mac,
            h.hostname == self.hostname,
            h.vendor == self.vendor,
            h.ports@ == self.ports@,
            h.network_roles@ == self.network_roles@,
            h.rtts() == if self.rtts().len() < RTT_WINDOW {
                self.rtts().push(rtt)
            } else {
                self.rtts().push(rtt).drop_first()
            },
            h.rtts().len() >= 1,
            h.rtts().last() == rtt,
    {
        let mut h = self;
        h.add_rtt(rtt);
        h
    }

    /// Replaces the sample history, keeping only the most recent
    /// `RTT_WINDOW` entries of the given list.
    pub fn set_rtts(&mut self, rtts: Vec<u64>)
        ensures
            final(self).rtts() == if rtts@.len() <= RTT_WINDOW {
                rtts@
            } else {
                rtts@.subrange(rtts@.len() - RTT_WINDOW, rtts@.len() as int)
            },
            final(self).rtts().len() <= RTT_WINDOW,
            final(self).primary_ip == old(self).primary_ip,
            final(self).ips@ == old(self).ips@,
            final(self).hostname == old(self).hostname,
            final(self).mac == old(self).mac,
            final(self).vendor == old(self).vendor,
            final(self).ports@ == old(self).ports@,
            final(self).network_roles@ == old(self).network_roles@,
            old(self).wf() ==> final(self).wf(),
    {
        let n = rtts.len();
        let start: usize = if n > RTT_WINDOW {
            n - RTT_WINDOW
        } else {
            0
        };
        let mut kept: Vec<u64> = Vec::new();
        let mut i: usize = start;
        while i < n
            invariant
                start <= i <= n == rtts@.len(),
                kept@ =~= rtts@.subrange(start as int, i as int),
            decreases n - i,
        {
            let v = rtts[i];
            kept.push(v);
            proof {
                assert(kept@ =~= rtts@.subrange(start as int, (i + 1) as int));
            }
            i = i + 1;
        }
        self.rtt_history = kept;
        proof {
            if rtts@.len() <= RTT_WINDOW {
                assert(rtts@.subrange(0, rtts@.len() as int) =~= rtts@);
            }
        }
    }

    /// Appends one sample, discarding the oldest once the window is full.
    pub fn add_rtt(&mut self, rtt: u64)
        requires
            old(self).rtts().len() <= RTT_WINDOW,
        ensures
            final(self).rtts() == if old(self).rtts().len() < RTT_WINDOW {
                old(self).rtts().push(rtt)
            } else {
                old(self).rtts().push(rtt).drop_first()
            },
            final(self).rtts().len() <= RTT_WINDOW,
            final(self).rtts().last() == rtt,
            final(self).primary_ip == old(self).primary_ip,
            final(self).ips@ == old(self).ips@,
            final(self).hostname == old(self).hostname,
            final(self).mac == old(self).mac,
            final(self).vendor == old(self).vendor,
            final(self).ports@ == old(self).ports@,
            final(self).network_roles@ == old(self).network_roles@,
            old(self).wf() ==> final(self).wf(),
    {
        self.rtt_history.push(rtt);
        if self.rtt_history.len() > RTT_WINDOW {
            let ghost pushed = self.rtt_history@;
            self.rtt_history.remove(0);
            proof {
                assert(self.rtt_history@ =~= pushed.drop_first());
            }
        }
    }

    /// The retained samples, oldest first.
    pub fn rtt_samples(&self) -> (r: &Vec<u64>)
        ensures
            r@ == self.rtts(),
    {
        &self.rtt_history
    }

    /// The quickest retained sample.
    pub fn min_rtt(&self) -> (r: Option<u64>)
        ensures
            r is Some <==> self.rtts().len() > 0,
            r is Some ==> self.rtts().contains(r->0) && forall|i: int|
                0 <= i < self.rtts().len() ==> r->0 <= #[trigger] self.rtts()[i],
    {
        let n = self.rtt_history.len();
        if n == 0 {
            return None;
        }
        let mut best: u64 = self.rtt_history[0];
        let mut i: usize = 1;
        while i < n
            invariant
                1 <= i <= n == self.rtts().len(),
                self.rtts().contains(best),
                forall|k: int| 0 <= k < i ==> best <= #[trigger] self.rtts()[k],
            decreases n - i,
        {
            let v = self.rtt_history[i];
            if v < best {
                best = v;
            }
            i = i + 1;
        }
        Some(best)
    }

    /// The slowest retained sample.
    pub fn max_rtt(&self) -> (r: Option<u64>)
        ensures
            r is Some <==> self.rtts().len() > 0,
            r is Some ==> self.rtts().contains(r->0) && forall|i: int|
                0 <= i < self.rtts().len() ==> r->0 >= #[trigger] self.rtts()[i],
    {
        let n = self.rtt_history.len();
        if n == 0 {
            return None;
        }
        let mut best: u64 = self.rtt_history[0];
        let mut i: usize = 1;
        while i < n
            invariant
                1 <= i <= n == self.rtts().len(),
                self.rtts().contains(best),
                forall|k: int| 0 <= k < i ==> best >= #[trigger] self.rtts()[k],
            decreases n - i,
        {
            let v = self.rtt_history[i];
            if v > best {
                best = v;
            }
            i = i + 1;
        }
        Some(best)
    }

    /// The mean of the retained samples, by integer division.
    pub fn average_rtt(&self) -> (r: Option<u64>)
        ensures
            r is Some <==> self.rtts().len() > 0,
            r is Some ==> r->0 == sum_rtts(self.rtts()) / (self.rtts().len() as int),
    {
        let n = self.rtt_history.len();
        if n == 0 {
            return None;
        }
        let mut sum: u128 = 0;
        let mut i: usize = 0;
        while i < n
            invariant
                0 <= i <= n == self.rtts().len(),
                sum == sum_rtts(self.rtts().subrange(0, i as int)),
                sum <= (i as int) * u64::MAX,
            decreases n - i,
        {
            let v = self.rtt_history[i];
            proof {
                assert(self.rtts().subrange(0, (i + 1) as int).drop_last() =~= self
                    .rtts().subrange(0, i as int));
                assert(self.rtts().subrange(0, (i + 1) as int).last() == self.rtts()[i as int]);
                assert((i as int) * u64::MAX + u64::MAX == ((i + 1) as int) * u64::MAX)
                    by (nonlinear_arith);
                assert(((i + 1) as int) * u64::MAX <= 0xffffffffffffffffffffffffffffffff)
                    by (nonlinear_arith)
                    requires
                        0 <= i + 1 <= 0x10000000000000000,
                ;
            }
            sum = sum + (v as u128);
            i = i + 1;
        }
        proof {
            assert(self.rtts().subrange(0, n as int) =~= self.rtts());
            assert(sum / (n as u128) <= u64::MAX as u128) by (nonlinear_arith)
                requires
                    n >= 1,
                    sum <= (n as int) * u64::MAX,
            ;
            assert(sum as int / (n as u128) as int == sum_rtts(self.rtts()) / (self.rtts().len()
                as int));
        }
        Some((sum / (n as u128)) as u64)
    }

    /// Records one more address for this host. When an IPv4 address
    /// arrives while the primary address is IPv6, the primary address is
    /// upgraded: IPv4 is canonical.
    pub fn observe_ip(&mut self, ip: IpAddress) -> (is_new: bool)
        requires
            old(self).wf(),
        ensures
            final(self).wf(),
            is_new == !old(self).ips@.contains(ip),
            forall|x: IpAddress| final(self).ips@.contains(x) <==> old(self).ips@.contains(x) || x
                == ip,
            final(self).primary_ip == if ip is V4 && old(self).primary_ip is V6 {
                ip
            } else {
                old(self).primary_ip
            },
            final(self).hostname == old(self).hostname,
            final(self).mac == old(self).mac,
            final(self).vendor == old(self).vendor,
            final(self).ports@ == old(self).ports@,
            final(self).network_roles@ == old(self).network_roles@,
            final(self).rtts() == old(self).rtts(),
    {
        let is_new = self.ips.insert(ip);
        if ip.is_v4() && self.primary_ip.is_v6() {
            self.primary_ip = ip;
        }
        proof {
            assert(self.ips@.contains(self.primary_ip));
            if exists|i: int| 0 <= i < self.ips@.len() && self.ips@[i] is V4 {
                let w = choose|i: int| 0 <= i < self.ips@.len() && self.ips@[i] is V4;
                let x = self.ips@[w];
                assert(self.ips@.contains(x));
                if x != ip {
                    // an IPv4 member that was already present: the old
                    // primary address was IPv4 and stayed in place
                    assert(old(self).ips@.contains(x));
                    let w2 = choose|k: int|
                        0 <= k < old(self).ips@.len() && #[trigger] old(self).ips@[k] == x;
                    assert(old(self).ips@[w2] is V4);
                }
            }
        }
        is_new
    }
}

} // verus!
