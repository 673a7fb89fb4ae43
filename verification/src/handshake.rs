use vstd::prelude::*;

use crate::host::Host;
use crate::net::IpAddress;

verus! {

/// How a connect probe came out. Refused counts as alive: something
/// answered.
#[derive(Clone, Copy, PartialEq, Eq, Structural, Debug)]
pub enum ProbeOutcome {
    Connected,
    Refused,
    TimedOut,
}

/// What one probe outcome means: any answer makes a host with the
/// elapsed time as its sole round trip; a timeout makes nothing.
pub fn evaluate_probe(ip: &IpAddress, outcome: ProbeOutcome, elapsed: u64) -> (r: Option<Host>)
    ensures
        r is Some <==> outcome != ProbeOutcome::TimedOut,
        r is Some ==> {
            &&& r->0.wf()
            &&& r->0.primary_ip == *ip
            &&& r->0.ips@ =~= seq![*ip]
            &&& r->0.rtts() =~= seq![elapsed]
            &&& r->0.hostname is None
            &&& r->0.mac is None
        },
{
    match outcome {
        ProbeOutcome::Connected | ProbeOutcome::Refused => {
            let host = Host::new(*ip).with_rtt(elapsed);
            proof {
                assert(host.rtts() =~= seq![elapsed]);
            }
            Some(host)
        },
        ProbeOutcome::TimedOut => None,
    }
}

/// The unprivileged fallback scan: targets probed in order by plain
/// connect attempts, stopping early when asked to.
#[derive(Debug)]
pub struct HandshakeScan {
    pub targets: Vec<IpAddress>,
    pub next_idx: usize,
    /// The hosts found so far; change it only through `record_outcome`.
    pub hosts: Vec<Host>,
}

impl HandshakeScan {
    pub open spec fn wf(&self) -> bool {
        &&& self.next_idx <= self.targets@.len()
        &&& forall|i: int| 0 <= i < self.hosts@.len() ==> (#[trigger] self.hosts@[i]).wf()
    }

    pub fn new(targets: Vec<IpAddress>) -> (r: HandshakeScan)
        ensures
            r.wf(),
            r.targets@ == targets@,
            r.next_idx == 0,
            r.hosts@.len() == 0,
    {
        HandshakeScan { targets, next_idx: 0, hosts: Vec::new() }
    }

    /// The next target to probe, in order — or nothing when the stop
    /// flag is up or the list is spent.
    pub fn next_target(&mut self, stopped: bool) -> (r: Option<IpAddress>)
        requires
            old(self).wf(),
        ensures
            final(self).wf(),
            final(self).targets@ == old(self).targets@,
            final(self).hosts@ == old(self).hosts@,
            r is Some <==> (!stopped && old(self).next_idx < old(self).targets@.len()),
            r is Some ==> r->0 == old(self).targets@[old(self).next_idx as int]
                && final(self).next_idx == old(self).next_idx + 1,
            r is None ==> final(self).next_idx == old(self).next_idx,
    {
        if stopped {
            return None;
        }
        if self.next_idx < self.targets.len() {
            let ip = self.targets[self.next_idx];
            self.next_idx = self.next_idx + 1;
            Some(ip)
        } else {
            None
        }
    }

    /// Books the outcome of one probe; reports whether a host was found.
    pub fn record_outcome(&mut self, ip: &IpAddress, outcome: ProbeOutcome, elapsed: u64) -> (found:
        bool)
        requires
            old(self).wf(),
        ensures
            final(self).wf(),
            final(self).targets@ == old(self).targets@,
            final(self).next_idx == old(self).next_idx,
            found == (outcome != ProbeOutcome::TimedOut),
            found ==> final(self).hosts@.len() == old(self).hosts@.len() + 1
                && final(self).hosts@.last().primary_ip == *ip
                && final(self).hosts@.last().ips@ =~= seq![*ip]
                && final(self).hosts@.last().rtts() =~= seq![elapsed],
            found ==> forall|k: int|
                0 <= k < old(self).hosts@.len() ==> final(self).hosts@[k] == #[trigger] old(
                    self,
                ).hosts@[k],
            !found ==> final(self).hosts@ == old(self).hosts@,
    {
        match evaluate_probe(ip, outcome, elapsed) {
            Some(host) => {
                self.hosts.push(host);
                true
            },
            None => false,
        }
    }

    /// Hands the found hosts out, ending the scan.
    pub fn finish(self) -> (r: Vec<Host>)
        requires
            self.wf(),
        ensures
            r@ == self.hosts@,
            forall|i: int| 0 <= i < r@.len() ==> (#[trigger] r@[i]).wf(),
    {
        self.hosts
    }
}

} // verus!
