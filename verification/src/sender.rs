use vstd::prelude::*;

use crate::config::PacketType;
use crate::error::ScanError;
use crate::frames;
use crate::iface::InterfaceInfo;
use crate::net::{IpAddress, IpNet, Ipv4Net, Ipv6Net, Mac};

verus! {

/// The per-interface probe context: local addressing, the target set by
/// family, and which probe families to emit. Read-only once a scan runs.
#[derive(Debug)]
pub struct SenderConfig {
    pub local_mac: Option<Mac>,
    pub ipv4_nets: Vec<Ipv4Net>,
    pub ipv6_nets: Vec<Ipv6Net>,
    pub targets_v4: Vec<u32>,
    pub targets_v6: Vec<u128>,
    pub arp_enabled: bool,
    pub icmpv6_enabled: bool,
}

impl SenderConfig {
    pub open spec fn wf(&self) -> bool {
        &&& forall|i: int| 0 <= i < self.ipv4_nets@.len() ==> (#[trigger] self.ipv4_nets@[i]).wf()
        &&& forall|i: int| 0 <= i < self.ipv6_nets@.len() ==> (#[trigger] self.ipv6_nets@[i]).wf()
    }

    /// Builds the context from an interface: its hardware address and
    /// its networks split by family, no targets, no probe families yet.
    pub fn from_interface(intf: &InterfaceInfo) -> (r: SenderConfig)
        requires
            intf.wf(),
        ensures
            r.wf(),
            r.local_mac == intf.mac,
            r.targets_v4@.len() == 0,
            r.targets_v6@.len() == 0,
            !r.arp_enabled,
            !r.icmpv6_enabled,
            forall|i: int|
                0 <= i < intf.ips@.len() && (#[trigger] intf.ips@[i]) is V4 ==> r.ipv4_nets
                    @.contains(intf.ips@[i]->V4_0),
            forall|i: int|
                0 <= i < intf.ips@.len() && (#[trigger] intf.ips@[i]) is V6 ==> r.ipv6_nets
                    @.contains(intf.ips@[i]->V6_0),
    {
        let mut v4: Vec<Ipv4Net> = Vec::new();
        let mut v6: Vec<Ipv6Net> = Vec::new();
        let n = intf.ips.len();
        let mut i: usize = 0;
        while i < n
            invariant
                0 <= i <= n == intf.ips@.len(),
                intf.wf(),
                forall|k: int| 0 <= k < v4@.len() ==> (#[trigger] v4@[k]).wf(),
                forall|k: int| 0 <= k < v6@.len() ==> (#[trigger] v6@[k]).wf(),
                forall|k: int|
                    0 <= k < i && (#[trigger] intf.ips@[k]) is V4 ==> v4@.contains(
                        intf.ips@[k]->V4_0,
                    ),
                forall|k: int|
                    0 <= k < i && (#[trigger] intf.ips@[k]) is V6 ==> v6@.contains(
                        intf.ips@[k]->V6_0,
                    ),
            decreases n - i,
        {
            let ghost v4pre = v4@;
            let ghost v6pre = v6@;
            match intf.ips[i] {
                IpNet::V4(net) => {
                    v4.push(net);
                    proof {
                        assert(v4@[v4pre.len() as int] == net);
                        assert(forall|k: int|
                            0 <= k < v4pre.len() ==> v4@[k] == #[trigger] v4pre[k]);
                        assert(forall|x: Ipv4Net| v4pre.contains(x) ==> #[trigger] v4@.contains(x))
                            by {
                            assert forall|x: Ipv4Net| v4pre.contains(x) implies #[trigger] v4
                                @.contains(x) by {
                                let w = choose|w: int|
                                    0 <= w < v4pre.len() && #[trigger] v4pre[w] == x;
                                assert(v4@[w] == x);
                            }
                        }
                    }
                },
                IpNet::V6(net) => {
                    v6.push(net);
                    proof {
                        assert(v6@[v6pre.len() as int] == net);
                        assert(forall|k: int|
                            0 <= k < v6pre.len() ==> v6@[k] == #[trigger] v6pre[k]);
                        assert(forall|x: Ipv6Net| v6pre.contains(x) ==> #[trigger] v6@.contains(x))
                            by {
                            assert forall|x: Ipv6Net| v6pre.contains(x) implies #[trigger] v6
                                @.contains(x) by {
                                let w = choose|w: int|
                                    0 <= w < v6pre.len() && #[trigger] v6pre[w] == x;
                                assert(v6@[w] == x);
                            }
                        }
                    }
                },
            }
            i = i + 1;
        }
        SenderConfig {
            local_mac: intf.mac,
            ipv4_nets: v4,
            ipv6_nets: v6,
            targets_v4: Vec::new(),
            targets_v6: Vec::new(),
            arp_enabled: false,
            icmpv6_enabled: false,
        }
    }

    pub fn get_local_mac(&self) -> (r: Result<Mac, ScanError>)
        ensures
            r is Ok <==> self.local_mac is Some,
            r is Ok ==> Some(r->Ok_0) == self.local_mac,
            r is Err ==> r->Err_0 == ScanError::NoViableInterface,
    {
        match self.local_mac {
            Some(m) => Ok(m),
            None => Err(ScanError::NoViableInterface),
        }
    }

    /// The first configured IPv4 network.
    pub fn get_ipv4_net(&self) -> (r: Result<Ipv4Net, ScanError>)
        ensures
            r is Ok <==> self.ipv4_nets@.len() > 0,
            r is Ok ==> r->Ok_0 == self.ipv4_nets@[0],
            r is Err ==> r->Err_0 == ScanError::NoViableInterface,
    {
        if self.ipv4_nets.len() > 0 {
            Ok(self.ipv4_nets[0])
        } else {
            Err(ScanError::NoViableInterface)
        }
    }

    /// The first link-local address among the IPv6 networks.
    pub fn get_link_local(&self) -> (r: Result<u128, ScanError>)
        ensures
            r is Ok <==> spec_first_ll(self.ipv6_nets@, 0) is Some,
            r is Ok ==> Some(r->Ok_0) == spec_first_ll(self.ipv6_nets@, 0)
                && crate::net::spec_v6_is_unicast_link_local(r->Ok_0),
            r is Err ==> r->Err_0 == ScanError::NoViableInterface,
    {
        let n = self.ipv6_nets.len();
        let mut i: usize = 0;
        while i < n
            invariant
                0 <= i <= n == self.ipv6_nets@.len(),
                forall|k: int|
                    0 <= k < i ==> !crate::net::spec_v6_is_unicast_link_local(
                        (#[trigger] self.ipv6_nets@[k]).ip,
                    ),
            decreases n - i,
        {
            let ip = self.ipv6_nets[i].ip;
            if crate::net::v6_is_unicast_link_local(ip) {
                proof {
                    assert(self.ipv6_nets@[i as int].ip == ip);
                    lemma_first_ll_from(self.ipv6_nets@, 0, i as int);
                }
                return Ok(ip);
            }
            i = i + 1;
        }
        proof {
            lemma_first_ll_from(self.ipv6_nets@, 0, n as int);
        }
        Err(ScanError::NoViableInterface)
    }

    /// Records one target, once.
    pub fn add_target(&mut self, target: &IpAddress)
        ensures
            final(self).local_mac == old(self).local_mac,
            final(self).ipv4_nets@ == old(self).ipv4_nets@,
            final(self).ipv6_nets@ == old(self).ipv6_nets@,
            final(self).arp_enabled == old(self).arp_enabled,
            final(self).icmpv6_enabled == old(self).icmpv6_enabled,
            old(self).wf() ==> final(self).wf(),
            forall|v: u32|
                (#[trigger] final(self).targets_v4@.contains(v)) <==> old(
                    self,
                ).targets_v4@.contains(v) || *target == IpAddress::V4(v),
            forall|v: u128|
                (#[trigger] final(self).targets_v6@.contains(v)) <==> old(
                    self,
                ).targets_v6@.contains(v) || *target == IpAddress::V6(v),
    {
        match target {
            IpAddress::V4(v) => {
                if !vec_contains_u32(&self.targets_v4, *v) {
                    let ghost pre = self.targets_v4@;
                    self.targets_v4.push(*v);
                    proof {
                        lemma_push_contains_u32(pre, *v, self.targets_v4@);
                    }
                }
            },
            IpAddress::V6(v) => {
                if !vec_contains_u128(&self.targets_v6, *v) {
                    let ghost pre = self.targets_v6@;
                    self.targets_v6.push(*v);
                    proof {
                        lemma_push_contains_u128(pre, *v, self.targets_v6@);
                    }
                }
            },
        }
    }

    pub fn has_addr(&self, target: &IpAddress) -> (r: bool)
        ensures
            r == match *target {
                IpAddress::V4(v) => self.targets_v4@.contains(v),
                IpAddress::V6(v) => self.targets_v6@.contains(v),
            },
    {
        match target {
            IpAddress::V4(v) => vec_contains_u32(&self.targets_v4, *v),
            IpAddress::V6(v) => vec_contains_u128(&self.targets_v6, *v),
        }
    }

    /// Whether the address sits inside a configured subnet of the same
    /// family.
    pub open spec fn spec_in_subnet(&self, ip: IpAddress) -> bool {
        match ip {
            IpAddress::V4(v) => exists|i: int|
                0 <= i < self.ipv4_nets@.len() && (#[trigger] self.ipv4_nets@[i]).spec_contains(v),
            IpAddress::V6(v) => exists|i: int|
                0 <= i < self.ipv6_nets@.len() && (#[trigger] self.ipv6_nets@[i]).spec_contains(v),
        }
    }

    pub fn is_addr_in_subnet(&self, ip: &IpAddress) -> (r: bool)
        requires
            self.wf(),
        ensures
            r == self.spec_in_subnet(*ip),
    {
        match ip {
            IpAddress::V4(v) => {
                let n = self.ipv4_nets.len();
                let mut i: usize = 0;
                while i < n
                    invariant
                        0 <= i <= n == self.ipv4_nets@.len(),
                        self.wf(),
                        *ip == IpAddress::V4(*v),
                        forall|k: int|
                            0 <= k < i ==> !(#[trigger] self.ipv4_nets@[k]).spec_contains(*v),
                    decreases n - i,
                {
                    if self.ipv4_nets[i].contains(*v) {
                        return true;
                    }
                    i = i + 1;
                }
                proof {
                    if self.spec_in_subnet(*ip) {
                        let w = choose|w: int|
                            0 <= w < self.ipv4_nets@.len() && (
                            #[trigger] self.ipv4_nets@[w]).spec_contains(*v);
                    }
                }
                false
            },
            IpAddress::V6(v) => {
                let n = self.ipv6_nets.len();
                let mut i: usize = 0;
                while i < n
                    invariant
                        0 <= i <= n == self.ipv6_nets@.len(),
                        self.wf(),
                        *ip == IpAddress::V6(*v),
                        forall|k: int|
                            0 <= k < i ==> !(#[trigger] self.ipv6_nets@[k]).spec_contains(*v),
                    decreases n - i,
                {
                    if self.ipv6_nets[i].contains(*v) {
                        return true;
                    }
                    i = i + 1;
                }
                proof {
                    if self.spec_in_subnet(*ip) {
                        let w = choose|w: int|
                            0 <= w < self.ipv6_nets@.len() && (
                            #[trigger] self.ipv6_nets@[w]).spec_contains(*v);
                    }
                }
                false
            },
        }
    }

    pub fn len(&self) -> (r: usize)
        requires
            self.targets_v4@.len() + self.targets_v6@.len() <= usize::MAX,
        ensures
            r == self.targets_v4@.len() + self.targets_v6@.len(),
    {
        self.targets_v4.len() + self.targets_v6.len()
    }

    pub fn is_empty(&self) -> (r: bool)
        ensures
            r == (self.targets_v4@.len() == 0 && self.targets_v6@.len() == 0),
    {
        self.targets_v4.len() == 0 && self.targets_v6.len() == 0
    }

    pub fn add_packet_type(&mut self, packet_type: PacketType)
        ensures
            final(self).arp_enabled == (old(self).arp_enabled || packet_type == PacketType::ARP),
            final(self).icmpv6_enabled == (old(self).icmpv6_enabled || packet_type
                == PacketType::ICMPv6),
            final(self).local_mac == old(self).local_mac,
            final(self).ipv4_nets@ == old(self).ipv4_nets@,
            final(self).ipv6_nets@ == old(self).ipv6_nets@,
            final(self).targets_v4@ == old(self).targets_v4@,
            final(self).targets_v6@ == old(self).targets_v6@,
    {
        match packet_type {
            PacketType::ARP => {
                self.arp_enabled = true;
            },
            PacketType::ICMPv6 => {
                self.icmpv6_enabled = true;
            },
        }
    }

    pub fn has_packet_type(&self, packet_type: PacketType) -> (r: bool)
        ensures
            r == match packet_type {
                PacketType::ARP => self.arp_enabled,
                PacketType::ICMPv6 => self.icmpv6_enabled,
            },
    {
        match packet_type {
            PacketType::ARP => self.arp_enabled,
            PacketType::ICMPv6 => self.icmpv6_enabled,
        }
    }
}

/// The first link-local address among IPv6 networks, scanning from `i`.
pub open spec fn spec_first_ll(nets: Seq<Ipv6Net>, i: int) -> Option<u128>
    decreases nets.len() - i,
{
    if i < 0 || i >= nets.len() {
        None
    } else if crate::net::spec_v6_is_unicast_link_local(nets[i].ip) {
        Some(nets[i].ip)
    } else {
        spec_first_ll(nets, i + 1)
    }
}

proof fn lemma_first_ll_from(nets: Seq<Ipv6Net>, j: int, i: int)
    requires
        0 <= j <= i <= nets.len(),
        forall|k: int|
            j <= k < i ==> !crate::net::spec_v6_is_unicast_link_local((#[trigger] nets[k]).ip),
        i == nets.len() || crate::net::spec_v6_is_unicast_link_local(nets[i].ip),
    ensures
        spec_first_ll(nets, j) == if i == nets.len() {
            Option::<u128>::None
        } else {
            Some(nets[i].ip)
        },
    decreases i - j,
{
    if j < i {
        lemma_first_ll_from(nets, j + 1, i);
    }
}

fn vec_contains_u32(v: &Vec<u32>, x: u32) -> (r: bool)
    ensures
        r == v@.contains(x),
{
    let n = v.len();
    let mut i: usize = 0;
    while i < n
        invariant
            0 <= i <= n == v@.len(),
            forall|k: int| 0 <= k < i ==> v@[k] != x,
        decreases n - i,
    {
        if v[i] == x {
            return true;
        }
        i = i + 1;
    }
    proof {
        if v@.contains(x) {
            let w = choose|w: int| 0 <= w < v@.len() && v@[w] == x;
        }
    }
    false
}

fn vec_contains_u128(v: &Vec<u128>, x: u128) -> (r: bool)
    ensures
        r == v@.contains(x),
{
    let n = v.len();
    let mut i: usize = 0;
    while i < n
        invariant
            0 <= i <= n == v@.len(),
            forall|k: int| 0 <= k < i ==> v@[k] != x,
        decreases n - i,
    {
        if v[i] == x {
            return true;
        }
        i = i + 1;
    }
    proof {
        if v@.contains(x) {
            let w = choose|w: int| 0 <= w < v@.len() && v@[w] == x;
        }
    }
    false
}

proof fn lemma_push_contains_u32(pre: Seq<u32>, x: u32, post: Seq<u32>)
    requires
        post == pre.push(x),
    ensures
        forall|v: u32| (#[trigger] post.contains(v)) <==> pre.contains(v) || v == x,
{
    assert forall|v: u32| (#[trigger] post.contains(v)) <==> pre.contains(v) || v == x by {
        if post.contains(v) {
            let w = choose|w: int| 0 <= w < post.len() && #[trigger] post[w] == v;
            if w < pre.len() {
                assert(pre[w] == v);
            }
        }
        if pre.contains(v) {
            let w = choose|w: int| 0 <= w < pre.len() && #[trigger] pre[w] == v;
            assert(post[w] == v);
        }
        if v == x {
            assert(post[pre.len() as int] == v);
        }
    }
}

proof fn lemma_push_contains_u128(pre: Seq<u128>, x: u128, post: Seq<u128>)
    requires
        post == pre.push(x),
    ensures
        forall|v: u128| (#[trigger] post.contains(v)) <==> pre.contains(v) || v == x,
{
    assert forall|v: u128| (#[trigger] post.contains(v)) <==> pre.contains(v) || v == x by {
        if post.contains(v) {
            let w = choose|w: int| 0 <= w < post.len() && #[trigger] post[w] == v;
            if w < pre.len() {
                assert(pre[w] == v);
            }
        }
        if pre.contains(v) {
            let w = choose|w: int| 0 <= w < pre.len() && #[trigger] pre[w] == v;
            assert(post[w] == v);
        }
        if v == x {
            assert(post[pre.len() as int] == v);
        }
    }
}

/// The single-pass source of discovery frames: one ARP request per IPv4
/// target when ARP is on, then one all-nodes echo request when ICMPv6
/// is on.
#[derive(Debug)]
pub struct ProbeSource {
    items: Vec<(Vec<u8>, IpAddress)>,
    idx: usize,
}

impl ProbeSource {
    pub closed spec fn remaining(&self) -> Seq<(Vec<u8>, IpAddress)> {
        if self.idx <= self.items@.len() {
            self.items@.subrange(self.idx as int, self.items@.len() as int)
        } else {
            Seq::<(Vec<u8>, IpAddress)>::empty()
        }
    }

    /// Builds every probe the configuration calls for; fails when a
    /// needed local address is missing. The pass holds one ARP request
    /// per IPv4 target, in target order, then one all-nodes echo
    /// request when ICMPv6 is on.
    pub fn new(cfg: &SenderConfig, ident: u16, flow: u32) -> (r: Result<ProbeSource, ScanError>)
        ensures
            r is Ok <==> ((!cfg.arp_enabled || (cfg.local_mac is Some && cfg.ipv4_nets@.len() > 0))
                && (!cfg.icmpv6_enabled || (cfg.local_mac is Some && spec_first_ll(
                cfg.ipv6_nets@,
                0,
            ) is Some))),
            r is Err ==> r->Err_0 == ScanError::NoViableInterface,
            r is Ok ==> {
                let n4 = if cfg.arp_enabled {
                    cfg.targets_v4@.len() as int
                } else {
                    0int
                };
                &&& r->Ok_0.remaining().len() == n4 + (if cfg.icmpv6_enabled {
                    1int
                } else {
                    0int
                })
                &&& (cfg.arp_enabled ==> forall|k: int|
                    0 <= k < n4 ==> ((#[trigger] r->Ok_0.remaining()[k]).0@
                        == frames::arp_frame_bytes(
                        cfg.local_mac->0,
                        Mac::spec_broadcast(),
                        cfg.ipv4_nets@[0].ip,
                        cfg.targets_v4@[k],
                    ) && r->Ok_0.remaining()[k].1 == IpAddress::V4(cfg.targets_v4@[k])))
                &&& (cfg.icmpv6_enabled ==> r->Ok_0.remaining().last().0@
                    == frames::icmpv6_frame_bytes(
                    cfg.local_mac->0,
                    spec_first_ll(cfg.ipv6_nets@, 0)->0,
                    ident,
                    flow,
                ) && r->Ok_0.remaining().last().1 == IpAddress::V6(
                    spec_first_ll(cfg.ipv6_nets@, 0)->0,
                ))
            },
    {
        let mut items: Vec<(Vec<u8>, IpAddress)> = Vec::new();
        if cfg.arp_enabled {
            let src_mac = match cfg.get_local_mac() {
                Ok(m) => m,
                Err(e) => {
                    return Err(e);
                },
            };
            let src_net = match cfg.get_ipv4_net() {
                Ok(n) => n,
                Err(e) => {
                    return Err(e);
                },
            };
            let bcast = Mac::broadcast();
            let n = cfg.targets_v4.len();
            let mut i: usize = 0;
            while i < n
                invariant
                    0 <= i <= n == cfg.targets_v4@.len(),
                    items@.len() == i,
                    src_mac == cfg.local_mac->0,
                    src_net == cfg.ipv4_nets@[0],
                    bcast == Mac::spec_broadcast(),
                    forall|k: int|
                        0 <= k < i ==> ((#[trigger] items@[k]).0@ == frames::arp_frame_bytes(
                            cfg.local_mac->0,
                            Mac::spec_broadcast(),
                            cfg.ipv4_nets@[0].ip,
                            cfg.targets_v4@[k],
                        ) && items@[k].1 == IpAddress::V4(cfg.targets_v4@[k])),
                decreases n - i,
            {
                let dst = cfg.targets_v4[i];
                let frame = frames::arp_request_frame(&src_mac, &bcast, src_net.ip, dst);
                items.push((frame, IpAddress::V4(dst)));
                i = i + 1;
            }
        }
        if cfg.icmpv6_enabled {
            let src_mac = match cfg.get_local_mac() {
                Ok(m) => m,
                Err(e) => {
                    return Err(e);
                },
            };
            match cfg.get_link_local() {
                Ok(link_local) => {
                    let frame = frames::create_all_nodes_echo_request_v6(
                        &src_mac,
                        link_local,
                        ident,
                        flow,
                    );
                    items.push((frame, IpAddress::V6(link_local)));
                },
                Err(e) => {
                    // ICMPv6 without a link-local address cannot probe
                    return Err(e);
                },
            }
        }
        let source = ProbeSource { items, idx: 0 };
        proof {
            assert(source.remaining() =~= source.items@);
        }
        Ok(source)
    }

    /// The next probe, until the single pass is spent.
    pub fn next(&mut self) -> (r: Option<(Vec<u8>, IpAddress)>)
        ensures
            r is Some <==> old(self).remaining().len() > 0,
            r is Some ==> {
                &&& (r->0).0@ == old(self).remaining()[0].0@
                &&& (r->0).1 == old(self).remaining()[0].1
                &&& final(self).remaining() =~= old(self).remaining().drop_first()
            },
            r is None ==> *final(self) == *old(self),
    {
        if self.idx < self.items.len() {
            let ghost pre = self.remaining();
            // move the pair out without cloning: swap in an empty frame
            let pair = take_pair(&mut self.items, self.idx);
            self.idx = self.idx + 1;
            proof {
                let oi = old(self).idx as int;
                assert(pre.len() == old(self).items@.len() - oi);
                assert(pre[0] == old(self).items@[oi]);
                assert(self.remaining() =~= pre.drop_first()) by {
                    assert(forall|k: int|
                        0 <= k < pre.len() - 1 ==> self.items@[oi + 1 + k] == #[trigger] old(
                            self,
                        ).items@[oi + 1 + k]);
                }
            }
            Some(pair)
        } else {
            None
        }
    }
}

/// Reads the pair at `i`, leaving an empty frame in its place.
fn take_pair(items: &mut Vec<(Vec<u8>, IpAddress)>, i: usize) -> (r: (Vec<u8>, IpAddress))
    requires
        i < old(items)@.len(),
    ensures
        r.0@ == old(items)@[i as int].0@,
        r.1 == old(items)@[i as int].1,
        final(items)@.len() == old(items)@.len(),
        forall|k: int|
            0 <= k < final(items)@.len() && k != i ==> final(items)@[k] == old(items)@[k],
{
    let ghost pre = items@;
    let (bytes, ip) = items.remove(i);
    items.insert(i, (Vec::new(), ip));
    proof {
        assert(forall|k: int| 0 <= k < pre.len() && k != i ==> items@[k] == #[trigger] pre[k]);
    }
    (bytes, ip)
}

} // verus!
