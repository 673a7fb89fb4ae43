use vstd::prelude::*;

use crate::net::{IpAddress, IpNet, Ipv4Net, Mac};
use crate::range::{IpCollection, Ipv4Range};

verus! {

/// What the engine knows of one local interface; the platform facts
/// (physical, wireless) come in precomputed.
#[derive(Debug)]
pub struct InterfaceInfo {
    pub name: String,
    pub index: u32,
    pub mac: Option<Mac>,
    pub ips: Vec<IpNet>,
    pub up: bool,
    pub loopback: bool,
    pub broadcast: bool,
    pub point_to_point: bool,
    pub physical: bool,
    pub wireless: bool,
}

/// Why an interface is no use for LAN discovery.
#[derive(Clone, Copy, PartialEq, Eq, Structural, Debug)]
pub enum ViabilityError {
    IsDown,
    NotPhysical,
    NoMacAddress,
    NotBroadcast,
    IsPointToPoint,
    NoValidLanIp,
}

impl InterfaceInfo {
    pub open spec fn wf(&self) -> bool {
        forall|i: int| 0 <= i < self.ips@.len() ==> (#[trigger] self.ips@[i]).wf()
    }

    /// Whether some address of the interface is a private IPv4 or
    /// link-local IPv6 one.
    pub open spec fn spec_has_lan_ip(&self) -> bool {
        exists|i: int|
            0 <= i < self.ips@.len() && match (#[trigger] self.ips@[i]) {
                IpNet::V4(n) => crate::net::spec_v4_is_private(n.ip),
                IpNet::V6(n) => crate::net::spec_v6_is_unicast_link_local(n.ip),
            }
    }

    /// Whether the interface reaches `ip` directly, on one of its
    /// subnets of the same family.
    pub open spec fn spec_on_subnet(&self, ip: IpAddress) -> bool {
        exists|i: int| 0 <= i < self.ips@.len() && (#[trigger] self.ips@[i]).spec_contains_ip(ip)
    }

    pub fn on_subnet(&self, ip: &IpAddress) -> (r: bool)
        requires
            self.wf(),
        ensures
            r == self.spec_on_subnet(*ip),
    {
        let n = self.ips.len();
        let mut i: usize = 0;
        while i < n
            invariant
                0 <= i <= n == self.ips@.len(),
                self.wf(),
                forall|k: int| 0 <= k < i ==> !(#[trigger] self.ips@[k]).spec_contains_ip(*ip),
            decreases n - i,
        {
            if self.ips[i].contains_ip(ip) {
                return true;
            }
            i = i + 1;
        }
        proof {
            if self.spec_on_subnet(*ip) {
                let w = choose|w: int|
                    0 <= w < self.ips@.len() && (#[trigger] self.ips@[w]).spec_contains_ip(*ip);
            }
        }
        false
    }

    /// Whether one of the interface's addresses is exactly `ip`.
    pub open spec fn spec_has_addr(&self, ip: IpAddress) -> bool {
        exists|i: int| 0 <= i < self.ips@.len() && (#[trigger] self.ips@[i]).spec_ip() == ip
    }

    pub fn has_addr(&self, ip: &IpAddress) -> (r: bool)
        ensures
            r == self.spec_has_addr(*ip),
    {
        let n = self.ips.len();
        let mut i: usize = 0;
        while i < n
            invariant
                0 <= i <= n == self.ips@.len(),
                forall|k: int| 0 <= k < i ==> (#[trigger] self.ips@[k]).spec_ip() != *ip,
            decreases n - i,
        {
            let a = self.ips[i].ip();
            if a == *ip {
                return true;
            }
            i = i + 1;
        }
        proof {
            if self.spec_has_addr(*ip) {
                let w = choose|w: int|
                    0 <= w < self.ips@.len() && (#[trigger] self.ips@[w]).spec_ip() == *ip;
            }
        }
        false
    }

    /// The first IPv4 network of the interface, if any.
    pub fn first_ipv4_net(&self) -> (r: Option<Ipv4Net>)
        ensures
            r is Some <==> exists|i: int| 0 <= i < self.ips@.len() && (#[trigger] self.ips@[i]) is V4,
            r is Some ==> exists|i: int|
                0 <= i < self.ips@.len() && (#[trigger] self.ips@[i]) == IpNet::V4(r->0),
    {
        let n = self.ips.len();
        let mut i: usize = 0;
        while i < n
            invariant
                0 <= i <= n == self.ips@.len(),
                forall|k: int| 0 <= k < i ==> !((#[trigger] self.ips@[k]) is V4),
            decreases n - i,
        {
            match self.ips[i] {
                IpNet::V4(net) => {
                    proof {
                        assert(self.ips@[i as int] == IpNet::V4(net));
                    }
                    return Some(net);
                },
                IpNet::V6(_) => {},
            }
            i = i + 1;
        }
        proof {
            if exists|k: int| 0 <= k < self.ips@.len() && (#[trigger] self.ips@[k]) is V4 {
                let w = choose|k: int| 0 <= k < self.ips@.len() && (#[trigger] self.ips@[k]) is V4;
            }
        }
        None
    }

    /// The first private IPv4 network of the interface, if any.
    pub fn first_private_ipv4_net(&self) -> (r: Option<Ipv4Net>)
        ensures
            r == spec_first_private_v4(self.ips@, 0),
    {
        let n = self.ips.len();
        let mut i: usize = 0;
        while i < n
            invariant
                0 <= i <= n == self.ips@.len(),
                forall|k: int|
                    0 <= k < i ==> !((#[trigger] self.ips@[k]) is V4
                        && crate::net::spec_v4_is_private(self.ips@[k]->V4_0.ip)),
            decreases n - i,
        {
            match self.ips[i] {
                IpNet::V4(net) => {
                    if crate::net::v4_is_private(net.ip) {
                        proof {
                            assert(self.ips@[i as int] == IpNet::V4(net));
                            lemma_first_private_v4_from(self.ips@, 0, i as int);
                        }
                        return Some(net);
                    }
                },
                IpNet::V6(_) => {},
            }
            i = i + 1;
        }
        proof {
            lemma_first_private_v4_from(self.ips@, 0, n as int);
        }
        None
    }

    /// The first link-local IPv6 address of the interface, if any.
    pub fn link_local_v6(&self) -> (r: Option<u128>)
        ensures
            r == spec_first_link_local(self.ips@, 0),
            r is Some ==> crate::net::spec_v6_is_unicast_link_local(r->0),
    {
        let n = self.ips.len();
        let mut i: usize = 0;
        while i < n
            invariant
                0 <= i <= n == self.ips@.len(),
                forall|k: int|
                    0 <= k < i ==> !((#[trigger] self.ips@[k]) is V6
                        && crate::net::spec_v6_is_unicast_link_local(self.ips@[k]->V6_0.ip)),
            decreases n - i,
        {
            match self.ips[i] {
                IpNet::V6(net) => {
                    if crate::net::v6_is_unicast_link_local(net.ip) {
                        proof {
                            assert(self.ips@[i as int] is V6);
                            lemma_first_link_local_from(self.ips@, 0, i as int);
                        }
                        return Some(net.ip);
                    }
                },
                IpNet::V4(_) => {},
            }
            i = i + 1;
        }
        proof {
            lemma_first_link_local_from(self.ips@, 0, n as int);
        }
        None
    }
}

/// The first link-local IPv6 address in an address list, scanning from `i`.
pub open spec fn spec_first_link_local(ips: Seq<IpNet>, i: int) -> Option<u128>
    decreases ips.len() - i,
{
    if i < 0 || i >= ips.len() {
        None
    } else {
        match ips[i] {
            IpNet::V6(n) => if crate::net::spec_v6_is_unicast_link_local(n.ip) {
                Some(n.ip)
            } else {
                spec_first_link_local(ips, i + 1)
            },
            IpNet::V4(_) => spec_first_link_local(ips, i + 1),
        }
    }
}

proof fn lemma_first_link_local_from(ips: Seq<IpNet>, j: int, i: int)
    requires
        0 <= j <= i <= ips.len(),
        forall|k: int|
            j <= k < i ==> !((#[trigger] ips[k]) is V6 && crate::net::spec_v6_is_unicast_link_local(
                ips[k]->V6_0.ip,
            )),
        i == ips.len() || (ips[i] is V6 && crate::net::spec_v6_is_unicast_link_local(
            ips[i]->V6_0.ip,
        )),
    ensures
        spec_first_link_local(ips, j) == if i == ips.len() {
            Option::<u128>::None
        } else {
            Some(ips[i]->V6_0.ip)
        },
    decreases i - j,
{
    if j < i {
        lemma_first_link_local_from(ips, j + 1, i);
    }
}

/// The first private IPv4 network in an address list, scanning from `i`.
pub open spec fn spec_first_private_v4(ips: Seq<IpNet>, i: int) -> Option<Ipv4Net>
    decreases ips.len() - i,
{
    if i < 0 || i >= ips.len() {
        None
    } else {
        match ips[i] {
            IpNet::V4(n) => if crate::net::spec_v4_is_private(n.ip) {
                Some(n)
            } else {
                spec_first_private_v4(ips, i + 1)
            },
            IpNet::V6(_) => spec_first_private_v4(ips, i + 1),
        }
    }
}

/// The first private network found is well-formed and private.
proof fn lemma_first_private_props(ips: Seq<IpNet>, i: int)
    requires
        0 <= i,
        forall|k: int| 0 <= k < ips.len() ==> (#[trigger] ips[k]).wf(),
    ensures
        spec_first_private_v4(ips, i) is Some ==> spec_first_private_v4(ips, i)->0.wf()
            && crate::net::spec_v4_is_private(spec_first_private_v4(ips, i)->0.ip),
    decreases ips.len() - i,
{
    if i < ips.len() {
        lemma_first_private_props(ips, i + 1);
        assert(ips[i].wf());
    }
}

proof fn lemma_first_private_v4_from(ips: Seq<IpNet>, j: int, i: int)
    requires
        0 <= j <= i <= ips.len(),
        forall|k: int|
            j <= k < i ==> !((#[trigger] ips[k]) is V4 && crate::net::spec_v4_is_private(
                ips[k]->V4_0.ip,
            )),
        i == ips.len() || (ips[i] is V4 && crate::net::spec_v4_is_private(ips[i]->V4_0.ip)),
    ensures
        spec_first_private_v4(ips, j) == if i == ips.len() {
            Option::<Ipv4Net>::None
        } else {
            Some(ips[i]->V4_0)
        },
    decreases i - j,
{
    if j < i {
        lemma_first_private_v4_from(ips, j + 1, i);
    }
}

/// A link may carry raw frames when it has hardware addressing and is
/// neither loopback nor point-to-point.
pub open spec fn spec_is_layer_2_capable(i: &InterfaceInfo) -> bool {
    !i.point_to_point && !i.loopback && i.mac is Some
}

pub fn is_layer_2_capable(intf: &InterfaceInfo) -> (r: bool)
    ensures
        r == spec_is_layer_2_capable(intf),
{
    !intf.point_to_point && !intf.loopback && intf.mac.is_some()
}

/// The checks an interface must pass for LAN discovery, in order.
pub open spec fn spec_viability(i: &InterfaceInfo) -> Option<ViabilityError> {
    if !i.up {
        Some(ViabilityError::IsDown)
    } else if !i.physical {
        Some(ViabilityError::NotPhysical)
    } else if i.loopback {
        Some(ViabilityError::NotPhysical)
    } else if i.mac is None {
        Some(ViabilityError::NoMacAddress)
    } else if !i.broadcast {
        Some(ViabilityError::NotBroadcast)
    } else if i.point_to_point {
        Some(ViabilityError::IsPointToPoint)
    } else if !i.spec_has_lan_ip() {
        Some(ViabilityError::NoValidLanIp)
    } else {
        None
    }
}

/// Checks whether an interface can host LAN discovery; the error names
/// the first failed requirement.
pub fn is_viable_lan_interface(interface: &InterfaceInfo) -> (r: Result<(), ViabilityError>)
    ensures
        r is Ok <==> spec_viability(interface) is None,
        r is Err ==> Some(r->Err_0) == spec_viability(interface),
{
    if !interface.up {
        return Err(ViabilityError::IsDown);
    }
    if !interface.physical {
        return Err(ViabilityError::NotPhysical);
    }
    if interface.loopback {
        return Err(ViabilityError::NotPhysical);
    }
    if interface.mac.is_none() {
        return Err(ViabilityError::NoMacAddress);
    }
    if !interface.broadcast {
        return Err(ViabilityError::NotBroadcast);
    }
    if interface.point_to_point {
        return Err(ViabilityError::IsPointToPoint);
    }
    let n = interface.ips.len();
    let mut i: usize = 0;
    while i < n
        invariant
            0 <= i <= n == interface.ips@.len(),
            interface.up && interface.physical && !interface.loopback,
            interface.mac is Some && interface.broadcast && !interface.point_to_point,
            forall|k: int|
                0 <= k < i ==> !(match (#[trigger] interface.ips@[k]) {
                    IpNet::V4(net) => crate::net::spec_v4_is_private(net.ip),
                    IpNet::V6(net) => crate::net::spec_v6_is_unicast_link_local(net.ip),
                }),
        decreases n - i,
    {
        let ok = match interface.ips[i] {
            IpNet::V4(net) => crate::net::v4_is_private(net.ip),
            IpNet::V6(net) => crate::net::v6_is_unicast_link_local(net.ip),
        };
        if ok {
            proof {
                assert(match interface.ips@[i as int] {
                    IpNet::V4(net) => crate::net::spec_v4_is_private(net.ip),
                    IpNet::V6(net) => crate::net::spec_v6_is_unicast_link_local(net.ip),
                });
                assert(interface.spec_has_lan_ip());
            }
            return Ok(());
        }
        i = i + 1;
    }
    proof {
        if interface.spec_has_lan_ip() {
            let w = choose|w: int|
                0 <= w < interface.ips@.len() && match (#[trigger] interface.ips@[w]) {
                    IpNet::V4(net) => crate::net::spec_v4_is_private(net.ip),
                    IpNet::V6(net) => crate::net::spec_v6_is_unicast_link_local(net.ip),
                };
        }
    }
    Err(ViabilityError::NoValidLanIp)
}

/// Wired means physical and not wireless.
pub open spec fn spec_is_wired(i: &InterfaceInfo) -> bool {
    i.physical && !i.wireless
}

pub fn is_wired(interface: &InterfaceInfo) -> (r: bool)
    ensures
        r == spec_is_wired(interface),
{
    interface.physical && !interface.wireless
}

/// The first wired interface of the list, or -1.
pub open spec fn first_wired_index(s: Seq<InterfaceInfo>, i: int) -> int
    decreases s.len() - i,
{
    if i < 0 || i >= s.len() {
        -1
    } else if spec_is_wired(&s[i]) {
        i
    } else {
        first_wired_index(s, i + 1)
    }
}

/// Picks the interface a LAN scan should run on: the only one, or the
/// first wired one, or the first.
pub fn select_best_lan_interface(interfaces: &Vec<InterfaceInfo>) -> (r: Option<usize>)
    ensures
        r is Some <==> interfaces@.len() > 0,
        r is Some ==> r->0 < interfaces@.len() && r->0 as int == ({
            let w = first_wired_index(interfaces@, 0);
            if interfaces@.len() == 1 || w < 0 {
                0
            } else {
                w
            }
        }),
{
    let n = interfaces.len();
    if n == 0 {
        return None;
    }
    if n == 1 {
        return Some(0);
    }
    let mut i: usize = 0;
    while i < n
        invariant
            0 <= i <= n == interfaces@.len(),
            forall|k: int| 0 <= k < i ==> !spec_is_wired(&(#[trigger] interfaces@[k])),
        decreases n - i,
    {
        if interfaces[i].physical && !interfaces[i].wireless {
            proof {
                lemma_first_wired_at(interfaces@, i as int);
            }
            return Some(i);
        }
        i = i + 1;
    }
    proof {
        lemma_first_wired_at(interfaces@, n as int);
    }
    Some(0)
}

proof fn lemma_first_wired_at(s: Seq<InterfaceInfo>, i: int)
    requires
        0 <= i <= s.len(),
        forall|k: int| 0 <= k < i ==> !spec_is_wired(&(#[trigger] s[k])),
        i == s.len() || spec_is_wired(&s[i]),
    ensures
        first_wired_index(s, 0) == if i == s.len() {
            -1int
        } else {
            i
        },
{
    lemma_first_wired_from(s, 0, i);
}

proof fn lemma_first_wired_from(s: Seq<InterfaceInfo>, j: int, i: int)
    requires
        0 <= j <= i <= s.len(),
        forall|k: int| j <= k < i ==> !spec_is_wired(&(#[trigger] s[k])),
        i == s.len() || spec_is_wired(&s[i]),
    ensures
        first_wired_index(s, j) == if i == s.len() {
            -1int
        } else {
            i
        },
    decreases i - j,
{
    if j < i {
        lemma_first_wired_from(s, j + 1, i);
    }
}

/// The interfaces a LAN scan may consider: those passing every
/// viability check, with well-formed networks, in order.
pub open spec fn spec_viable_list(s: Seq<InterfaceInfo>) -> Seq<InterfaceInfo>
    decreases s.len(),
{
    if s.len() == 0 {
        Seq::<InterfaceInfo>::empty()
    } else {
        spec_viable_list(s.drop_last()) + (if spec_viability(&s.last()) is None
            && s.last().wf() {
            seq![s.last()]
        } else {
            Seq::<InterfaceInfo>::empty()
        })
    }
}

/// What the `lan` keyword resolves to: the first private IPv4 network
/// of the selected viable interface — the only one, else the first
/// wired one, else the first.
pub open spec fn spec_lan_network(interfaces: Seq<InterfaceInfo>) -> Option<Ipv4Net> {
    let vs = spec_viable_list(interfaces);
    if vs.len() == 0 {
        None
    } else {
        let w = first_wired_index(vs, 0);
        let pick = if vs.len() == 1 || w < 0 {
            0
        } else {
            w
        };
        spec_first_private_v4(vs[pick].ips@, 0)
    }
}

/// The LAN network for the `lan` keyword: among the viable interfaces,
/// the chosen one's first private IPv4 network.
pub fn get_lan_network(interfaces: Vec<InterfaceInfo>) -> (r: Option<Ipv4Net>)
    ensures
        r == spec_lan_network(interfaces@),
        r is Some ==> r->0.wf() && crate::net::spec_v4_is_private(r->0.ip),
{
    let ghost all = interfaces@;
    let n = interfaces.len();
    let mut viable: Vec<InterfaceInfo> = Vec::new();
    let mut i: usize = 0;
    let mut rest = interfaces;
    proof {
        assert(all.subrange(0, 0) =~= Seq::<InterfaceInfo>::empty());
    }
    while i < n
        invariant
            0 <= i <= n == all.len(),
            rest@ =~= all.subrange(i as int, n as int),
            viable@ == spec_viable_list(all.subrange(0, i as int)),
            forall|k: int| 0 <= k < viable@.len() ==> (#[trigger] viable@[k]).wf(),
        decreases n - i,
    {
        let intf = rest.remove(0);
        proof {
            assert(all.subrange(i as int, n as int)[0] == all[i as int]);
            assert(rest@ =~= all.subrange((i + 1) as int, n as int));
            assert(all.subrange(0, (i + 1) as int).drop_last() =~= all.subrange(0, i as int));
            assert(all.subrange(0, (i + 1) as int).last() == all[i as int]);
        }
        if is_viable_lan_interface(&intf).is_ok() && interface_nets_wf(&intf) {
            let ghost pre = viable@;
            viable.push(intf);
            proof {
                assert(viable@ =~= pre + seq![all[i as int]]);
            }
        } else {
            proof {
                assert(viable@ + Seq::<InterfaceInfo>::empty() =~= viable@);
            }
        }
        i = i + 1;
    }
    proof {
        assert(all.subrange(0, n as int) =~= all);
    }
    match select_best_lan_interface(&viable) {
        Some(idx) => {
            proof {
                assert(viable@[idx as int].wf());
                lemma_first_private_props(viable@[idx as int].ips@, 0);
            }
            viable[idx].first_private_ipv4_net()
        },
        None => None,
    }
}

/// Checks that every configured network has a prefix in range.
pub fn interface_nets_wf(intf: &InterfaceInfo) -> (r: bool)
    ensures
        r == intf.wf(),
{
    let n = intf.ips.len();
    let mut i: usize = 0;
    while i < n
        invariant
            0 <= i <= n == intf.ips@.len(),
            forall|k: int| 0 <= k < i ==> (#[trigger] intf.ips@[k]).wf(),
        decreases n - i,
    {
        let ok = match intf.ips[i] {
            IpNet::V4(net) => net.prefix <= 32,
            IpNet::V6(net) => net.prefix <= 128,
        };
        if !ok {
            proof {
                assert(!(intf.ips@[i as int]).wf());
            }
            return false;
        }
        i = i + 1;
    }
    proof {
        if !intf.wf() {
            let w = choose|w: int| 0 <= w < intf.ips@.len() && !(#[trigger] intf.ips@[w]).wf();
        }
    }
    true
}

pub open spec fn starts_with_e(name: Seq<char>) -> bool {
    name.len() >= 1 && name[0] == 'e'
}

/// Up to `limit` usable interfaces for display: those up, not loopback
/// and addressed, the conventionally wired names first.
pub fn get_prioritized_interfaces(interfaces: Vec<InterfaceInfo>, limit: usize) -> (r: Vec<
    InterfaceInfo,
>)
    ensures
        r@.len() <= limit,
        forall|k: int|
            0 <= k < r@.len() ==> (#[trigger] r@[k]).up && !r@[k].loopback && r@[k].ips@.len() > 0,
{
    let n = interfaces.len();
    let mut rest = interfaces;
    let mut front: Vec<InterfaceInfo> = Vec::new();
    let mut back: Vec<InterfaceInfo> = Vec::new();
    let mut i: usize = 0;
    while i < n
        invariant
            0 <= i <= n,
            rest@.len() == n - i,
            forall|k: int|
                0 <= k < front@.len() ==> (#[trigger] front@[k]).up && !front@[k].loopback
                    && front@[k].ips@.len() > 0,
            forall|k: int|
                0 <= k < back@.len() ==> (#[trigger] back@[k]).up && !back@[k].loopback
                    && back@[k].ips@.len() > 0,
        decreases n - i,
    {
        let intf = rest.remove(0);
        if intf.up && !intf.loopback && intf.ips.len() > 0 {
            let name_is_e = intf.name.as_str().unicode_len() >= 1 && intf.name.as_str().get_char(0)
                == 'e';
            if name_is_e {
                front.push(intf);
            } else {
                back.push(intf);
            }
        }
        i = i + 1;
    }
    let mut out: Vec<InterfaceInfo> = Vec::new();
    let fn_len = front.len();
    let mut j: usize = 0;
    let mut front = front;
    while j < fn_len
        invariant
            0 <= j <= fn_len,
            front@.len() == fn_len - j,
            out@.len() == j,
            forall|k: int|
                0 <= k < front@.len() ==> (#[trigger] front@[k]).up && !front@[k].loopback
                    && front@[k].ips@.len() > 0,
            forall|k: int|
                0 <= k < out@.len() ==> (#[trigger] out@[k]).up && !out@[k].loopback
                    && out@[k].ips@.len() > 0,
        decreases fn_len - j,
    {
        let intf = front.remove(0);
        out.push(intf);
        j = j + 1;
    }
    let bn = back.len();
    let mut j2: usize = 0;
    let mut back = back;
    while j2 < bn
        invariant
            0 <= j2 <= bn,
            back@.len() == bn - j2,
            forall|k: int|
                0 <= k < back@.len() ==> (#[trigger] back@[k]).up && !back@[k].loopback
                    && back@[k].ips@.len() > 0,
            forall|k: int|
                0 <= k < out@.len() ==> (#[trigger] out@[k]).up && !out@[k].loopback
                    && out@[k].ips@.len() > 0,
        decreases bn - j2,
    {
        let intf = back.remove(0);
        out.push(intf);
        j2 = j2 + 1;
    }
    out.truncate(limit);
    proof {
        assert(forall|k: int|
            0 <= k < out@.len() ==> (#[trigger] out@[k]).up && !out@[k].loopback
                && out@[k].ips@.len() > 0);
    }
    out
}

/// The first interface whose same-family subnet holds the target, or -1.
pub open spec fn spec_find_local_index(s: Seq<InterfaceInfo>, ip: IpAddress, i: int) -> int
    decreases s.len() - i,
{
    if i < 0 || i >= s.len() {
        -1
    } else if s[i].spec_on_subnet(ip) {
        i
    } else {
        spec_find_local_index(s, ip, i + 1)
    }
}

/// Finds the interface the target sits directly on, if any.
pub fn find_local_index(interfaces: &Vec<InterfaceInfo>, target: &IpAddress) -> (r: Option<usize>)
    requires
        forall|k: int| 0 <= k < interfaces@.len() ==> (#[trigger] interfaces@[k]).wf(),
    ensures
        r is Some <==> spec_find_local_index(interfaces@, *target, 0) >= 0,
        r is Some ==> r->0 as int == spec_find_local_index(interfaces@, *target, 0) && r->0
            < interfaces@.len(),
{
    let n = interfaces.len();
    let mut i: usize = 0;
    while i < n
        invariant
            0 <= i <= n == interfaces@.len(),
            forall|k: int| 0 <= k < interfaces@.len() ==> (#[trigger] interfaces@[k]).wf(),
            forall|k: int| 0 <= k < i ==> !(#[trigger] interfaces@[k]).spec_on_subnet(*target),
        decreases n - i,
    {
        if interfaces[i].on_subnet(target) {
            proof {
                lemma_find_local_at(interfaces@, *target, i as int);
            }
            return Some(i);
        }
        i = i + 1;
    }
    proof {
        lemma_find_local_at(interfaces@, *target, n as int);
    }
    None
}

proof fn lemma_find_local_at(s: Seq<InterfaceInfo>, ip: IpAddress, i: int)
    requires
        0 <= i <= s.len(),
        forall|k: int| 0 <= k < i ==> !(#[trigger] s[k]).spec_on_subnet(ip),
        i == s.len() || s[i].spec_on_subnet(ip),
    ensures
        spec_find_local_index(s, ip, 0) == if i == s.len() {
            -1int
        } else {
            i
        },
{
    lemma_find_local_from(s, ip, 0, i);
}

proof fn lemma_find_local_from(s: Seq<InterfaceInfo>, ip: IpAddress, j: int, i: int)
    requires
        0 <= j <= i <= s.len(),
        forall|k: int| j <= k < i ==> !(#[trigger] s[k]).spec_on_subnet(ip),
        i == s.len() || s[i].spec_on_subnet(ip),
    ensures
        spec_find_local_index(s, ip, j) == if i == s.len() {
            -1int
        } else {
            i
        },
    decreases i - j,
{
    if j < i {
        lemma_find_local_from(s, ip, j + 1, i);
    }
}

/// Whether an IPv4 subnet of the interface holds both ends of a range.
pub open spec fn spec_range_on(intf: &InterfaceInfo, range: Ipv4Range) -> bool {
    exists|i: int|
        0 <= i < intf.ips@.len() && (#[trigger] intf.ips@[i]) is V4
            && intf.ips@[i]->V4_0.spec_contains(range.start_addr)
            && intf.ips@[i]->V4_0.spec_contains(range.end_addr)
}

/// Whether every interval and single of the collection sits on one of
/// the interface's subnets.
pub fn is_on_link(intf: &InterfaceInfo, ips: &IpCollection) -> (r: bool)
    requires
        intf.wf(),
    ensures
        r == ({
            &&& forall|k: int|
                0 <= k < ips.ranges@.len() ==> spec_range_on(intf, #[trigger] ips.ranges@[k])
            &&& forall|k: int|
                0 <= k < ips.singles@.len() ==> intf.spec_on_subnet(#[trigger] ips.singles@[k])
        }),
{
    let rn = ips.ranges.len();
    let mut k: usize = 0;
    while k < rn
        invariant
            0 <= k <= rn == ips.ranges@.len(),
            intf.wf(),
            forall|k2: int| 0 <= k2 < k ==> spec_range_on(intf, #[trigger] ips.ranges@[k2]),
        decreases rn - k,
    {
        let range = ips.ranges[k];
        if !range_on_iface(intf, &range) {
            return false;
        }
        k = k + 1;
    }
    let sn = ips.singles.len();
    let mut j: usize = 0;
    while j < sn
        invariant
            0 <= j <= sn == ips.singles@.len(),
            intf.wf(),
            forall|k2: int|
                0 <= k2 < ips.ranges@.len() ==> spec_range_on(intf, #[trigger] ips.ranges@[k2]),
            forall|k2: int| 0 <= k2 < j ==> intf.spec_on_subnet(#[trigger] ips.singles@[k2]),
        decreases sn - j,
    {
        let ip = ips.singles.get(j);
        if !intf.on_subnet(&ip) {
            return false;
        }
        j = j + 1;
    }
    true
}

/// Checks one range against the interface's IPv4 subnets.
fn range_on_iface(intf: &InterfaceInfo, range: &Ipv4Range) -> (r: bool)
    requires
        intf.wf(),
    ensures
        r == spec_range_on(intf, *range),
{
    let n = intf.ips.len();
    let mut i: usize = 0;
    while i < n
        invariant
            0 <= i <= n == intf.ips@.len(),
            intf.wf(),
            forall|k: int|
                0 <= k < i ==> !((#[trigger] intf.ips@[k]) is V4
                    && intf.ips@[k]->V4_0.spec_contains(range.start_addr)
                    && intf.ips@[k]->V4_0.spec_contains(range.end_addr)),
        decreases n - i,
    {
        match intf.ips[i] {
            IpNet::V4(net) => {
                if net.contains(range.start_addr) && net.contains(range.end_addr) {
                    proof {
                        assert((intf.ips@[i as int]) is V4);
                    }
                    return true;
                }
            },
            IpNet::V6(_) => {},
        }
        i = i + 1;
    }
    proof {
        if spec_range_on(intf, *range) {
            let w = choose|k: int|
                0 <= k < intf.ips@.len() && (#[trigger] intf.ips@[k]) is V4
                    && intf.ips@[k]->V4_0.spec_contains(range.start_addr)
                    && intf.ips@[k]->V4_0.spec_contains(range.end_addr);
        }
    }
    false
}

/// Per-interface target buckets: what is on the segment, and what the
/// kernel routes through it.
#[derive(Debug)]
pub struct InterfaceBuckets {
    pub local: Vec<IpCollection>,
    pub routed: Vec<IpCollection>,
}

/// The interfaces the router considers: up, not loopback, addressed.
/// Loopback targets thereby fall to the unmapped remainder, where the
/// connect prober handles them.
pub open spec fn spec_usable(i: &InterfaceInfo) -> bool {
    i.up && !i.loopback && i.ips@.len() > 0
}

pub fn is_usable(intf: &InterfaceInfo) -> (r: bool)
    ensures
        r == spec_usable(intf),
{
    intf.up && !intf.loopback && intf.ips.len() > 0
}

/// The first usable interface whose IPv4 subnet holds both ends of the
/// range, or -1.
pub open spec fn first_owner_index(s: Seq<InterfaceInfo>, range: Ipv4Range, i: int) -> int
    decreases s.len() - i,
{
    if i < 0 || i >= s.len() {
        -1
    } else if spec_usable(&s[i]) && spec_range_on(&s[i], range) {
        i
    } else {
        first_owner_index(s, range, i + 1)
    }
}

/// A found owner index lies inside the list.
proof fn lemma_first_owner_bounds(s: Seq<InterfaceInfo>, range: Ipv4Range, i: int)
    requires
        0 <= i,
    ensures
        first_owner_index(s, range, i) == -1 || i <= first_owner_index(s, range, i) < s.len(),
    decreases s.len() - i,
{
    if i < s.len() && !(spec_usable(&s[i]) && spec_range_on(&s[i], range)) {
        lemma_first_owner_bounds(s, range, i + 1);
    }
}

proof fn lemma_first_owner_at(s: Seq<InterfaceInfo>, range: Ipv4Range, i: int)
    requires
        0 <= i <= s.len(),
        forall|k: int| 0 <= k < i ==> !(spec_usable(&(#[trigger] s[k])) && spec_range_on(&s[k], range)),
        i == s.len() || (spec_usable(&s[i]) && spec_range_on(&s[i], range)),
    ensures
        first_owner_index(s, range, 0) == if i == s.len() {
            -1int
        } else {
            i
        },
{
    lemma_first_owner_from(s, range, 0, i);
}

proof fn lemma_first_owner_from(s: Seq<InterfaceInfo>, range: Ipv4Range, j: int, i: int)
    requires
        0 <= j <= i <= s.len(),
        forall|k: int| j <= k < i ==> !(spec_usable(&(#[trigger] s[k])) && spec_range_on(&s[k], range)),
        i == s.len() || (spec_usable(&s[i]) && spec_range_on(&s[i], range)),
    ensures
        first_owner_index(s, range, j) == if i == s.len() {
            -1int
        } else {
            i
        },
    decreases i - j,
{
    if j < i {
        lemma_first_owner_from(s, range, j + 1, i);
    }
}

/// What may stand in interface `k`'s local bucket after phase one: an
/// input interval whose first usable owner is `k`.
pub open spec fn owned_bucket_entry(
    interfaces: Seq<InterfaceInfo>,
    ranges: Seq<Ipv4Range>,
    upto: int,
    r: Ipv4Range,
    k: int,
) -> bool {
    &&& exists|j2: int| 0 <= j2 < upto && r == #[trigger] ranges[j2]
    &&& first_owner_index(interfaces, r, 0) == k
}

/// Finds the first usable owner of the range.
fn find_owner(interfaces: &Vec<InterfaceInfo>, range: &Ipv4Range) -> (r: Option<usize>)
    requires
        forall|k: int| 0 <= k < interfaces@.len() ==> (#[trigger] interfaces@[k]).wf(),
    ensures
        r is Some <==> first_owner_index(interfaces@, *range, 0) >= 0,
        r is Some ==> r->0 as int == first_owner_index(interfaces@, *range, 0) && r->0
            < interfaces@.len(),
    {
    let n = interfaces.len();
    let mut i: usize = 0;
    while i < n
        invariant
            0 <= i <= n == interfaces@.len(),
            forall|k: int| 0 <= k < interfaces@.len() ==> (#[trigger] interfaces@[k]).wf(),
            forall|k: int|
                0 <= k < i ==> !(spec_usable(&(#[trigger] interfaces@[k])) && spec_range_on(
                    &interfaces@[k],
                    *range,
                )),
        decreases n - i,
    {
        if is_usable(&interfaces[i]) && range_on_iface(&interfaces[i], range) {
            proof {
                lemma_first_owner_at(interfaces@, *range, i as int);
            }
            return Some(i);
        }
        i = i + 1;
    }
    proof {
        lemma_first_owner_at(interfaces@, *range, n as int);
    }
    None
}

/// The first usable interface whose same-family subnet holds the
/// target, or -1.
pub open spec fn first_usable_local_index(s: Seq<InterfaceInfo>, ip: IpAddress, i: int) -> int
    decreases s.len() - i,
{
    if i < 0 || i >= s.len() {
        -1
    } else if spec_usable(&s[i]) && s[i].spec_on_subnet(ip) {
        i
    } else {
        first_usable_local_index(s, ip, i + 1)
    }
}

proof fn lemma_usable_local_from(s: Seq<InterfaceInfo>, ip: IpAddress, j: int, i: int)
    requires
        0 <= j <= i <= s.len(),
        forall|k: int| j <= k < i ==> !(spec_usable(&(#[trigger] s[k])) && s[k].spec_on_subnet(ip)),
        i == s.len() || (spec_usable(&s[i]) && s[i].spec_on_subnet(ip)),
    ensures
        first_usable_local_index(s, ip, j) == if i == s.len() {
            -1int
        } else {
            i
        },
    decreases i - j,
{
    if j < i {
        lemma_usable_local_from(s, ip, j + 1, i);
    }
}

fn find_usable_local(interfaces: &Vec<InterfaceInfo>, target: &IpAddress) -> (r: Option<usize>)
    requires
        forall|k: int| 0 <= k < interfaces@.len() ==> (#[trigger] interfaces@[k]).wf(),
    ensures
        r is Some <==> first_usable_local_index(interfaces@, *target, 0) >= 0,
        r is Some ==> r->0 as int == first_usable_local_index(interfaces@, *target, 0) && r->0
            < interfaces@.len(),
{
    let n = interfaces.len();
    let mut i: usize = 0;
    while i < n
        invariant
            0 <= i <= n == interfaces@.len(),
            forall|k: int| 0 <= k < interfaces@.len() ==> (#[trigger] interfaces@[k]).wf(),
            forall|k: int|
                0 <= k < i ==> !(spec_usable(&(#[trigger] interfaces@[k]))
                    && interfaces@[k].spec_on_subnet(*target)),
        decreases n - i,
    {
        if is_usable(&interfaces[i]) && interfaces[i].on_subnet(target) {
            proof {
                lemma_usable_local_from(interfaces@, *target, 0, i as int);
            }
            return Some(i);
        }
        i = i + 1;
    }
    proof {
        lemma_usable_local_from(interfaces@, *target, 0, n as int);
    }
    None
}

/// The first usable interface one of whose addresses is exactly the
/// kernel-chosen source, or -1.
pub open spec fn first_source_owner_index(s: Seq<InterfaceInfo>, source: IpAddress, i: int) -> int
    decreases s.len() - i,
{
    if i < 0 || i >= s.len() {
        -1
    } else if spec_usable(&s[i]) && s[i].spec_has_addr(source) {
        i
    } else {
        first_source_owner_index(s, source, i + 1)
    }
}

proof fn lemma_source_owner_from(s: Seq<InterfaceInfo>, source: IpAddress, j: int, i: int)
    requires
        0 <= j <= i <= s.len(),
        forall|k: int| j <= k < i ==> !(spec_usable(&(#[trigger] s[k])) && s[k].spec_has_addr(source)),
        i == s.len() || (spec_usable(&s[i]) && s[i].spec_has_addr(source)),
    ensures
        first_source_owner_index(s, source, j) == if i == s.len() {
            -1int
        } else {
            i
        },
    decreases i - j,
{
    if j < i {
        lemma_source_owner_from(s, source, j + 1, i);
    }
}

fn find_source_owner(interfaces: &Vec<InterfaceInfo>, source: &IpAddress) -> (r: Option<usize>)
    ensures
        r is Some <==> first_source_owner_index(interfaces@, *source, 0) >= 0,
        r is Some ==> r->0 as int == first_source_owner_index(interfaces@, *source, 0) && r->0
            < interfaces@.len(),
{
    let n = interfaces.len();
    let mut i: usize = 0;
    while i < n
        invariant
            0 <= i <= n == interfaces@.len(),
            forall|k: int|
                0 <= k < i ==> !(spec_usable(&(#[trigger] interfaces@[k]))
                    && interfaces@[k].spec_has_addr(*source)),
        decreases n - i,
    {
        if is_usable(&interfaces[i]) && interfaces[i].has_addr(source) {
            proof {
                lemma_source_owner_from(interfaces@, *source, 0, i as int);
            }
            return Some(i);
        }
        i = i + 1;
    }
    proof {
        lemma_source_owner_from(interfaces@, *source, 0, n as int);
    }
    None
}

/// Phase one of target routing: a whole interval that sits inside a
/// usable interface's IPv4 subnet goes to its first such owner's local
/// bucket; every other interval is broken into single addresses, which
/// join the collection's own singles as pending targets awaiting a
/// kernel route decision.
#[verifier::rlimit(100)]
pub fn split_ranges(interfaces: &Vec<InterfaceInfo>, collection: &IpCollection) -> (r: (
    Vec<IpCollection>,
    Vec<IpAddress>,
))
    requires
        forall|k: int| 0 <= k < interfaces@.len() ==> (#[trigger] interfaces@[k]).wf(),
        collection.wf(),
        collection.size() <= 0x1_0000_0000,
    ensures
        r.0@.len() == interfaces@.len(),
        forall|k: int| 0 <= k < r.0@.len() ==> (#[trigger] r.0@[k]).wf(),
        // buckets hold intervals only
        forall|k: int| 0 <= k < r.0@.len() ==> (#[trigger] r.0@[k]).singles@.len() == 0,
        // every owned interval lands whole in its first owner's bucket
        forall|j: int|
            0 <= j < collection.ranges@.len() && first_owner_index(
                interfaces@,
                #[trigger] collection.ranges@[j],
                0,
            ) >= 0 ==> r.0@[first_owner_index(interfaces@, collection.ranges@[j], 0)].ranges
                @.contains(collection.ranges@[j]),
        // bucket contents come only from intervals owned by that interface
        forall|k: int, i2: int|
            0 <= k < r.0@.len() && 0 <= i2 < r.0@[k].ranges@.len() ==> owned_bucket_entry(
                interfaces@,
                collection.ranges@,
                collection.ranges@.len() as int,
                #[trigger] r.0@[k].ranges@[i2],
                k,
            ),
        // pending: exactly the unowned intervals' addresses and the singles
        forall|x: IpAddress|
            #[trigger] r.1@.contains(x) <==> collection.singles@.contains(x) || (x is V4 && exists|
                j: int,
            |
                0 <= j < collection.ranges@.len() && first_owner_index(
                    interfaces@,
                    #[trigger] collection.ranges@[j],
                    0,
                ) < 0 && collection.ranges@[j].spec_contains(x->V4_0)),
{
    let n = interfaces.len();
    let mut locals: Vec<IpCollection> = Vec::new();
    let mut i: usize = 0;
    while i < n
        invariant
            0 <= i <= n,
            locals@.len() == i,
            forall|k: int| 0 <= k < i ==> (#[trigger] locals@[k]).wf(),
            forall|k: int| 0 <= k < i ==> (#[trigger] locals@[k]).ranges@.len() == 0,
            forall|k: int| 0 <= k < i ==> (#[trigger] locals@[k]).singles@.len() == 0,
        decreases n - i,
    {
        locals.push(IpCollection::new());
        i = i + 1;
    }
    let mut pending: Vec<IpAddress> = Vec::new();
    let rn = collection.ranges.len();
    let mut j: usize = 0;
    while j < rn
        invariant
            0 <= j <= rn == collection.ranges@.len(),
            collection.wf(),
            forall|k: int| 0 <= k < interfaces@.len() ==> (#[trigger] interfaces@[k]).wf(),
            locals@.len() == n == interfaces@.len(),
            forall|k: int| 0 <= k < locals@.len() ==> (#[trigger] locals@[k]).wf(),
            forall|k: int| 0 <= k < locals@.len() ==> (#[trigger] locals@[k]).singles@.len() == 0,
            forall|j2: int|
                0 <= j2 < j && first_owner_index(
                    interfaces@,
                    #[trigger] collection.ranges@[j2],
                    0,
                ) >= 0 ==> locals@[first_owner_index(interfaces@, collection.ranges@[j2], 0)].ranges
                    @.contains(collection.ranges@[j2]),
            forall|k: int, i2: int|
                0 <= k < locals@.len() && 0 <= i2 < locals@[k].ranges@.len() ==> owned_bucket_entry(
                    interfaces@,
                    collection.ranges@,
                    j as int,
                    #[trigger] locals@[k].ranges@[i2],
                    k,
                ),
            forall|x: IpAddress|
                #[trigger] pending@.contains(x) <==> x is V4 && exists|j2: int|
                    0 <= j2 < j && first_owner_index(
                        interfaces@,
                        #[trigger] collection.ranges@[j2],
                        0,
                    ) < 0 && collection.ranges@[j2].spec_contains(x->V4_0),
        decreases rn - j,
    {
        let range = collection.ranges[j];
        proof {
            assert(collection.ranges@[j as int].wf());
        }
        match find_owner(interfaces, &range) {
            Some(idx) => {
                let ghost pre = locals@;
                let mut bucket = locals.remove(idx);
                bucket.add_range(range);
                locals.insert(idx, bucket);
                proof {
                    assert(forall|k: int|
                        0 <= k < locals@.len() && k != idx ==> locals@[k] == #[trigger] pre[k]);
                    assert(locals@[idx as int].ranges@ == pre[idx as int].ranges@.push(range));
                    assert(locals@[idx as int].singles@ == pre[idx as int].singles@);
                    lemma_owned_step(interfaces@, collection.ranges@, pre, locals@, j as int, idx as int);
                    // the pending set gains nothing from an owned interval
                    assert forall|x: IpAddress| #[trigger] pending@.contains(x) <==> x is V4
                        && exists|j2: int|
                        0 <= j2 < j + 1 && first_owner_index(
                            interfaces@,
                            #[trigger] collection.ranges@[j2],
                            0,
                        ) < 0 && collection.ranges@[j2].spec_contains(x->V4_0) by {
                        if x is V4 && exists|j2: int|
                            0 <= j2 < j + 1 && first_owner_index(
                                interfaces@,
                                #[trigger] collection.ranges@[j2],
                                0,
                            ) < 0 && collection.ranges@[j2].spec_contains(x->V4_0) {
                            let w = choose|j2: int|
                                0 <= j2 < j + 1 && first_owner_index(
                                    interfaces@,
                                    #[trigger] collection.ranges@[j2],
                                    0,
                                ) < 0 && collection.ranges@[j2].spec_contains(x->V4_0);
                            assert(w != j);
                        }
                    }
                }
            },
            None => {
                let total = range.len();
                let mut off: u64 = 0;
                while off < total
                    invariant
                        0 <= off <= total == range.spec_len(),
                        range.wf(),
                        0 <= j < rn == collection.ranges@.len(),
                        range == collection.ranges@[j as int],
                        first_owner_index(interfaces@, range, 0) < 0,
                        forall|x: IpAddress|
                            #[trigger] pending@.contains(x) <==> (x is V4 && exists|j2: int|
                                0 <= j2 < j && first_owner_index(
                                    interfaces@,
                                    #[trigger] collection.ranges@[j2],
                                    0,
                                ) < 0 && collection.ranges@[j2].spec_contains(x->V4_0)) || (x is V4
                                && range.start_addr <= x->V4_0 < range.start_addr + off),
                    decreases total - off,
                {
                    let v = range.nth(off);
                    let ghost pre = pending@;
                    pending.push(IpAddress::V4(v));
                    proof {
                        lemma_push_contains_addr(pre, IpAddress::V4(v), pending@);
                    }
                    off = off + 1;
                }
                proof {
                    assert forall|x: IpAddress| #[trigger] pending@.contains(x) <==> x is V4
                        && exists|j2: int|
                        0 <= j2 < j + 1 && first_owner_index(
                            interfaces@,
                            #[trigger] collection.ranges@[j2],
                            0,
                        ) < 0 && collection.ranges@[j2].spec_contains(x->V4_0) by {
                        if pending@.contains(x) {
                            if x is V4 && range.start_addr <= x->V4_0 <= range.end_addr {
                                assert(collection.ranges@[j as int].spec_contains(x->V4_0));
                            }
                        }
                        if x is V4 && exists|j2: int|
                            0 <= j2 < j + 1 && first_owner_index(
                                interfaces@,
                                #[trigger] collection.ranges@[j2],
                                0,
                            ) < 0 && collection.ranges@[j2].spec_contains(x->V4_0) {
                            let w = choose|j2: int|
                                0 <= j2 < j + 1 && first_owner_index(
                                    interfaces@,
                                    #[trigger] collection.ranges@[j2],
                                    0,
                                ) < 0 && collection.ranges@[j2].spec_contains(x->V4_0);
                            if w == j {
                                assert(range.start_addr <= x->V4_0 < range.start_addr + off);
                            }
                        }
                    }
                }
            },
        }
        proof {
            // widen the bucket-soundness witnesses to the longer prefix
            assert forall|k: int, i2: int|
                0 <= k < locals@.len() && 0 <= i2 < locals@[k].ranges@.len() implies
                owned_bucket_entry(
                interfaces@,
                collection.ranges@,
                j + 1,
                #[trigger] locals@[k].ranges@[i2],
                k,
            ) by {
                assert(owned_bucket_entry(
                    interfaces@,
                    collection.ranges@,
                    j as int,
                    locals@[k].ranges@[i2],
                    k,
                ) || owned_bucket_entry(
                    interfaces@,
                    collection.ranges@,
                    j + 1,
                    locals@[k].ranges@[i2],
                    k,
                ));
                if owned_bucket_entry(
                    interfaces@,
                    collection.ranges@,
                    j as int,
                    locals@[k].ranges@[i2],
                    k,
                ) {
                    let w = choose|j2: int|
                        0 <= j2 < j && locals@[k].ranges@[i2] == #[trigger] collection.ranges@[j2];
                    assert(locals@[k].ranges@[i2] == collection.ranges@[w]);
                }
            }
        }
        j = j + 1;
    }
    // the collection's own singles all await a route decision
    let sn = collection.singles.len();
    let mut js: usize = 0;
    while js < sn
        invariant
            0 <= js <= sn == collection.singles@.len(),
            collection.wf(),
            forall|x: IpAddress|
                #[trigger] pending@.contains(x) <==> collection.singles@.subrange(
                    0,
                    js as int,
                ).contains(x) || (x is V4 && exists|j2: int|
                    0 <= j2 < collection.ranges@.len() && first_owner_index(
                        interfaces@,
                        #[trigger] collection.ranges@[j2],
                        0,
                    ) < 0 && collection.ranges@[j2].spec_contains(x->V4_0)),
        decreases sn - js,
    {
        let ip = collection.singles.get(js);
        let ghost pre = pending@;
        let ghost sub0 = collection.singles@.subrange(0, js as int);
        let ghost sub1 = collection.singles@.subrange(0, (js + 1) as int);
        proof {
            assert(forall|k: int| 0 <= k < js ==> sub1[k] == #[trigger] sub0[k]);
            assert(sub1[js as int] == ip);
            assert forall|x: IpAddress| #[trigger] sub1.contains(x) <==> sub0.contains(x) || x
                == ip by {
                if sub1.contains(x) {
                    let w = choose|w: int| 0 <= w < sub1.len() && #[trigger] sub1[w] == x;
                    if w < js {
                        assert(sub0[w] == x);
                    }
                }
                if sub0.contains(x) {
                    let w = choose|w: int| 0 <= w < sub0.len() && #[trigger] sub0[w] == x;
                    assert(sub1[w] == x);
                }
                if x == ip {
                    assert(sub1[js as int] == x);
                }
            }
        }
        pending.push(ip);
        proof {
            lemma_push_contains_addr(pre, ip, pending@);
        }
        js = js + 1;
    }
    proof {
        assert(collection.singles@.subrange(0, sn as int) =~= collection.singles@);
    }
    (locals, pending)
}

/// The owned-interval invariants survive one bucket update.
proof fn lemma_owned_step(
    interfaces: Seq<InterfaceInfo>,
    ranges: Seq<Ipv4Range>,
    pre: Seq<IpCollection>,
    post: Seq<IpCollection>,
    j: int,
    idx: int,
)
    requires
        0 <= j < ranges.len(),
        0 <= idx < pre.len(),
        pre.len() == post.len(),
        pre.len() == interfaces.len(),
        first_owner_index(interfaces, ranges[j], 0) == idx,
        forall|k: int| 0 <= k < post.len() && k != idx ==> post[k] == #[trigger] pre[k],
        post[idx].ranges@ == pre[idx].ranges@.push(ranges[j]),
        forall|j2: int|
            0 <= j2 < j && first_owner_index(interfaces, #[trigger] ranges[j2], 0) >= 0 ==> pre[
                first_owner_index(interfaces, ranges[j2], 0)
            ].ranges@.contains(ranges[j2]),
        forall|k: int, i2: int|
            0 <= k < pre.len() && 0 <= i2 < pre[k].ranges@.len() ==> owned_bucket_entry(
                interfaces,
                ranges,
                j,
                #[trigger] pre[k].ranges@[i2],
                k,
            ),
    ensures
        forall|j2: int|
            0 <= j2 < j + 1 && first_owner_index(interfaces, #[trigger] ranges[j2], 0) >= 0
                ==> post[first_owner_index(interfaces, ranges[j2], 0)].ranges@.contains(
                ranges[j2],
            ),
        forall|k: int, i2: int|
            0 <= k < post.len() && 0 <= i2 < post[k].ranges@.len() ==> owned_bucket_entry(
                interfaces,
                ranges,
                j + 1,
                #[trigger] post[k].ranges@[i2],
                k,
            ),
{
    assert forall|j2: int|
        0 <= j2 < j + 1 && first_owner_index(interfaces, #[trigger] ranges[j2], 0) >= 0 implies
        post[first_owner_index(interfaces, ranges[j2], 0)].ranges@.contains(ranges[j2]) by {
        let o = first_owner_index(interfaces, ranges[j2], 0);
        lemma_first_owner_bounds(interfaces, ranges[j2], 0);
        if j2 == j {
            assert(post[idx].ranges@[pre[idx].ranges@.len() as int] == ranges[j]);
        } else {
            assert(0 <= j2 < j);
            assert(pre[o].ranges@.contains(ranges[j2]));
            let w = choose|w: int|
                0 <= w < pre[o].ranges@.len() && #[trigger] pre[o].ranges@[w] == ranges[j2];
            if o == idx {
                assert(post[o].ranges@[w] == pre[o].ranges@[w]);
            } else {
                assert(post[o] == pre[o]);
            }
            assert(post[o].ranges@[w] == ranges[j2]);
        }
    }
    assert forall|k: int, i2: int|
        0 <= k < post.len() && 0 <= i2 < post[k].ranges@.len() implies owned_bucket_entry(
        interfaces,
        ranges,
        j + 1,
        #[trigger] post[k].ranges@[i2],
        k,
    ) by {
        if k == idx && i2 == pre[idx].ranges@.len() {
            assert(post[k].ranges@[i2] == ranges[j]);
        } else if k == idx {
            assert(post[k].ranges@[i2] == pre[k].ranges@[i2]);
            assert(owned_bucket_entry(interfaces, ranges, j, pre[k].ranges@[i2], k));
            let w = choose|j2: int|
                0 <= j2 < j && pre[k].ranges@[i2] == #[trigger] ranges[j2];
            assert(post[k].ranges@[i2] == ranges[w]);
        } else {
            assert(post[k] == pre[k]);
            assert(owned_bucket_entry(interfaces, ranges, j, pre[k].ranges@[i2], k));
            let w = choose|j2: int|
                0 <= j2 < j && pre[k].ranges@[i2] == #[trigger] ranges[j2];
            assert(post[k].ranges@[i2] == ranges[w]);
        }
    }
}


proof fn lemma_push_contains_addr(pre: Seq<IpAddress>, t: IpAddress, post: Seq<IpAddress>)
    requires
        post == pre.push(t),
    ensures
        forall|x: IpAddress| (#[trigger] post.contains(x)) <==> pre.contains(x) || x == t,
{
    assert forall|x: IpAddress| (#[trigger] post.contains(x)) <==> pre.contains(x) || x == t by {
        if post.contains(x) {
            let w = choose|w: int| 0 <= w < post.len() && #[trigger] post[w] == x;
            if w < pre.len() {
                assert(pre[w] == x);
            }
        }
        if pre.contains(x) {
            let w = choose|w: int| 0 <= w < pre.len() && #[trigger] pre[w] == x;
            assert(post[w] == x);
        }
        if x == t {
            assert(post[pre.len() as int] == x);
        }
    }
}

/// Phase two of target routing: each pending single joins the first
/// usable interface it sits on, or — given the source address the
/// kernel picked for it — the first usable interface owning that
/// source, or the unmapped remainder; exactly one of the three.
#[verifier::rlimit(100)]
pub fn assign_singles(
    interfaces: &Vec<InterfaceInfo>,
    locals: Vec<IpCollection>,
    resolved: &Vec<(IpAddress, Option<IpAddress>)>,
) -> (r: (InterfaceBuckets, IpCollection))
    requires
        forall|k: int| 0 <= k < interfaces@.len() ==> (#[trigger] interfaces@[k]).wf(),
        locals@.len() == interfaces@.len(),
        forall|k: int| 0 <= k < locals@.len() ==> (#[trigger] locals@[k]).wf(),
    ensures
        r.0.local@.len() == interfaces@.len(),
        r.0.routed@.len() == interfaces@.len(),
        forall|k: int| 0 <= k < r.0.local@.len() ==> (#[trigger] r.0.local@[k]).wf(),
        forall|k: int| 0 <= k < r.0.routed@.len() ==> (#[trigger] r.0.routed@[k]).wf(),
        r.1.wf(),
        // local buckets keep their intervals and gain exactly the
        // on-subnet pending targets
        forall|k: int| 0 <= k < r.0.local@.len() ==> (#[trigger] r.0.local@[k]).ranges@ == locals@[
            k
        ].ranges@,
        forall|k: int, x: IpAddress|
            0 <= k < r.0.local@.len() ==> ((#[trigger] r.0.local@[k].singles@.contains(x))
                <==> locals@[k].singles@.contains(x) || (spec_pending_target(resolved@, x)
                && first_usable_local_index(interfaces@, x, 0) == k)),
        // routed buckets hold exactly the kernel-routed targets
        forall|k: int| 0 <= k < r.0.routed@.len() ==> (#[trigger] r.0.routed@[k]).ranges@.len()
            == 0,
        forall|k: int, x: IpAddress|
            0 <= k < r.0.routed@.len() ==> ((#[trigger] r.0.routed@[k].singles@.contains(x))
                <==> spec_routed_to(interfaces@, resolved@, x, k)),
        // the unmapped remainder holds exactly what neither phase placed
        r.1.ranges@.len() == 0,
        forall|x: IpAddress|
            #[trigger] r.1.singles@.contains(x) <==> spec_unmapped(interfaces@, resolved@, x),
{
    let n = interfaces.len();
    let mut local = locals;
    let mut routed: Vec<IpCollection> = Vec::new();
    let mut i: usize = 0;
    while i < n
        invariant
            0 <= i <= n,
            routed@.len() == i,
            forall|k: int| 0 <= k < i ==> (#[trigger] routed@[k]).wf(),
            forall|k: int| 0 <= k < i ==> (#[trigger] routed@[k]).ranges@.len() == 0,
            forall|k: int| 0 <= k < i ==> (#[trigger] routed@[k]).singles@.len() == 0,
        decreases n - i,
    {
        routed.push(IpCollection::new());
        i = i + 1;
    }
    let mut unmapped = IpCollection::new();
    let m = resolved.len();
    let mut j: usize = 0;
    while j < m
        invariant
            0 <= j <= m == resolved@.len(),
            forall|k: int| 0 <= k < interfaces@.len() ==> (#[trigger] interfaces@[k]).wf(),
            local@.len() == n == interfaces@.len(),
            routed@.len() == n,
            forall|k: int| 0 <= k < local@.len() ==> (#[trigger] local@[k]).wf(),
            forall|k: int| 0 <= k < routed@.len() ==> (#[trigger] routed@[k]).wf(),
            unmapped.wf(),
            unmapped.ranges@.len() == 0,
            forall|k: int| 0 <= k < local@.len() ==> (#[trigger] local@[k]).ranges@ == locals@[
                k
            ].ranges@,
            forall|k: int| 0 <= k < routed@.len() ==> (#[trigger] routed@[k]).ranges@.len() == 0,
            forall|k: int, x: IpAddress|
                0 <= k < local@.len() ==> ((#[trigger] local@[k].singles@.contains(x)) <==> locals@[
                    k
                ].singles@.contains(x) || (spec_pending_target(resolved@.subrange(0, j as int), x)
                    && first_usable_local_index(interfaces@, x, 0) == k)),
            forall|k: int, x: IpAddress|
                0 <= k < routed@.len() ==> ((#[trigger] routed@[k].singles@.contains(x))
                    <==> spec_routed_to(interfaces@, resolved@.subrange(0, j as int), x, k)),
            forall|x: IpAddress|
                #[trigger] unmapped.singles@.contains(x) <==> spec_unmapped(
                    interfaces@,
                    resolved@.subrange(0, j as int),
                    x,
                ),
        decreases m - j,
    {
        let (target, source) = resolved[j];
        let ghost pre_res = resolved@.subrange(0, j as int);
        let ghost cur_res = resolved@.subrange(0, (j + 1) as int);
        proof {
            lemma_resolved_prefix(resolved@, j as int);
        }
        match find_usable_local(interfaces, &target) {
            Some(idx) => {
                let ghost pre = local@;
                let mut bucket = local.remove(idx);
                bucket.add_single(target);
                local.insert(idx, bucket);
                proof {
                    assert(forall|k: int|
                        0 <= k < local@.len() && k != idx ==> local@[k] == #[trigger] pre[k]);
                    assert(local@[idx as int].ranges@ == pre[idx as int].ranges@);
                    assert forall|k: int, x: IpAddress| 0 <= k < local@.len() implies ((
                    #[trigger] local@[k].singles@.contains(x)) <==> locals@[k].singles@.contains(x)
                        || (spec_pending_target(cur_res, x) && first_usable_local_index(
                        interfaces@,
                        x,
                        0,
                    ) == k)) by {
                        lemma_entry_in_prefix(resolved@, j as int, x);
                    }
                    assert forall|k: int, x: IpAddress| 0 <= k < routed@.len() implies ((
                    #[trigger] routed@[k].singles@.contains(x)) <==> spec_routed_to(
                        interfaces@,
                        cur_res,
                        x,
                        k,
                    )) by {
                        lemma_routed_in_prefix(interfaces@, resolved@, j as int, x, k);
                    }
                    assert forall|x: IpAddress| #[trigger] unmapped.singles@.contains(x)
                        <==> spec_unmapped(interfaces@, cur_res, x) by {
                        lemma_unmapped_in_prefix(interfaces@, resolved@, j as int, x);
                    }
                }
            },
            None => {
                let mut routed_idx: Option<usize> = None;
                match source {
                    Some(src) => {
                        routed_idx = find_source_owner(interfaces, &src);
                    },
                    None => {},
                }
                match routed_idx {
                    Some(idx) => {
                        let ghost pre = routed@;
                        let mut bucket = routed.remove(idx);
                        bucket.add_single(target);
                        routed.insert(idx, bucket);
                        proof {
                            assert(forall|k: int|
                                0 <= k < routed@.len() && k != idx ==> routed@[k] == #[trigger] pre[
                                    k
                                ]);
                            assert(routed@[idx as int].ranges@ == pre[idx as int].ranges@);
                            assert forall|k: int, x: IpAddress| 0 <= k < local@.len() implies ((
                            #[trigger] local@[k].singles@.contains(x)) <==> locals@[
                                k
                            ].singles@.contains(x) || (spec_pending_target(cur_res, x)
                                && first_usable_local_index(interfaces@, x, 0) == k)) by {
                                lemma_entry_in_prefix(resolved@, j as int, x);
                            }
                            assert forall|k: int, x: IpAddress| 0 <= k < routed@.len() implies ((
                            #[trigger] routed@[k].singles@.contains(x)) <==> spec_routed_to(
                                interfaces@,
                                cur_res,
                                x,
                                k,
                            )) by {
                                lemma_routed_in_prefix(interfaces@, resolved@, j as int, x, k);
                            }
                            assert forall|x: IpAddress| #[trigger] unmapped.singles@.contains(x)
                                <==> spec_unmapped(interfaces@, cur_res, x) by {
                                lemma_unmapped_in_prefix(interfaces@, resolved@, j as int, x);
                            }
                        }
                    },
                    None => {
                        unmapped.add_single(target);
                        proof {
                            assert forall|k: int, x: IpAddress| 0 <= k < local@.len() implies ((
                            #[trigger] local@[k].singles@.contains(x)) <==> locals@[
                                k
                            ].singles@.contains(x) || (spec_pending_target(cur_res, x)
                                && first_usable_local_index(interfaces@, x, 0) == k)) by {
                                lemma_entry_in_prefix(resolved@, j as int, x);
                            }
                            assert forall|k: int, x: IpAddress| 0 <= k < routed@.len() implies ((
                            #[trigger] routed@[k].singles@.contains(x)) <==> spec_routed_to(
                                interfaces@,
                                cur_res,
                                x,
                                k,
                            )) by {
                                lemma_routed_in_prefix(interfaces@, resolved@, j as int, x, k);
                            }
                            assert forall|x: IpAddress| #[trigger] unmapped.singles@.contains(x)
                                <==> spec_unmapped(interfaces@, cur_res, x) by {
                                lemma_unmapped_in_prefix(interfaces@, resolved@, j as int, x);
                            }
                        }
                    },
                }
            },
        }
        j = j + 1;
    }
    proof {
        assert(resolved@.subrange(0, m as int) =~= resolved@);
    }
    (InterfaceBuckets { local, routed }, unmapped)
}

/// Whether `x` is one of the pending targets.
pub open spec fn spec_pending_target(resolved: Seq<(IpAddress, Option<IpAddress>)>, x: IpAddress) -> bool {
    exists|j: int| 0 <= j < resolved.len() && (#[trigger] resolved[j]).0 == x
}

/// Whether some pending entry routes `x` to interface `k`: it is not on
/// any usable subnet, and the kernel's source for it belongs to
/// interface `k`, the first usable owner.
pub open spec fn spec_routed_to(
    interfaces: Seq<InterfaceInfo>,
    resolved: Seq<(IpAddress, Option<IpAddress>)>,
    x: IpAddress,
    k: int,
) -> bool {
    exists|j: int|
        0 <= j < resolved.len() && (#[trigger] resolved[j]).0 == x && first_usable_local_index(
            interfaces,
            x,
            0,
        ) < 0 && resolved[j].1 is Some && first_source_owner_index(
            interfaces,
            resolved[j].1->0,
            0,
        ) == k
}

/// Whether some pending entry leaves `x` unmapped: no usable subnet
/// holds it, and no usable interface owns its kernel source.
pub open spec fn spec_unmapped(
    interfaces: Seq<InterfaceInfo>,
    resolved: Seq<(IpAddress, Option<IpAddress>)>,
    x: IpAddress,
) -> bool {
    exists|j: int|
        0 <= j < resolved.len() && (#[trigger] resolved[j]).0 == x && first_usable_local_index(
            interfaces,
            x,
            0,
        ) < 0 && (resolved[j].1 is None || first_source_owner_index(
            interfaces,
            resolved[j].1->0,
            0,
        ) < 0)
}

proof fn lemma_resolved_prefix(resolved: Seq<(IpAddress, Option<IpAddress>)>, j: int)
    requires
        0 <= j < resolved.len(),
    ensures
        forall|k: int|
            0 <= k < j ==> resolved.subrange(0, j + 1)[k] == #[trigger] resolved.subrange(0, j)[k],
        resolved.subrange(0, j + 1)[j] == resolved[j],
{
}

/// A prefix membership fact extended by one entry.
proof fn lemma_entry_in_prefix(
    resolved: Seq<(IpAddress, Option<IpAddress>)>,
    j: int,
    x: IpAddress,
)
    requires
        0 <= j < resolved.len(),
    ensures
        spec_pending_target(resolved.subrange(0, j + 1), x) <==> spec_pending_target(
            resolved.subrange(0, j),
            x,
        ) || resolved[j].0 == x,
{
    let a = resolved.subrange(0, j);
    let b = resolved.subrange(0, j + 1);
    if spec_pending_target(b, x) {
        let w = choose|w: int| 0 <= w < b.len() && (#[trigger] b[w]).0 == x;
        if w < j {
            assert(a[w].0 == x);
        } else {
            assert(b[j] == resolved[j]);
        }
    }
    if spec_pending_target(a, x) {
        let w = choose|w: int| 0 <= w < a.len() && (#[trigger] a[w]).0 == x;
        assert(b[w].0 == x);
    }
    if resolved[j].0 == x {
        assert(b[j].0 == x);
    }
}

proof fn lemma_routed_in_prefix(
    interfaces: Seq<InterfaceInfo>,
    resolved: Seq<(IpAddress, Option<IpAddress>)>,
    j: int,
    x: IpAddress,
    k: int,
)
    requires
        0 <= j < resolved.len(),
    ensures
        spec_routed_to(interfaces, resolved.subrange(0, j + 1), x, k) <==> spec_routed_to(
            interfaces,
            resolved.subrange(0, j),
            x,
            k,
        ) || (resolved[j].0 == x && first_usable_local_index(interfaces, x, 0) < 0
            && resolved[j].1 is Some && first_source_owner_index(interfaces, resolved[j].1->0, 0)
            == k),
{
    let a = resolved.subrange(0, j);
    let b = resolved.subrange(0, j + 1);
    if spec_routed_to(interfaces, b, x, k) {
        let w = choose|w: int|
            0 <= w < b.len() && (#[trigger] b[w]).0 == x && first_usable_local_index(
                interfaces,
                x,
                0,
            ) < 0 && b[w].1 is Some && first_source_owner_index(interfaces, b[w].1->0, 0) == k;
        if w < j {
            assert(a[w] == b[w]);
            assert(spec_routed_to(interfaces, a, x, k));
        } else {
            assert(b[j] == resolved[j]);
        }
    }
    if spec_routed_to(interfaces, a, x, k) {
        let w = choose|w: int|
            0 <= w < a.len() && (#[trigger] a[w]).0 == x && first_usable_local_index(
                interfaces,
                x,
                0,
            ) < 0 && a[w].1 is Some && first_source_owner_index(interfaces, a[w].1->0, 0) == k;
        assert(b[w] == a[w]);
        assert(spec_routed_to(interfaces, b, x, k));
    }
    if resolved[j].0 == x && first_usable_local_index(interfaces, x, 0) < 0 && resolved[j].1
        is Some && first_source_owner_index(interfaces, resolved[j].1->0, 0) == k {
        assert(b[j] == resolved[j]);
        assert(spec_routed_to(interfaces, b, x, k));
    }
}

proof fn lemma_unmapped_in_prefix(
    interfaces: Seq<InterfaceInfo>,
    resolved: Seq<(IpAddress, Option<IpAddress>)>,
    j: int,
    x: IpAddress,
)
    requires
        0 <= j < resolved.len(),
    ensures
        spec_unmapped(interfaces, resolved.subrange(0, j + 1), x) <==> spec_unmapped(
            interfaces,
            resolved.subrange(0, j),
            x,
        ) || (resolved[j].0 == x && first_usable_local_index(interfaces, x, 0) < 0 && (resolved[
            j
        ].1 is None || first_source_owner_index(interfaces, resolved[j].1->0, 0) < 0)),
{
    let a = resolved.subrange(0, j);
    let b = resolved.subrange(0, j + 1);
    if spec_unmapped(interfaces, b, x) {
        let w = choose|w: int|
            0 <= w < b.len() && (#[trigger] b[w]).0 == x && first_usable_local_index(
                interfaces,
                x,
                0,
            ) < 0 && (b[w].1 is None || first_source_owner_index(interfaces, b[w].1->0, 0) < 0);
        if w < j {
            assert(a[w] == b[w]);
            assert(spec_unmapped(interfaces, a, x));
        } else {
            assert(b[j] == resolved[j]);
        }
    }
    if spec_unmapped(interfaces, a, x) {
        let w = choose|w: int|
            0 <= w < a.len() && (#[trigger] a[w]).0 == x && first_usable_local_index(
                interfaces,
                x,
                0,
            ) < 0 && (a[w].1 is None || first_source_owner_index(interfaces, a[w].1->0, 0) < 0);
        assert(b[w] == a[w]);
        assert(spec_unmapped(interfaces, b, x));
    }
    if resolved[j].0 == x && first_usable_local_index(interfaces, x, 0) < 0 && (resolved[j].1
        is None || first_source_owner_index(interfaces, resolved[j].1->0, 0) < 0) {
        assert(b[j] == resolved[j]);
        assert(spec_unmapped(interfaces, b, x));
    }
}





} // verus!