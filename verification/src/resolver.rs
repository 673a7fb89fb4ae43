use vstd::prelude::*;

use crate::dnswire::{self, MdnsRecord};
use crate::error::ScanError;
use crate::frames;
use crate::host::Host;
use crate::ipset::IpSet;
use crate::net::IpAddress;

verus! {

/// The hostname pipeline's state: outstanding queries by transaction
/// id, resolved names, absorbed mDNS records, and the id counter. The
/// caller owns the sockets; this machine only builds and reads bytes.
#[derive(Debug)]
pub struct ResolverState {
    /// The nameserver the queries go to.
    pub dns_ip: IpAddress,
    pub dns_port: u16,
    /// Outstanding queries: transaction id to queried address.
    pub dns_map: Vec<(u16, IpAddress)>,
    /// Names resolved so far, by address.
    pub hostname_map: Vec<(IpAddress, String)>,
    /// mDNS records absorbed so far, keyed by their preferred address.
    pub mdns_cache: Vec<(IpAddress, MdnsRecord)>,
    pub id_counter: u16,
}

/// Which addresses are worth a PTR query: every IPv4 one, and only
/// globally-unicast IPv6 ones.
pub open spec fn spec_is_queryable(ip: IpAddress) -> bool {
    match ip {
        IpAddress::V4(_) => true,
        IpAddress::V6(v) => crate::net::spec_is_global_unicast(v),
    }
}

pub fn is_queryable(ip: &IpAddress) -> (r: bool)
    ensures
        r == spec_is_queryable(*ip),
{
    match ip {
        IpAddress::V4(_) => true,
        IpAddress::V6(v) => crate::net::is_global_unicast(*v),
    }
}

/// The first entry with this transaction id, or -1.
pub open spec fn find_id_index(m: Seq<(u16, IpAddress)>, id: u16, i: int) -> int
    decreases m.len() - i,
{
    if i < 0 || i >= m.len() {
        -1
    } else if m[i].0 == id {
        i
    } else {
        find_id_index(m, id, i + 1)
    }
}

proof fn lemma_find_id_from(m: Seq<(u16, IpAddress)>, id: u16, j: int, i: int)
    requires
        0 <= j <= i <= m.len(),
        forall|k: int| j <= k < i ==> (#[trigger] m[k]).0 != id,
        i == m.len() || m[i].0 == id,
    ensures
        find_id_index(m, id, j) == if i == m.len() {
            -1int
        } else {
            i
        },
    decreases i - j,
{
    if j < i {
        lemma_find_id_from(m, id, j + 1, i);
    }
}

/// The first resolved-name entry for this address, or -1.
pub open spec fn find_name_index(m: Seq<(IpAddress, String)>, ip: IpAddress, i: int) -> int
    decreases m.len() - i,
{
    if i < 0 || i >= m.len() {
        -1
    } else if m[i].0 == ip {
        i
    } else {
        find_name_index(m, ip, i + 1)
    }
}

proof fn lemma_find_name_from(m: Seq<(IpAddress, String)>, ip: IpAddress, j: int, i: int)
    requires
        0 <= j <= i <= m.len(),
        forall|k: int| j <= k < i ==> (#[trigger] m[k]).0 != ip,
        i == m.len() || m[i].0 == ip,
    ensures
        find_name_index(m, ip, j) == if i == m.len() {
            -1int
        } else {
            i
        },
    decreases i - j,
{
    if j < i {
        lemma_find_name_from(m, ip, j + 1, i);
    }
}

/// The first cached record for this address, or -1.
pub open spec fn find_record_index(m: Seq<(IpAddress, MdnsRecord)>, ip: IpAddress, i: int) -> int
    decreases m.len() - i,
{
    if i < 0 || i >= m.len() {
        -1
    } else if m[i].0 == ip {
        i
    } else {
        find_record_index(m, ip, i + 1)
    }
}

proof fn lemma_find_record_from(m: Seq<(IpAddress, MdnsRecord)>, ip: IpAddress, j: int, i: int)
    requires
        0 <= j <= i <= m.len(),
        forall|k: int| j <= k < i ==> (#[trigger] m[k]).0 != ip,
        i == m.len() || m[i].0 == ip,
    ensures
        find_record_index(m, ip, j) == if i == m.len() {
            -1int
        } else {
            i
        },
    decreases i - j,
{
    if j < i {
        lemma_find_record_from(m, ip, j + 1, i);
    }
}

/// What one nameserver payload does to the transaction and name maps:
/// a parsed answer whose id is outstanding settles the transaction and
/// books the name; anything else leaves both maps alone.
pub open spec fn spec_dns_transition(
    dns0: Seq<(u16, IpAddress)>,
    hm0: Seq<(IpAddress, String)>,
    dns1: Seq<(u16, IpAddress)>,
    hm1: Seq<(IpAddress, String)>,
    payload: Seq<u8>,
) -> bool {
    match dnswire::spec_get_hostname(payload) {
        Some((id, name)) => {
            let w = find_id_index(dns0, id as u16, 0);
            if w >= 0 {
                &&& dns1 == dns0.remove(w)
                &&& hm1.len() == hm0.len() + 1
                &&& (forall|k: int| 0 <= k < hm0.len() ==> hm1[k] == #[trigger] hm0[k])
                &&& hm1.last().0 == dns0[w].1
                &&& hm1.last().1@ == name
            } else {
                dns1 == dns0 && hm1 == hm0
            }
        },
        None => dns1 == dns0 && hm1 == hm0,
    }
}

/// The address an mDNS record is cached under: the first member when it
/// is IPv4 (the members sort IPv4 first), else the first link-local
/// IPv6 member, else the first member.
pub open spec fn spec_preferred(ips: Seq<IpAddress>) -> Option<IpAddress> {
    if ips.len() == 0 {
        None
    } else if ips[0] is V4 {
        Some(ips[0])
    } else {
        let w = find_ll_index(ips, 0);
        if w >= 0 {
            Some(ips[w])
        } else {
            Some(ips[0])
        }
    }
}

/// The first link-local IPv6 member, or -1.
pub open spec fn find_ll_index(ips: Seq<IpAddress>, i: int) -> int
    decreases ips.len() - i,
{
    if i < 0 || i >= ips.len() {
        -1
    } else if ips[i] is V6 && crate::net::spec_v6_is_unicast_link_local(ips[i]->V6_0) {
        i
    } else {
        find_ll_index(ips, i + 1)
    }
}

proof fn lemma_find_ll_from(ips: Seq<IpAddress>, j: int, i: int)
    requires
        0 <= j <= i <= ips.len(),
        forall|k: int|
            j <= k < i ==> !((#[trigger] ips[k]) is V6 && crate::net::spec_v6_is_unicast_link_local(
                ips[k]->V6_0,
            )),
        i == ips.len() || (ips[i] is V6 && crate::net::spec_v6_is_unicast_link_local(
            ips[i]->V6_0,
        )),
    ensures
        find_ll_index(ips, j) == if i == ips.len() {
            -1int
        } else {
            i
        },
    decreases i - j,
{
    if j < i {
        lemma_find_ll_from(ips, j + 1, i);
    }
}

/// What one mDNS payload does to the cache: a parsed record carrying
/// addresses is appended under its preferred address; anything else
/// leaves the cache alone.
pub open spec fn spec_mdns_transition(
    cache0: Seq<(IpAddress, MdnsRecord)>,
    cache1: Seq<(IpAddress, MdnsRecord)>,
    payload: Seq<u8>,
) -> bool {
    match dnswire::spec_extract_resource(payload) {
        Some(sp) => {
            if sp.1.len() > 0 {
                &&& cache1.len() == cache0.len() + 1
                &&& (forall|k: int| 0 <= k < cache0.len() ==> cache1[k] == #[trigger] cache0[k])
                &&& (cache1.last().1.hostname is Some <==> sp.0 is Some)
                &&& (cache1.last().1.hostname is Some ==> cache1.last().1.hostname->0@ == sp.0->0)
                &&& cache1.last().1.ips.wf()
                &&& (forall|x: IpAddress| cache1.last().1.ips@.contains(x) <==> sp.1.contains(x))
                &&& Some(cache1.last().0) == spec_preferred(cache1.last().1.ips@)
            } else {
                cache1 == cache0
            }
        },
        None => cache1 == cache0,
    }
}

/// The join of one host's addresses against the maps, in address
/// order: a missing hostname is taken (and its entry removed) from the
/// name map at the first matching address, a matching cached mDNS
/// record is removed, its hostname taken when none is set yet, and its
/// addresses gathered for the host's set.
pub open spec fn spec_join_fold(
    ips: Seq<IpAddress>,
    i: int,
    hostname: Option<String>,
    hm: Seq<(IpAddress, String)>,
    cache: Seq<(IpAddress, MdnsRecord)>,
    extra: Seq<IpAddress>,
) -> (Option<String>, Seq<(IpAddress, String)>, Seq<(IpAddress, MdnsRecord)>, Seq<IpAddress>)
    decreases ips.len() - i,
{
    if i < 0 || i >= ips.len() {
        (hostname, hm, cache, extra)
    } else {
        let ip = ips[i];
        let wh = find_name_index(hm, ip, 0);
        let hostname1 = if hostname is None && wh >= 0 {
            Some(hm[wh].1)
        } else {
            hostname
        };
        let hm1 = if hostname is None && wh >= 0 {
            hm.remove(wh)
        } else {
            hm
        };
        let wc = find_record_index(cache, ip, 0);
        if wc >= 0 {
            let rec = cache[wc].1;
            let hostname2 = if hostname1 is None && rec.hostname is Some {
                rec.hostname
            } else {
                hostname1
            };
            spec_join_fold(ips, i + 1, hostname2, hm1, cache.remove(wc), extra + rec.ips@)
        } else {
            spec_join_fold(ips, i + 1, hostname1, hm1, cache, extra)
        }
    }
}

/// What one resolution pass may do to a host: bookkeeping fields stay,
/// an IPv4 primary stays, a hostname once set stays, and the address
/// set only grows.
pub open spec fn spec_resolved_host(h0: Host, h1: Host) -> bool {
    &&& h1.wf()
    &&& h1.mac == h0.mac
    &&& h1.vendor == h0.vendor
    &&& h1.ports@ == h0.ports@
    &&& h1.network_roles@ == h0.network_roles@
    &&& h1.rtts() == h0.rtts()
    &&& (h0.primary_ip is V4 ==> h1.primary_ip == h0.primary_ip)
    &&& (h0.hostname is Some ==> h1.hostname == h0.hostname)
    &&& (forall|x: IpAddress| h0.ips@.contains(x) ==> #[trigger] h1.ips@.contains(x))
}

/// The join never replaces a hostname that is already set.
proof fn lemma_join_keeps_some(
    ips: Seq<IpAddress>,
    i: int,
    hn: Option<String>,
    hm: Seq<(IpAddress, String)>,
    cache: Seq<(IpAddress, MdnsRecord)>,
    extra: Seq<IpAddress>,
)
    requires
        hn is Some,
    ensures
        spec_join_fold(ips, i, hn, hm, cache, extra).0 == hn,
    decreases ips.len() - i,
{
    if 0 <= i < ips.len() {
        let ip = ips[i];
        let wc = find_record_index(cache, ip, 0);
        if wc >= 0 {
            lemma_join_keeps_some(ips, i + 1, hn, hm, cache.remove(wc), extra + cache[wc].1.ips@);
        } else {
            lemma_join_keeps_some(ips, i + 1, hn, hm, cache, extra);
        }
    }
}

impl ResolverState {
    pub fn new(dns_ip: IpAddress, dns_port: u16) -> (r: ResolverState)
        ensures
            r.dns_ip == dns_ip,
            r.dns_port == dns_port,
            r.dns_map@.len() == 0,
            r.hostname_map@.len() == 0,
            r.mdns_cache@.len() == 0,
            r.id_counter == 0,
    {
        ResolverState {
            dns_ip,
            dns_port,
            dns_map: Vec::new(),
            hostname_map: Vec::new(),
            mdns_cache: Vec::new(),
            id_counter: 0,
        }
    }

    /// The next transaction id; the counter wraps.
    fn next_trans_id(&mut self) -> (r: u16)
        ensures
            r == old(self).id_counter,
            final(self).id_counter == (if old(self).id_counter == u16::MAX {
                0
            } else {
                old(self).id_counter + 1
            }),
            final(self).dns_ip == old(self).dns_ip,
            final(self).dns_port == old(self).dns_port,
            final(self).dns_map@ == old(self).dns_map@,
            final(self).hostname_map@ == old(self).hostname_map@,
            final(self).mdns_cache@ == old(self).mdns_cache@,
    {
        let id = self.id_counter;
        self.id_counter = if self.id_counter == u16::MAX {
            0
        } else {
            self.id_counter + 1
        };
        id
    }

    /// Builds the UDP payload of one PTR query for an address, books the
    /// transaction, and says which id was used. Only queryable addresses
    /// are asked about.
    pub fn prepare_query(&mut self, ip: &IpAddress, src_port: u16) -> (r: Result<
        (Vec<u8>, u16),
        ScanError,
    >)
        ensures
            r is Ok <==> spec_is_queryable(*ip),
            r is Err ==> r->Err_0 == ScanError::Resolver && *final(self) == *old(self),
            r is Ok ==> {
                &&& (r->Ok_0).1 == old(self).id_counter
                &&& (r->Ok_0).0@ == frames::udp_packet_bytes(
                    src_port,
                    old(self).dns_port,
                    dnswire::ptr_query_bytes(
                        old(self).id_counter,
                        crate::iptext::ptr_name_text(*ip),
                    ),
                )
                &&& final(self).dns_map@ == old(self).dns_map@.push(
                    (old(self).id_counter, *ip),
                )
            },
    {
        if !is_queryable(ip) {
            return Err(ScanError::Resolver);
        }
        let id = self.next_trans_id();
        let query = dnswire::create_ptr_packet(ip, id);
        proof {
            lemma_ptr_query_len(id, *ip);
        }
        let payload = frames::create_udp_packet(src_port, self.dns_port, &query);
        self.dns_map.push((id, *ip));
        Ok((payload, id))
    }

    /// Routes one captured UDP datagram by source port: a nameserver
    /// answer feeds the hostname map, an mDNS announcement the cache;
    /// everything else is ignored.
    pub fn process_udp_packet(&mut self, bytes: &Vec<u8>) -> (r: Result<(), ScanError>)
        ensures
            r is Err ==> r->Err_0 == ScanError::Decode,
            final(self).dns_ip == old(self).dns_ip,
            final(self).dns_port == old(self).dns_port,
            final(self).id_counter == old(self).id_counter,
            bytes@.len() < 8 ==> r is Err && *final(self) == *old(self),
            bytes@.len() >= 8 && frames::be_val(bytes@.subrange(0, 2)) == 53 ==> {
                let tail = bytes@.subrange(8, bytes@.len() as int);
                &&& (r is Ok <==> dnswire::spec_get_hostname(tail) is Some)
                &&& spec_dns_transition(
                    old(self).dns_map@,
                    old(self).hostname_map@,
                    final(self).dns_map@,
                    final(self).hostname_map@,
                    tail,
                )
                &&& final(self).mdns_cache@ == old(self).mdns_cache@
            },
            bytes@.len() >= 8 && frames::be_val(bytes@.subrange(0, 2)) == 5353 ==> {
                let tail = bytes@.subrange(8, bytes@.len() as int);
                &&& (r is Ok <==> dnswire::spec_extract_resource(tail) is Some)
                &&& spec_mdns_transition(old(self).mdns_cache@, final(self).mdns_cache@, tail)
                &&& final(self).dns_map@ == old(self).dns_map@
                &&& final(self).hostname_map@ == old(self).hostname_map@
            },
            bytes@.len() >= 8 && frames::be_val(bytes@.subrange(0, 2)) != 53 && frames::be_val(
                bytes@.subrange(0, 2),
            ) != 5353 ==> r is Ok && *final(self) == *old(self),
    {
        let sport = match frames::udp_source_port(bytes) {
            Some(p) => p,
            None => {
                return Err(ScanError::Decode);
            },
        };
        let payload = vec_tail(bytes, 8);
        if sport == 53 {
            self.process_dns_packet(&payload)
        } else if sport == 5353 {
            self.process_mdns_packet(&payload)
        } else {
            Ok(())
        }
    }

    /// A nameserver answer: when its transaction is outstanding, the
    /// queried address learns the answered name and the transaction is
    /// settled.
    pub fn process_dns_packet(&mut self, payload: &Vec<u8>) -> (r: Result<(), ScanError>)
        ensures
            r is Ok <==> dnswire::spec_get_hostname(payload@) is Some,
            r is Err ==> r->Err_0 == ScanError::Decode && *final(self) == *old(self),
            spec_dns_transition(
                old(self).dns_map@,
                old(self).hostname_map@,
                final(self).dns_map@,
                final(self).hostname_map@,
                payload@,
            ),
            final(self).dns_ip == old(self).dns_ip,
            final(self).dns_port == old(self).dns_port,
            final(self).id_counter == old(self).id_counter,
            final(self).mdns_cache@ == old(self).mdns_cache@,
    {
        let (id, name) = match dnswire::get_hostname(payload) {
            Ok(v) => v,
            Err(e) => {
                return Err(e);
            },
        };
        match assoc_take_id(&mut self.dns_map, id) {
            Some(ip) => {
                self.hostname_map.push((ip, name));
            },
            None => {},
        }
        Ok(())
    }

    /// An mDNS announcement: cached under its preferred address — the
    /// first IPv4 member, else the first link-local IPv6 member, else
    /// the first member.
    pub fn process_mdns_packet(&mut self, payload: &Vec<u8>) -> (r: Result<(), ScanError>)
        ensures
            r is Ok <==> dnswire::spec_extract_resource(payload@) is Some,
            r is Err ==> r->Err_0 == ScanError::Decode && *final(self) == *old(self),
            spec_mdns_transition(old(self).mdns_cache@, final(self).mdns_cache@, payload@),
            final(self).dns_ip == old(self).dns_ip,
            final(self).dns_port == old(self).dns_port,
            final(self).id_counter == old(self).id_counter,
            final(self).dns_map@ == old(self).dns_map@,
            final(self).hostname_map@ == old(self).hostname_map@,
    {
        let record = match dnswire::extract_resource(payload) {
            Ok(v) => v,
            Err(e) => {
                return Err(e);
            },
        };
        proof {
            // the record holds addresses exactly when the message named any
            let sp = dnswire::spec_extract_resource(payload@)->0;
            if sp.1.len() > 0 {
                assert(sp.1.contains(sp.1[0]));
                assert(record.ips@.contains(sp.1[0]));
            }
            if record.ips@.len() > 0 {
                assert(record.ips@.contains(record.ips@[0]));
                assert(sp.1.contains(record.ips@[0]));
            }
        }
        match preferred_ip(&record) {
            Some(key) => {
                self.mdns_cache.push((key, record));
            },
            None => {},
        }
        Ok(())
    }

    /// The join phase, after all scanners are done: every host takes
    /// the first resolved name among its addresses if it has none, and
    /// absorbs the addresses of any cached mDNS record keyed by one of
    /// its own.
    pub fn resolve_hosts(&mut self, hosts: &mut Vec<Host>)
        requires
            forall|i: int| 0 <= i < old(hosts)@.len() ==> (#[trigger] old(hosts)@[i]).wf(),
        ensures
            final(hosts)@.len() == old(hosts)@.len(),
            forall|k: int|
                0 <= k < final(hosts)@.len() ==> spec_resolved_host(
                    old(hosts)@[k],
                    #[trigger] final(hosts)@[k],
                ),
            final(self).dns_ip == old(self).dns_ip,
            final(self).dns_port == old(self).dns_port,
            final(self).id_counter == old(self).id_counter,
            final(self).dns_map@ == old(self).dns_map@,
    {
        let n = hosts.len();
        let mut i: usize = 0;
        while i < n
            invariant
                0 <= i <= n == hosts@.len() == old(hosts)@.len(),
                forall|k: int| i <= k < n ==> hosts@[k] == #[trigger] old(hosts)@[k],
                forall|k: int|
                    0 <= k < i ==> spec_resolved_host(old(hosts)@[k], #[trigger] hosts@[k]),
                forall|k: int| 0 <= k < old(hosts)@.len() ==> (#[trigger] old(hosts)@[k]).wf(),
                self.dns_ip == old(self).dns_ip,
                self.dns_port == old(self).dns_port,
                self.id_counter == old(self).id_counter,
                self.dns_map@ == old(self).dns_map@,
            decreases n - i,
        {
            let ghost pre = hosts@;
            let ghost hm_pre = self.hostname_map@;
            let ghost c_pre = self.mdns_cache@;
            let mut host = hosts.remove(i);
            let ghost h0 = host;
            self.resolve_one(&mut host);
            hosts.insert(i, host);
            proof {
                assert(forall|k: int|
                    0 <= k < hosts@.len() && k != i ==> hosts@[k] == #[trigger] pre[k]);
                assert(h0 == old(hosts)@[i as int]);
                if h0.hostname is Some {
                    lemma_join_keeps_some(
                        h0.ips@,
                        0,
                        h0.hostname,
                        hm_pre,
                        c_pre,
                        Seq::<IpAddress>::empty(),
                    );
                }
                assert forall|x: IpAddress| h0.ips@.contains(x) implies #[trigger] host.ips@.contains(
                    x,
                ) by {
                    let f = spec_join_fold(
                        h0.ips@,
                        0,
                        h0.hostname,
                        hm_pre,
                        c_pre,
                        Seq::<IpAddress>::empty(),
                    );
                    assert(host.ips@.contains(x) <==> h0.ips@.contains(x) || f.3.contains(x));
                }
                assert(spec_resolved_host(old(hosts)@[i as int], hosts@[i as int]));
            }
            i = i + 1;
        }
    }

    /// Joins the maps into one host, walking the addresses the host
    /// held when the join began.
    pub fn resolve_one(&mut self, host: &mut Host)
        requires
            old(host).wf(),
        ensures
            final(host).wf(),
            ({
                let f = spec_join_fold(
                    old(host).ips@,
                    0,
                    old(host).hostname,
                    old(self).hostname_map@,
                    old(self).mdns_cache@,
                    Seq::<IpAddress>::empty(),
                );
                &&& final(host).hostname == f.0
                &&& final(self).hostname_map@ == f.1
                &&& final(self).mdns_cache@ == f.2
                &&& (forall|x: IpAddress|
                    #[trigger] final(host).ips@.contains(x) <==> old(host).ips@.contains(x)
                        || f.3.contains(x))
            }),
            old(host).primary_ip is V4 ==> final(host).primary_ip == old(host).primary_ip,
            final(host).mac == old(host).mac,
            final(host).vendor == old(host).vendor,
            final(host).ports@ == old(host).ports@,
            final(host).network_roles@ == old(host).network_roles@,
            final(host).rtts() == old(host).rtts(),
            final(self).dns_ip == old(self).dns_ip,
            final(self).dns_port == old(self).dns_port,
            final(self).id_counter == old(self).id_counter,
            final(self).dns_map@ == old(self).dns_map@,
    {
        let ghost ips0 = host.ips@;
        let ghost h0 = host.hostname;
        let ghost hm0 = self.hostname_map@;
        let ghost c0 = self.mdns_cache@;
        let ghost full = spec_join_fold(ips0, 0, h0, hm0, c0, Seq::<IpAddress>::empty());
        let ips = host.ips.to_vec();
        let n = ips.len();
        let mut i: usize = 0;
        let ghost mut extra = Seq::<IpAddress>::empty();
        while i < n
            invariant
                0 <= i <= n == ips0.len(),
                ips@ == ips0,
                host.wf(),
                spec_join_fold(
                    ips0,
                    i as int,
                    host.hostname,
                    self.hostname_map@,
                    self.mdns_cache@,
                    extra,
                ) == full,
                forall|x: IpAddress|
                    host.ips@.contains(x) <==> ips0.contains(x) || extra.contains(x),
                old(host).primary_ip is V4 ==> host.primary_ip == old(host).primary_ip,
                host.mac == old(host).mac,
                host.vendor == old(host).vendor,
                host.ports@ == old(host).ports@,
                host.network_roles@ == old(host).network_roles@,
                host.rtts() == old(host).rtts(),
                self.dns_ip == old(self).dns_ip,
                self.dns_port == old(self).dns_port,
                self.id_counter == old(self).id_counter,
                self.dns_map@ == old(self).dns_map@,
            decreases n - i,
        {
            let ip = ips[i];
            let ghost c_in = self.mdns_cache@;
            let ghost extra_in = extra;
            self.join_step(host, &ip);
            proof {
                let wc = find_record_index(c_in, ip, 0);
                if wc >= 0 {
                    extra = extra + c_in[wc].1.ips@;
                    assert forall|x: IpAddress| host.ips@.contains(x) <==> ips0.contains(x)
                        || extra.contains(x) by {
                        dnswire::lemma_seq_concat_contains(extra_in, c_in[wc].1.ips@, x);
                    }
                }
                // the state now stands one fold step further along
                assert(spec_join_fold(
                    ips0,
                    (i + 1) as int,
                    host.hostname,
                    self.hostname_map@,
                    self.mdns_cache@,
                    extra,
                ) == full) by {
                    assert(ips0[i as int] == ip);
                }
            }
            i = i + 1;
        }
    }

    /// One join step: the fold of `spec_join_fold` for a single
    /// address, applied to the live maps and the host.
    fn join_step(&mut self, host: &mut Host, ip: &IpAddress)
        requires
            old(host).wf(),
        ensures
            final(host).wf(),
            ({
                let hn_in = old(host).hostname;
                let hm_in = old(self).hostname_map@;
                let c_in = old(self).mdns_cache@;
                let wh = find_name_index(hm_in, *ip, 0);
                let hn1 = if hn_in is None && wh >= 0 {
                    Some(hm_in[wh].1)
                } else {
                    hn_in
                };
                let hm1 = if hn_in is None && wh >= 0 {
                    hm_in.remove(wh)
                } else {
                    hm_in
                };
                let wc = find_record_index(c_in, *ip, 0);
                &&& final(self).hostname_map@ == hm1
                &&& (wc >= 0 ==> {
                    let rec = c_in[wc].1;
                    &&& final(host).hostname == (if hn1 is None && rec.hostname is Some {
                        rec.hostname
                    } else {
                        hn1
                    })
                    &&& final(self).mdns_cache@ == c_in.remove(wc)
                    &&& (forall|x: IpAddress|
                        #[trigger] final(host).ips@.contains(x) <==> old(host).ips@.contains(x)
                            || rec.ips@.contains(x))
                })
                &&& (wc < 0 ==> {
                    &&& final(host).hostname == hn1
                    &&& final(self).mdns_cache@ == c_in
                    &&& final(host).ips@ == old(host).ips@
                })
            }),
            old(host).primary_ip is V4 ==> final(host).primary_ip == old(host).primary_ip,
            final(host).mac == old(host).mac,
            final(host).vendor == old(host).vendor,
            final(host).ports@ == old(host).ports@,
            final(host).network_roles@ == old(host).network_roles@,
            final(host).rtts() == old(host).rtts(),
            final(self).dns_ip == old(self).dns_ip,
            final(self).dns_port == old(self).dns_port,
            final(self).id_counter == old(self).id_counter,
            final(self).dns_map@ == old(self).dns_map@,
    {
        let ghost c_in = self.mdns_cache@;
        let ghost ips_in = host.ips@;
        if host.hostname.is_none() {
            match assoc_take_hostname(&mut self.hostname_map, ip) {
                Some(name) => {
                    host.hostname = Some(name);
                },
                None => {},
            }
        }
        match assoc_take_mdns(&mut self.mdns_cache, ip) {
            Some(record) => {
                adopt_hostname(host, &record.hostname);
                union_record_ips(host, &record.ips);
                proof {
                    let wc = find_record_index(c_in, *ip, 0);
                    assert(record == c_in[wc].1);
                    assert(forall|x: IpAddress|
                        #[trigger] host.ips@.contains(x) <==> ips_in.contains(x)
                            || record.ips@.contains(x));
                }
            },
            None => {},
        }
    }
}

/// The preferred cache key of an mDNS record: its members sort IPv4
/// first, so the first member is the first IPv4 one when any exists;
/// else the first link-local IPv6 member; else the first member.
fn preferred_ip(record: &MdnsRecord) -> (r: Option<IpAddress>)
    ensures
        r == spec_preferred(record.ips@),
{
    let n = record.ips.len();
    if n == 0 {
        return None;
    }
    let first = record.ips.get(0);
    if first.is_v4() {
        return Some(first);
    }
    // no IPv4 members: look for a link-local IPv6 one
    let mut i: usize = 0;
    while i < n
        invariant
            0 < n == record.ips@.len(),
            0 <= i <= n,
            !(record.ips@[0] is V4),
            first == record.ips@[0],
            forall|k: int|
                0 <= k < i ==> !((#[trigger] record.ips@[k]) is V6
                    && crate::net::spec_v6_is_unicast_link_local(record.ips@[k]->V6_0)),
        decreases n - i,
    {
        let ip = record.ips.get(i);
        match ip {
            IpAddress::V6(v) => {
                if crate::net::v6_is_unicast_link_local(v) {
                    proof {
                        assert(record.ips@[i as int] == ip);
                        lemma_find_ll_from(record.ips@, 0, i as int);
                    }
                    return Some(ip);
                }
            },
            IpAddress::V4(_) => {},
        }
        i = i + 1;
    }
    proof {
        lemma_find_ll_from(record.ips@, 0, n as int);
    }
    Some(first)
}

/// The suffix of the bytes from `from` on.
fn vec_tail(bytes: &Vec<u8>, from: usize) -> (r: Vec<u8>)
    ensures
        from <= bytes@.len() ==> r@ == bytes@.subrange(from as int, bytes@.len() as int),
        from > bytes@.len() ==> r@.len() == 0,
{
    let n = bytes.len();
    let mut out: Vec<u8> = Vec::new();
    if from > n {
        return out;
    }
    let mut i: usize = from;
    while i < n
        invariant
            from <= i <= n == bytes@.len(),
            out@ =~= bytes@.subrange(from as int, i as int),
        decreases n - i,
    {
        let b = bytes[i];
        out.push(b);
        proof {
            assert(out@ =~= bytes@.subrange(from as int, (i + 1) as int));
        }
        i = i + 1;
    }
    out
}

fn assoc_take_id(entries: &mut Vec<(u16, IpAddress)>, id: u16) -> (r: Option<IpAddress>)
    ensures
        ({
            let w = find_id_index(old(entries)@, id, 0);
            if w >= 0 {
                r == Some(old(entries)@[w].1) && final(entries)@ == old(entries)@.remove(w)
            } else {
                r is None && final(entries)@ == old(entries)@
            }
        }),
{
    let n = entries.len();
    let mut i: usize = 0;
    while i < n
        invariant
            0 <= i <= n == entries@.len(),
            entries@ == old(entries)@,
            forall|k: int| 0 <= k < i ==> (#[trigger] entries@[k]).0 != id,
        decreases n - i,
    {
        if entries[i].0 == id {
            proof {
                lemma_find_id_from(old(entries)@, id, 0, i as int);
            }
            let (_, ip) = entries.remove(i);
            return Some(ip);
        }
        i = i + 1;
    }
    proof {
        lemma_find_id_from(old(entries)@, id, 0, n as int);
    }
    None
}

/// Takes the candidate name when the host has none yet.
fn adopt_hostname(host: &mut Host, candidate: &Option<String>)
    ensures
        final(host).hostname == (if old(host).hostname is None && candidate is Some {
            *candidate
        } else {
            old(host).hostname
        }),
        final(host).ips@ == old(host).ips@,
        final(host).primary_ip == old(host).primary_ip,
        final(host).mac == old(host).mac,
        final(host).vendor == old(host).vendor,
        final(host).ports@ == old(host).ports@,
        final(host).network_roles@ == old(host).network_roles@,
        final(host).rtts() == old(host).rtts(),
        final(host).wf() == old(host).wf(),
{
    if host.hostname.is_none() {
        match candidate {
            Some(name) => {
                host.hostname = Some(name.clone());
            },
            None => {},
        }
    }
}

/// Unions a record's addresses into the host's set, one observation at
/// a time.
fn union_record_ips(host: &mut Host, ips: &IpSet)
    requires
        old(host).wf(),
    ensures
        final(host).wf(),
        forall|x: IpAddress|
            #[trigger] final(host).ips@.contains(x) <==> old(host).ips@.contains(x)
                || ips@.contains(x),
        final(host).hostname == old(host).hostname,
        old(host).primary_ip is V4 ==> final(host).primary_ip == old(host).primary_ip,
        final(host).mac == old(host).mac,
        final(host).vendor == old(host).vendor,
        final(host).ports@ == old(host).ports@,
        final(host).network_roles@ == old(host).network_roles@,
        final(host).rtts() == old(host).rtts(),
{
    let m = ips.len();
    let mut j: usize = 0;
    while j < m
        invariant
            0 <= j <= m == ips@.len(),
            host.wf(),
            host.hostname == old(host).hostname,
            forall|x: IpAddress|
                host.ips@.contains(x) <==> old(host).ips@.contains(x) || ips@.subrange(
                    0,
                    j as int,
                ).contains(x),
            old(host).primary_ip is V4 ==> host.primary_ip == old(host).primary_ip,
            host.mac == old(host).mac,
            host.vendor == old(host).vendor,
            host.ports@ == old(host).ports@,
            host.network_roles@ == old(host).network_roles@,
            host.rtts() == old(host).rtts(),
        decreases m - j,
    {
        let a = ips.get(j);
        let ghost sub0 = ips@.subrange(0, j as int);
        let ghost sub1 = ips@.subrange(0, (j + 1) as int);
        proof {
            assert(forall|k: int| 0 <= k < j ==> sub1[k] == #[trigger] sub0[k]);
            assert(sub1[j as int] == a);
            assert forall|x: IpAddress| #[trigger] sub1.contains(x) <==> sub0.contains(x) || x
                == a by {
                if sub1.contains(x) {
                    let w = choose|w: int| 0 <= w < sub1.len() && #[trigger] sub1[w] == x;
                    if w < j {
                        assert(sub0[w] == x);
                    }
                }
                if sub0.contains(x) {
                    let w = choose|w: int| 0 <= w < sub0.len() && #[trigger] sub0[w] == x;
                    assert(sub1[w] == x);
                }
                if x == a {
                    assert(sub1[j as int] == x);
                }
            }
        }
        host.observe_ip(a);
        j = j + 1;
    }
    proof {
        assert(ips@.subrange(0, m as int) =~= ips@);
    }
}

fn assoc_take_hostname(entries: &mut Vec<(IpAddress, String)>, ip: &IpAddress) -> (r: Option<
    String,
>)
    ensures
        ({
            let w = find_name_index(old(entries)@, *ip, 0);
            if w >= 0 {
                r == Some(old(entries)@[w].1) && final(entries)@ == old(entries)@.remove(w)
            } else {
                r is None && final(entries)@ == old(entries)@
            }
        }),
{
    let n = entries.len();
    let mut i: usize = 0;
    while i < n
        invariant
            0 <= i <= n == entries@.len(),
            entries@ == old(entries)@,
            forall|k: int| 0 <= k < i ==> (#[trigger] entries@[k]).0 != *ip,
        decreases n - i,
    {
        if entries[i].0 == *ip {
            proof {
                lemma_find_name_from(old(entries)@, *ip, 0, i as int);
            }
            let (_, name) = entries.remove(i);
            return Some(name);
        }
        i = i + 1;
    }
    proof {
        lemma_find_name_from(old(entries)@, *ip, 0, n as int);
    }
    None
}

fn assoc_take_mdns(entries: &mut Vec<(IpAddress, MdnsRecord)>, ip: &IpAddress) -> (r: Option<
    MdnsRecord,
>)
    ensures
        ({
            let w = find_record_index(old(entries)@, *ip, 0);
            if w >= 0 {
                r == Some(old(entries)@[w].1) && final(entries)@ == old(entries)@.remove(w)
            } else {
                r is None && final(entries)@ == old(entries)@
            }
        }),
{
    let n = entries.len();
    let mut i: usize = 0;
    while i < n
        invariant
            0 <= i <= n == entries@.len(),
            entries@ == old(entries)@,
            forall|k: int| 0 <= k < i ==> (#[trigger] entries@[k]).0 != *ip,
        decreases n - i,
    {
        if entries[i].0 == *ip {
            proof {
                lemma_find_record_from(old(entries)@, *ip, 0, i as int);
            }
            let (_, record) = entries.remove(i);
            return Some(record);
        }
        i = i + 1;
    }
    proof {
        lemma_find_record_from(old(entries)@, *ip, 0, n as int);
    }
    None
}

/// A PTR query packet fits a UDP datagram.
proof fn lemma_ptr_query_len(id: u16, ip: IpAddress)
    ensures
        dnswire::ptr_query_bytes(id, crate::iptext::ptr_name_text(ip)).len() + 8 <= 0xffff,
{
    crate::frames::lemma_be_bytes_len(id as int, 2);
    let name = crate::iptext::ptr_name_text(ip);
    lemma_name_valid(ip);
    crate::dnswire::lemma_split_len_bound(name, '.');
    let ls = crate::text::split_spec(name, '.');
    assert(forall|k: int| 0 <= k < ls.len() ==> (#[trigger] ls[k]).len() <= 64) by {
        assert(forall|k: int| 0 <= k < ls.len() ==> crate::dnswire::is_label(#[trigger] ls[k]));
    }
    lemma_encode_len(ls);
    assert(ls.len() * 65 <= 201 * 65) by (nonlinear_arith)
        requires
            0 <= ls.len() <= 201,
    ;
}

/// Every label list encodes into a bounded byte string.
proof fn lemma_encode_len(ls: Seq<Seq<char>>)
    requires
        forall|k: int| 0 <= k < ls.len() ==> (#[trigger] ls[k]).len() <= 64,
        ls.len() <= 260,
    ensures
        dnswire::encode_labels(ls).len() <= 1 + ls.len() * 65,
    decreases ls.len(),
{
    if ls.len() > 0 {
        assert(forall|k: int|
            0 <= k < ls.drop_first().len() ==> (#[trigger] ls.drop_first()[k]).len() <= 64) by {
            assert(forall|k: int|
                0 <= k < ls.drop_first().len() ==> ls.drop_first()[k] == #[trigger] ls[k + 1]);
        }
        lemma_encode_len(ls.drop_first());
        assert((ls.len() - 1) * 65 + 65 == ls.len() * 65) by (nonlinear_arith);
    }
}

/// A reverse name is fit for the wire, and so short.
proof fn lemma_name_valid(ip: IpAddress)
    ensures
        crate::dnswire::valid_name(crate::iptext::ptr_name_text(ip)),
        crate::iptext::ptr_name_text(ip).len() <= 200,
{
    match ip {
        IpAddress::V4(v) => {
            crate::dnswire::lemma_v4_ptr_name_valid(v);
        },
        IpAddress::V6(v) => {
            crate::dnswire::lemma_v6_ptr_name_valid(v);
        },
    }
}

} // verus!
