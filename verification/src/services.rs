use vstd::prelude::*;

use crate::iptext::parse_ip;
use crate::net::IpAddress;
use crate::text::{parse_dec_window, split_char, trim};

verus! {

/// A process listening on local ports at one address.
#[derive(Debug)]
pub struct Service {
    pub name: String,
    pub local_addr: IpAddress,
    pub local_ports: Vec<u16>,
}

impl Service {
    pub open spec fn wf(&self) -> bool {
        &&& self.local_ports@.len() >= 1
        &&& forall|i: int| 0 <= i < self.local_ports@.len() ==> (#[trigger] self.local_ports@[i]) > 0
    }

    pub fn new(name: String, local_addr: IpAddress, local_ports: Vec<u16>) -> (r: Service)
        ensures
            r.name == name,
            r.local_addr == local_addr,
            r.local_ports@ == local_ports@,
    {
        Service { name, local_addr, local_ports }
    }
}

/// The services listening on one local address, by transport.
#[derive(Debug)]
pub struct IpServiceGroup {
    pub ip_addr: IpAddress,
    pub tcp_services: Vec<Service>,
    pub udp_services: Vec<Service>,
}

impl IpServiceGroup {
    pub open spec fn wf(&self) -> bool {
        &&& forall|i: int| 0 <= i < self.tcp_services@.len() ==> (#[trigger] self.tcp_services@[i]).wf()
        &&& forall|i: int| 0 <= i < self.udp_services@.len() ==> (#[trigger] self.udp_services@[i]).wf()
    }

    pub fn new(ip_addr: IpAddress, tcp_services: Vec<Service>, udp_services: Vec<Service>) -> (r:
        IpServiceGroup)
        ensures
            r.ip_addr == ip_addr,
            r.tcp_services@ == tcp_services@,
            r.udp_services@ == udp_services@,
    {
        IpServiceGroup { ip_addr, tcp_services, udp_services }
    }
}

/// The whitespace-separated fields of a line, each trimmed, empties
/// dropped.
fn fields_of(line: &str) -> (r: Vec<String>)
    ensures
        forall|i: int| 0 <= i < r@.len() ==> (#[trigger] r.deep_view()[i]).len() > 0,
{
    let raw = split_char(line, ' ');
    let n = raw.len();
    let mut out: Vec<String> = Vec::new();
    let mut i: usize = 0;
    while i < n
        invariant
            0 <= i <= n == raw@.len(),
            forall|k: int| 0 <= k < out@.len() ==> (#[trigger] out.deep_view()[k]).len() > 0,
        decreases n - i,
    {
        let t = trim(raw[i].as_str());
        if t.unicode_len() > 0 {
            let ghost pre = out.deep_view();
            let owned = t.to_owned();
            out.push(owned);
            proof {
                assert(out.deep_view() =~= pre.push(owned@));
                assert(forall|k: int|
                    0 <= k < pre.len() ==> out.deep_view()[k] == #[trigger] pre[k]);
            }
        }
        i = i + 1;
    }
    out
}

/// The position of the last colon in the string, if any.
fn last_colon(s: &str) -> (r: Option<usize>)
    ensures
        r is Some ==> r->0 < s@.len() && s@[r->0 as int] == ':',
{
    let len = s.unicode_len();
    let mut i: usize = len;
    while i > 0
        invariant
            0 <= i <= len == s@.len(),
        decreases i,
    {
        if s.get_char(i - 1) == ':' {
            return Some(i - 1);
        }
        i = i - 1;
    }
    None
}

/// The address half of an `address:port` field as the engine reads it:
/// brackets and a zone suffix dropped, `*` or nothing meaning the
/// unspecified IPv4 address.
fn parse_listen_addr(s: &str) -> (r: Option<IpAddress>) {
    let len = s.unicode_len();
    // strip surrounding brackets
    let mut from: usize = 0;
    let mut to: usize = len;
    if from < to && s.get_char(from) == '[' {
        from = from + 1;
    }
    if from < to && s.get_char(to - 1) == ']' {
        to = to - 1;
    }
    if from < to && s.get_char(from) == '*' {
        from = from + 1;
    }
    // drop a zone suffix
    let inner = s.substring_char(from, to);
    let mut cut: usize = inner.unicode_len();
    let mut k: usize = 0;
    let inner_len = inner.unicode_len();
    while k < inner_len
        invariant
            0 <= k <= inner_len == inner@.len(),
            cut <= inner_len,
        decreases inner_len - k,
    {
        if inner.get_char(k) == '%' {
            cut = k;
            k = inner_len;
        } else {
            k = k + 1;
        }
    }
    let clean = inner.substring_char(0, cut);
    if clean.unicode_len() == 0 {
        return Some(IpAddress::V4(0));
    }
    parse_ip(clean)
}

/// The process name inside a `users:(("name",...))` column.
fn process_name(field: &str) -> (r: String) {
    let len = field.unicode_len();
    let mut first_quote: usize = len;
    let mut i: usize = 0;
    while i < len
        invariant
            0 <= i <= len == field@.len(),
            first_quote <= len,
        decreases len - i,
    {
        if field.get_char(i) == '"' {
            first_quote = i;
            i = len;
        } else {
            i = i + 1;
        }
    }
    if first_quote == len {
        return "unknown".to_owned();
    }
    let mut second_quote: usize = len;
    let mut j: usize = first_quote + 1;
    while j < len
        invariant
            first_quote < j <= len == field@.len(),
            second_quote == len || first_quote < second_quote,
            second_quote <= len,
        decreases len - j,
    {
        if field.get_char(j) == '"' {
            second_quote = j;
            j = len;
        } else {
            j = j + 1;
        }
    }
    if second_quote == len {
        return "unknown".to_owned();
    }
    let name = field.substring_char(first_quote + 1, second_quote);
    name.to_owned()
}

/// One parsed listening socket.
#[derive(Debug)]
pub struct ListenEntry {
    pub is_tcp: bool,
    pub addr: IpAddress,
    pub port: u16,
    pub process: String,
}

/// Reads one socket-listing line: the transport, state, local address
/// and port, and the owning process. TCP lines count only when
/// listening; a zero port never counts.
pub fn parse_service_line(line: &str) -> (r: Option<ListenEntry>)
    ensures
        r is Some ==> r->0.port > 0,
{
    let fs = fields_of(line);
    if fs.len() < 5 {
        return None;
    }
    let is_tcp = crate::text::eq_ignore_case(fs[0].as_str(), "tcp");
    let is_udp = crate::text::eq_ignore_case(fs[0].as_str(), "udp");
    if !is_tcp && !is_udp {
        return None;
    }
    if is_tcp && !crate::text::eq_ignore_case(fs[1].as_str(), "listen") {
        return None;
    }
    let local = fs[4].as_str();
    let colon = match last_colon(local) {
        Some(c) => c,
        None => {
            return None;
        },
    };
    let addr_part = local.substring_char(0, colon);
    let llen = local.unicode_len();
    let port_part = local.substring_char(colon + 1, llen);
    let plen = port_part.unicode_len();
    let port = match parse_dec_window(port_part, 0, plen) {
        Some(p) => {
            if p == 0 || p > 65535 {
                return None;
            }
            p as u16
        },
        None => {
            return None;
        },
    };
    let addr = match parse_listen_addr(addr_part) {
        Some(a) => a,
        None => {
            return None;
        },
    };
    let process = process_name(fs[fs.len() - 1].as_str());
    Some(ListenEntry { is_tcp, addr, port, process })
}

/// Groups the parsed listening sockets of a socket listing: one group
/// per local address, each process's ports gathered under one service.
pub fn parse_local_services(lines: &Vec<String>) -> (r: Vec<IpServiceGroup>)
    ensures
        forall|i: int| 0 <= i < r@.len() ==> (#[trigger] r@[i]).wf(),
{
    let mut groups: Vec<IpServiceGroup> = Vec::new();
    let n = lines.len();
    let mut i: usize = 0;
    while i < n
        invariant
            0 <= i <= n == lines@.len(),
            forall|k: int| 0 <= k < groups@.len() ==> (#[trigger] groups@[k]).wf(),
        decreases n - i,
    {
        match parse_service_line(lines[i].as_str()) {
            Some(entry) => {
                add_entry(&mut groups, entry);
            },
            None => {},
        }
        i = i + 1;
    }
    groups
}

/// Books one socket under its address group and process service.
fn add_entry(groups: &mut Vec<IpServiceGroup>, entry: ListenEntry)
    requires
        forall|k: int| 0 <= k < old(groups)@.len() ==> (#[trigger] old(groups)@[k]).wf(),
        entry.port > 0,
    ensures
        forall|k: int| 0 <= k < final(groups)@.len() ==> (#[trigger] final(groups)@[k]).wf(),
{
    let n = groups.len();
    let mut gi: usize = n;
    let mut i: usize = 0;
    while i < n
        invariant
            0 <= i <= n == groups@.len(),
            gi == n || gi < n,
            forall|k: int| 0 <= k < groups@.len() ==> (#[trigger] groups@[k]).wf(),
        decreases n - i,
    {
        if groups[i].ip_addr == entry.addr {
            gi = i;
            i = n;
        } else {
            i = i + 1;
        }
    }
    if gi == n {
        let mut ports: Vec<u16> = Vec::new();
        ports.push(entry.port);
        let svc = Service { name: entry.process, local_addr: entry.addr, local_ports: ports };
        proof {
            assert(svc.wf());
        }
        let mut tcp: Vec<Service> = Vec::new();
        let mut udp: Vec<Service> = Vec::new();
        if entry.is_tcp {
            tcp.push(svc);
        } else {
            udp.push(svc);
        }
        let g = IpServiceGroup { ip_addr: entry.addr, tcp_services: tcp, udp_services: udp };
        let ghost pre = groups@;
        groups.push(g);
        proof {
            assert(forall|k: int| 0 <= k < pre.len() ==> groups@[k] == #[trigger] pre[k]);
        }
        return ;
    }
    let ghost pre = groups@;
    let mut g = groups.remove(gi);
    if entry.is_tcp {
        add_service(&mut g.tcp_services, entry.process, entry.addr, entry.port);
    } else {
        add_service(&mut g.udp_services, entry.process, entry.addr, entry.port);
    }
    groups.insert(gi, g);
    proof {
        assert(forall|k: int|
            0 <= k < groups@.len() && k != gi ==> groups@[k] == #[trigger] pre[k]);
        assert(groups@[gi as int].wf());
    }
}

/// Books one port under its process's service, adding the service when
/// the process is new to this group.
fn add_service(services: &mut Vec<Service>, process: String, addr: IpAddress, port: u16)
    requires
        forall|k: int| 0 <= k < old(services)@.len() ==> (#[trigger] old(services)@[k]).wf(),
        port > 0,
    ensures
        forall|k: int| 0 <= k < final(services)@.len() ==> (#[trigger] final(services)@[k]).wf(),
{
    let n = services.len();
    let mut si: usize = n;
    let mut i: usize = 0;
    while i < n
        invariant
            0 <= i <= n == services@.len(),
            si == n || si < n,
            forall|k: int| 0 <= k < services@.len() ==> (#[trigger] services@[k]).wf(),
        decreases n - i,
    {
        if services[i].name.as_str() == process.as_str() {
            si = i;
            i = n;
        } else {
            i = i + 1;
        }
    }
    if si == n {
        let mut ports: Vec<u16> = Vec::new();
        ports.push(port);
        let svc = Service { name: process, local_addr: addr, local_ports: ports };
        let ghost pre = services@;
        services.push(svc);
        proof {
            assert(forall|k: int| 0 <= k < pre.len() ==> services@[k] == #[trigger] pre[k]);
        }
        return ;
    }
    let ghost pre = services@;
    let mut svc = services.remove(si);
    if !vec_has_u16(&svc.local_ports, port) {
        svc.local_ports.push(port);
        proof {
            let ghost old_ports = pre[si as int].local_ports@;
            assert(forall|k: int|
                0 <= k < svc.local_ports@.len() - 1 ==> svc.local_ports@[k]
                    == #[trigger] old_ports[k]);
        }
    }
    services.insert(si, svc);
    proof {
        assert(forall|k: int|
            0 <= k < services@.len() && k != si ==> services@[k] == #[trigger] pre[k]);
        assert(services@[si as int].wf());
    }
}

fn vec_has_u16(v: &Vec<u16>, x: u16) -> (r: bool)
    ensures
        r == v@.contains(x),
{
    let n = v.len();
    let mut i: usize = 0;
    while i < n
        invariant
            0 <= i <= n == v@.len(),
            forall|k: int| 0 <= k < i ==> v@[k] != x,
        decreases n - i,
    {
        if v[i] == x {
            return true;
        }
        i = i + 1;
    }
    proof {
        if v@.contains(x) {
            let w = choose|w: int| 0 <= w < v@.len() && v@[w] == x;
        }
    }
    false
}

/// The first nameserver named by a resolver configuration, with the
/// nameserver port.
pub fn parse_resolv_conf(lines: &Vec<String>) -> (r: Option<(IpAddress, u16)>)
    ensures
        r is Some ==> (r->0).1 == 53,
{
    let n = lines.len();
    let mut i: usize = 0;
    while i < n
        invariant
            0 <= i <= n == lines@.len(),
        decreases n - i,
    {
        let fs = fields_of(lines[i].as_str());
        if fs.len() >= 2 {
            if crate::text::eq_ignore_case(fs[0].as_str(), "nameserver") {
                match parse_ip(fs[1].as_str()) {
                    Some(ip) => {
                        return Some((ip, 53));
                    },
                    None => {},
                }
            }
        }
        i = i + 1;
    }
    None
}

} // verus!
