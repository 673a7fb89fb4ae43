use vstd::prelude::*;

verus! {

/// An IP address, IPv4 held as its 32-bit value and IPv6 as its 128-bit value,
/// both in network (big-endian) integer order.
#[derive(Clone, Copy, PartialEq, Eq, Structural, Debug, Hash)]
pub enum IpAddress {
    V4(u32),
    V6(u128),
}

impl IpAddress {
    pub open spec fn spec_is_v4(&self) -> bool {
        self is V4
    }

    pub open spec fn spec_is_v6(&self) -> bool {
        self is V6
    }

    #[verifier::when_used_as_spec(spec_is_v4)]
    pub fn is_v4(&self) -> (r: bool)
        ensures
            r == self.spec_is_v4(),
    {
        match self {
            IpAddress::V4(_) => true,
            IpAddress::V6(_) => false,
        }
    }

    #[verifier::when_used_as_spec(spec_is_v6)]
    pub fn is_v6(&self) -> (r: bool)
        ensures
            r == self.spec_is_v6(),
    {
        match self {
            IpAddress::V4(_) => false,
            IpAddress::V6(_) => true,
        }
    }
}

/// The order in which addresses are kept in sorted sets: all IPv4 addresses
/// before all IPv6 addresses, each family by numeric value.
pub open spec fn ip_lt(a: IpAddress, b: IpAddress) -> bool {
    match (a, b) {
        (IpAddress::V4(x), IpAddress::V4(y)) => x < y,
        (IpAddress::V4(_), IpAddress::V6(_)) => true,
        (IpAddress::V6(_), IpAddress::V4(_)) => false,
        (IpAddress::V6(x), IpAddress::V6(y)) => x < y,
    }
}

pub fn ip_less(a: &IpAddress, b: &IpAddress) -> (r: bool)
    ensures
        r == ip_lt(*a, *b),
{
    match (a, b) {
        (IpAddress::V4(x), IpAddress::V4(y)) => x < y,
        (IpAddress::V4(_), IpAddress::V6(_)) => true,
        (IpAddress::V6(_), IpAddress::V4(_)) => false,
        (IpAddress::V6(x), IpAddress::V6(y)) => x < y,
    }
}

pub proof fn lemma_ip_lt_total(a: IpAddress, b: IpAddress)
    ensures
        ip_lt(a, b) || ip_lt(b, a) || a == b,
        !(ip_lt(a, b) && ip_lt(b, a)),
        !(ip_lt(a, b) && a == b),
{
}

pub proof fn lemma_ip_lt_trans(a: IpAddress, b: IpAddress, c: IpAddress)
    requires
        ip_lt(a, b),
        ip_lt(b, c),
    ensures
        ip_lt(a, c),
{
}

/// First octet of an IPv4 value.
pub open spec fn v4_octet0(ip: u32) -> u32 {
    ip / 0x100_0000
}

pub open spec fn v4_octet1(ip: u32) -> u32 {
    (ip / 0x1_0000) % 0x100
}

pub open spec fn v4_octet2(ip: u32) -> u32 {
    (ip / 0x100) % 0x100
}

pub open spec fn v4_octet3(ip: u32) -> u32 {
    ip % 0x100
}

pub open spec fn spec_v4_from_octets(a: u8, b: u8, c: u8, d: u8) -> u32 {
    (a * 0x100_0000 + b * 0x1_0000 + c * 0x100 + d) as u32
}

pub fn v4_from_octets(a: u8, b: u8, c: u8, d: u8) -> (r: u32)
    ensures
        r == spec_v4_from_octets(a, b, c, d),
        v4_octet0(r) == a,
        v4_octet1(r) == b,
        v4_octet2(r) == c,
        v4_octet3(r) == d,
{
    let r: u32 = (a as u32) * 0x100_0000 + (b as u32) * 0x1_0000 + (c as u32) * 0x100 + (d as u32);
    assert(v4_octet0(r) == a && v4_octet1(r) == b && v4_octet2(r) == c && v4_octet3(r) == d)
        by (nonlinear_arith)
        requires
            r == a * 0x100_0000 + b * 0x1_0000 + c * 0x100 + d,
            a < 0x100 && b < 0x100 && c < 0x100 && d < 0x100,
    ;
    r
}

pub fn v4_octets(ip: u32) -> (r: (u8, u8, u8, u8))
    ensures
        r.0 == v4_octet0(ip),
        r.1 == v4_octet1(ip),
        r.2 == v4_octet2(ip),
        r.3 == v4_octet3(ip),
        spec_v4_from_octets(r.0, r.1, r.2, r.3) == ip,
{
    let o0: u32 = ip / 0x100_0000;
    let o1: u32 = (ip / 0x1_0000) % 0x100;
    let o2: u32 = (ip / 0x100) % 0x100;
    let o3: u32 = ip % 0x100;
    assert(o0 * 0x100_0000 + o1 * 0x1_0000 + o2 * 0x100 + o3 == ip) by (nonlinear_arith)
        requires
            o0 == ip / 0x100_0000,
            o1 == (ip / 0x1_0000) % 0x100,
            o2 == (ip / 0x100) % 0x100,
            o3 == ip % 0x100,
    ;
    (o0 as u8, o1 as u8, o2 as u8, o3 as u8)
}

/// 10.0.0.0/8, 172.16.0.0/12 and 192.168.0.0/16.
pub open spec fn spec_v4_is_private(ip: u32) -> bool {
    ||| v4_octet0(ip) == 10
    ||| (v4_octet0(ip) == 172 && 16 <= v4_octet1(ip) < 32)
    ||| (v4_octet0(ip) == 192 && v4_octet1(ip) == 168)
}

pub fn v4_is_private(ip: u32) -> (r: bool)
    ensures
        r == spec_v4_is_private(ip),
{
    let o0: u32 = ip / 0x100_0000;
    let o1: u32 = (ip / 0x1_0000) % 0x100;
    o0 == 10 || (o0 == 172 && 16 <= o1 && o1 < 32) || (o0 == 192 && o1 == 168)
}

pub open spec fn spec_v4_is_loopback(ip: u32) -> bool {
    v4_octet0(ip) == 127
}

pub fn v4_is_loopback(ip: u32) -> (r: bool)
    ensures
        r == spec_v4_is_loopback(ip),
{
    ip / 0x100_0000 == 127
}

/// The first 16-bit segment of an IPv6 value.
pub open spec fn v6_segment0(ip: u128) -> u128 {
    ip / 0x1_0000_0000_0000_0000_0000_0000_0000
}

/// The leading octet of an IPv6 value.
pub open spec fn v6_octet0(ip: u128) -> u128 {
    ip / 0x100_0000_0000_0000_0000_0000_0000_0000
}

/// fe80::/10, the link-local unicast block.
pub open spec fn spec_v6_is_unicast_link_local(ip: u128) -> bool {
    v6_segment0(ip) / 0x40 == 0x3fa
}

pub fn v6_is_unicast_link_local(ip: u128) -> (r: bool)
    ensures
        r == spec_v6_is_unicast_link_local(ip),
{
    (ip / 0x1_0000_0000_0000_0000_0000_0000_0000) / 0x40 == 0x3fa
}

/// fc00::/7, the unique-local block.
pub open spec fn spec_v6_is_unique_local(ip: u128) -> bool {
    v6_segment0(ip) / 0x200 == 0x7e
}

pub fn v6_is_unique_local(ip: u128) -> (r: bool)
    ensures
        r == spec_v6_is_unique_local(ip),
{
    (ip / 0x1_0000_0000_0000_0000_0000_0000_0000) / 0x200 == 0x7e
}

pub open spec fn spec_v6_is_loopback(ip: u128) -> bool {
    ip == 1
}

pub fn v6_is_loopback(ip: u128) -> (r: bool)
    ensures
        r == spec_v6_is_loopback(ip),
{
    ip == 1
}

/// A leading octet between 0x20 and 0x3f marks the global unicast range
/// that the engine treats as queryable.
pub open spec fn spec_is_global_unicast(ip: u128) -> bool {
    0x20 <= v6_octet0(ip) <= 0x3f
}

pub fn is_global_unicast(ip: u128) -> (r: bool)
    ensures
        r == spec_is_global_unicast(ip),
{
    let b0: u128 = ip / 0x100_0000_0000_0000_0000_0000_0000_0000;
    0x20 <= b0 && b0 <= 0x3f
}

/// Private in the engine's sense: a private IPv4 address, or an IPv6
/// address that is link-local or unique-local.
pub open spec fn spec_is_private(ip: IpAddress) -> bool {
    match ip {
        IpAddress::V4(v) => spec_v4_is_private(v),
        IpAddress::V6(v) => spec_v6_is_unicast_link_local(v) || spec_v6_is_unique_local(v),
    }
}

pub fn is_private(ip: &IpAddress) -> (r: bool)
    ensures
        r == spec_is_private(*ip),
{
    match ip {
        IpAddress::V4(v) => v4_is_private(*v),
        IpAddress::V6(v) => v6_is_unicast_link_local(*v) || v6_is_unique_local(*v),
    }
}

#[derive(Clone, Copy, PartialEq, Eq, Structural, Debug)]
pub enum Ipv6AddressType {
    GlobalUnicast,
    UniqueLocal,
    LinkLocal,
    Loopback,
    Unspecified,
}

pub open spec fn spec_get_ipv6_type(ip: u128) -> Ipv6AddressType {
    if spec_is_global_unicast(ip) {
        Ipv6AddressType::GlobalUnicast
    } else if spec_v6_is_unique_local(ip) {
        Ipv6AddressType::UniqueLocal
    } else if spec_v6_is_unicast_link_local(ip) {
        Ipv6AddressType::LinkLocal
    } else if spec_v6_is_loopback(ip) {
        Ipv6AddressType::Loopback
    } else {
        Ipv6AddressType::Unspecified
    }
}

pub fn get_ipv6_type(ip: u128) -> (r: Ipv6AddressType)
    ensures
        r == spec_get_ipv6_type(ip),
{
    if is_global_unicast(ip) {
        Ipv6AddressType::GlobalUnicast
    } else if v6_is_unique_local(ip) {
        Ipv6AddressType::UniqueLocal
    } else if v6_is_unicast_link_local(ip) {
        Ipv6AddressType::LinkLocal
    } else if v6_is_loopback(ip) {
        Ipv6AddressType::Loopback
    } else {
        Ipv6AddressType::Unspecified
    }
}

/// A hardware (MAC) address as six octets.
#[derive(Clone, Copy, PartialEq, Eq, Structural, Debug, Hash)]
pub struct Mac {
    pub o0: u8,
    pub o1: u8,
    pub o2: u8,
    pub o3: u8,
    pub o4: u8,
    pub o5: u8,
}

impl Mac {
    pub fn new(o0: u8, o1: u8, o2: u8, o3: u8, o4: u8, o5: u8) -> (r: Mac)
        ensures
            r == (Mac { o0, o1, o2, o3, o4, o5 }),
    {
        Mac { o0, o1, o2, o3, o4, o5 }
    }

    pub open spec fn spec_broadcast() -> Mac {
        Mac { o0: 0xff, o1: 0xff, o2: 0xff, o3: 0xff, o4: 0xff, o5: 0xff }
    }

    pub fn broadcast() -> (r: Mac)
        ensures
            r == Mac::spec_broadcast(),
    {
        Mac { o0: 0xff, o1: 0xff, o2: 0xff, o3: 0xff, o4: 0xff, o5: 0xff }
    }

    /// The six octets as a sequence, as they stand in a frame.
    pub open spec fn bytes(self) -> Seq<u8> {
        seq![self.o0, self.o1, self.o2, self.o3, self.o4, self.o5]
    }
}

/// An IPv4 network given as an address inside it and a prefix length.
#[derive(Clone, Copy, PartialEq, Eq, Structural, Debug)]
pub struct Ipv4Net {
    pub ip: u32,
    pub prefix: u8,
}

/// 2^(32 - prefix), the number of addresses in the block.
pub open spec fn v4_block_size(prefix: u8) -> int
    recommends
        prefix <= 32,
{
    pow2_int((32 - prefix) as nat)
}

pub open spec fn pow2_int(k: nat) -> int
    decreases k,
{
    if k == 0 {
        1
    } else {
        2 * pow2_int((k - 1) as nat)
    }
}

pub proof fn lemma_pow2_int_pos(k: nat)
    ensures
        pow2_int(k) >= 1,
    decreases k,
{
    if k > 0 {
        lemma_pow2_int_pos((k - 1) as nat);
    }
}

/// pow2_int is monotone.
pub proof fn lemma_pow2_int_mono(a: nat, b: nat)
    requires
        a <= b,
    ensures
        pow2_int(a) <= pow2_int(b),
    decreases b,
{
    if a < b {
        lemma_pow2_int_mono(a, (b - 1) as nat);
        lemma_pow2_int_pos((b - 1) as nat);
    }
}

/// The closed forms that the bounds below lean on.
pub proof fn lemma_pow2_32()
    ensures
        pow2_int(32) == 0x1_0000_0000,
{
    reveal_with_fuel(pow2_int, 33);
}

pub proof fn lemma_pow2_128()
    ensures
        pow2_int(128) == 0x1_0000_0000_0000_0000_0000_0000_0000_0000,
        pow2_int(127) == 0x8000_0000_0000_0000_0000_0000_0000_0000,
{
    lemma_pow2_32();
    lemma_pow2_int_add(32, 32);
    assert(pow2_int(64) == 0x1_0000_0000_0000_0000) by (nonlinear_arith)
        requires
            pow2_int(32) == 0x1_0000_0000,
            pow2_int(32) * pow2_int(32) == pow2_int(64),
    ;
    lemma_pow2_int_add(64, 64);
    assert(pow2_int(128) == 0x1_0000_0000_0000_0000_0000_0000_0000_0000) by (nonlinear_arith)
        requires
            pow2_int(64) == 0x1_0000_0000_0000_0000,
            pow2_int(64) * pow2_int(64) == pow2_int(128),
    ;
    assert(pow2_int(128) == 2 * pow2_int(127));
}

pub proof fn lemma_pow2_int_bound(k: nat)
    requires
        k <= 32,
    ensures
        1 <= pow2_int(k) <= 0x1_0000_0000,
{
    lemma_pow2_int_pos(k);
    lemma_pow2_int_mono(k, 32);
    lemma_pow2_32();
}

/// 2^a * 2^b == 2^(a + b).
pub proof fn lemma_pow2_int_add(a: nat, b: nat)
    ensures
        pow2_int(a) * pow2_int(b) == pow2_int(a + b),
    decreases a,
{
    if a > 0 {
        lemma_pow2_int_add((a - 1) as nat, b);
        assert(pow2_int(a) * pow2_int(b) == 2 * (pow2_int((a - 1) as nat) * pow2_int(b)))
            by (nonlinear_arith)
            requires
                pow2_int(a) == 2 * pow2_int((a - 1) as nat),
        ;
    }
}

/// Computes 2^k for k <= 32 as a u64.
pub fn pow2_u64(k: u8) -> (r: u64)
    requires
        k <= 32,
    ensures
        r == pow2_int(k as nat),
{
    let mut r: u64 = 1;
    let mut i: u8 = 0;
    while i < k
        invariant
            i <= k <= 32,
            r == pow2_int(i as nat),
        decreases k - i,
    {
        proof {
            lemma_pow2_int_bound(i as nat);
        }
        r = r * 2;
        i = i + 1;
    }
    r
}

impl Ipv4Net {
    pub open spec fn wf(self) -> bool {
        self.prefix <= 32
    }

    pub open spec fn spec_network(self) -> int {
        self.ip - (self.ip as int) % v4_block_size(self.prefix)
    }

    pub open spec fn spec_broadcast(self) -> int {
        self.spec_network() + v4_block_size(self.prefix) - 1
    }

    /// Membership in the block: the same aligned 2^(32-prefix) window.
    pub open spec fn spec_contains(self, x: u32) -> bool {
        self.spec_network() <= x <= self.spec_broadcast()
    }

    pub fn new(ip: u32, prefix: u8) -> (r: Option<Ipv4Net>)
        ensures
            r is Some <==> prefix <= 32,
            r is Some ==> r->0 == (Ipv4Net { ip, prefix }) && r->0.wf(),
    {
        if prefix <= 32 {
            Some(Ipv4Net { ip, prefix })
        } else {
            None
        }
    }

    pub fn network(&self) -> (r: u32)
        requires
            self.wf(),
        ensures
            r == self.spec_network(),
    {
        let block: u64 = pow2_u64(32 - self.prefix);
        proof {
            lemma_pow2_int_bound((32 - self.prefix) as nat);
            assert((self.ip as u64) % (block as u64) <= (self.ip as u64)) by (nonlinear_arith)
                requires
                    block >= 1,
            ;
        }
        let r: u64 = (self.ip as u64) - (self.ip as u64) % block;
        r as u32
    }

    pub fn broadcast(&self) -> (r: u32)
        requires
            self.wf(),
        ensures
            r == self.spec_broadcast(),
    {
        let block: u64 = pow2_u64(32 - self.prefix);
        proof {
            lemma_pow2_int_bound((32 - self.prefix) as nat);
            lemma_v4_broadcast_bound(self.ip, block as int, self.prefix);
        }
        let net: u64 = (self.ip as u64) - (self.ip as u64) % block;
        let r: u64 = net + block - 1;
        r as u32
    }

    pub fn contains(&self, x: u32) -> (r: bool)
        requires
            self.wf(),
        ensures
            r == self.spec_contains(x),
    {
        let net: u32 = self.network();
        let bc: u32 = self.broadcast();
        net <= x && x <= bc
    }
}

/// The broadcast of an aligned block stays below 2^32.
pub proof fn lemma_v4_broadcast_bound(ip: u32, block: int, prefix: u8)
    requires
        prefix <= 32,
        block == pow2_int((32 - prefix) as nat),
    ensures
        0 <= ip - (ip as int) % block,
        ip - (ip as int) % block + block - 1 < 0x1_0000_0000,
{
    lemma_pow2_int_bound((32 - prefix) as nat);
    lemma_pow2_int_add((32 - prefix) as nat, prefix as nat);
    lemma_pow2_32();
    let full = pow2_int(32);
    let q = (ip as int) / block;
    assert(ip as int == block * q + (ip as int) % block && 0 <= (ip as int) % block < block)
        by (nonlinear_arith)
        requires
            block >= 1,
            q == (ip as int) / block,
    ;
    // q < 2^prefix, hence (q + 1) * block <= 2^32
    assert(q < pow2_int(prefix as nat)) by (nonlinear_arith)
        requires
            block >= 1,
            block * q <= ip < block * pow2_int(prefix as nat),
    ;
    assert((q + 1) * block <= pow2_int(prefix as nat) * block) by (nonlinear_arith)
        requires
            q + 1 <= pow2_int(prefix as nat),
            block >= 1,
    ;
    assert(ip - (ip as int) % block + block == (q + 1) * block) by (nonlinear_arith)
        requires
            ip as int == block * q + (ip as int) % block,
    ;
}

/// An IPv6 network given as an address inside it and a prefix length.
#[derive(Clone, Copy, PartialEq, Eq, Structural, Debug)]
pub struct Ipv6Net {
    pub ip: u128,
    pub prefix: u8,
}

pub open spec fn v6_block_size(prefix: u8) -> int
    recommends
        prefix <= 128,
{
    pow2_int((128 - prefix) as nat)
}

pub proof fn lemma_pow2_int_bound128(k: nat)
    requires
        k <= 128,
    ensures
        1 <= pow2_int(k) <= 0x1_0000_0000_0000_0000_0000_0000_0000_0000,
{
    lemma_pow2_int_pos(k);
    lemma_pow2_int_mono(k, 128);
    lemma_pow2_128();
}

/// Computes 2^k for k <= 127 as a u128.
pub fn pow2_u128(k: u8) -> (r: u128)
    requires
        k <= 127,
    ensures
        r == pow2_int(k as nat),
{
    let mut r: u128 = 1;
    let mut i: u8 = 0;
    while i < k
        invariant
            i <= k <= 127,
            r == pow2_int(i as nat),
        decreases k - i,
    {
        proof {
            lemma_pow2_int_mono((i + 1) as nat, 127);
            lemma_pow2_128();
        }
        r = r * 2;
        i = i + 1;
    }
    r
}

impl Ipv6Net {
    pub open spec fn wf(self) -> bool {
        self.prefix <= 128
    }

    pub open spec fn spec_network(self) -> int {
        self.ip - (self.ip as int) % v6_block_size(self.prefix)
    }

    pub open spec fn spec_broadcast(self) -> int {
        self.spec_network() + v6_block_size(self.prefix) - 1
    }

    pub open spec fn spec_contains(self, x: u128) -> bool {
        self.spec_network() <= x <= self.spec_broadcast()
    }

    pub fn new(ip: u128, prefix: u8) -> (r: Option<Ipv6Net>)
        ensures
            r is Some <==> prefix <= 128,
            r is Some ==> r->0 == (Ipv6Net { ip, prefix }) && r->0.wf(),
    {
        if prefix <= 128 {
            Some(Ipv6Net { ip, prefix })
        } else {
            None
        }
    }

    pub fn contains(&self, x: u128) -> (r: bool)
        requires
            self.wf(),
        ensures
            r == self.spec_contains(x),
    {
        if self.prefix == 0 {
            // The whole address space: network 0, broadcast 2^128 - 1.
            proof {
                lemma_pow2_128();
                assert((self.ip as int) % v6_block_size(0) == self.ip) by (nonlinear_arith)
                    requires
                        v6_block_size(0) == 0x1_0000_0000_0000_0000_0000_0000_0000_0000,
                        0 <= self.ip < 0x1_0000_0000_0000_0000_0000_0000_0000_0000,
                ;
            }
            return true;
        }
        let block: u128 = pow2_u128(128 - self.prefix);
        proof {
            lemma_pow2_int_bound128((128 - self.prefix) as nat);
            assert(self.ip % block <= self.ip) by (nonlinear_arith)
                requires
                    block >= 1,
            ;
        }
        let net: u128 = self.ip - self.ip % block;
        if x < net {
            return false;
        }
        // x - net < block  <==>  x <= broadcast
        x - net < block
    }
}

/// A network of either family, as an interface carries them.
#[derive(Clone, Copy, PartialEq, Eq, Structural, Debug)]
pub enum IpNet {
    V4(Ipv4Net),
    V6(Ipv6Net),
}

impl IpNet {
    pub open spec fn wf(self) -> bool {
        match self {
            IpNet::V4(n) => n.wf(),
            IpNet::V6(n) => n.wf(),
        }
    }

    pub open spec fn spec_ip(self) -> IpAddress {
        match self {
            IpNet::V4(n) => IpAddress::V4(n.ip),
            IpNet::V6(n) => IpAddress::V6(n.ip),
        }
    }

    pub fn ip(&self) -> (r: IpAddress)
        ensures
            r == self.spec_ip(),
    {
        match self {
            IpNet::V4(n) => IpAddress::V4(n.ip),
            IpNet::V6(n) => IpAddress::V6(n.ip),
        }
    }

    /// Family-respecting membership: an address belongs to a network only
    /// within the same family.
    pub open spec fn spec_contains_ip(self, ip: IpAddress) -> bool {
        match (self, ip) {
            (IpNet::V4(n), IpAddress::V4(x)) => n.spec_contains(x),
            (IpNet::V6(n), IpAddress::V6(x)) => n.spec_contains(x),
            _ => false,
        }
    }

    pub fn contains_ip(&self, ip: &IpAddress) -> (r: bool)
        requires
            self.wf(),
        ensures
            r == self.spec_contains_ip(*ip),
    {
        match (self, ip) {
            (IpNet::V4(n), IpAddress::V4(x)) => n.contains(*x),
            (IpNet::V6(n), IpAddress::V6(x)) => n.contains(*x),
            _ => false,
        }
    }
}

} // verus!
