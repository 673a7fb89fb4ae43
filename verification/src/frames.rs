use vstd::prelude::*;

use crate::error::ScanError;
use crate::net::{IpAddress, Mac};

verus! {

pub const ETH_HDR_LEN: usize = 14;

pub const ARP_LEN: usize = 28;

pub const MIN_ETH_FRAME_NO_FCS: usize = 60;

pub const IP_V6_HDR_LEN: usize = 40;

pub const ICMP_V6_ECHO_REQ_LEN: usize = 8;

pub const DNS_HDR_LEN: usize = 12;

pub const UDP_HDR_LEN: usize = 8;

pub const MIN_TCP_HDR_LEN: usize = 24;

/// The big-endian byte string of a value, `n` bytes long.
pub open spec fn be_bytes(v: int, n: nat) -> Seq<u8>
    decreases n,
{
    if n == 0 {
        Seq::<u8>::empty()
    } else {
        be_bytes(v / 256, (n - 1) as nat).push((v % 256) as u8)
    }
}

/// The value of a big-endian byte string.
pub open spec fn be_val(s: Seq<u8>) -> int
    decreases s.len(),
{
    if s.len() == 0 {
        0
    } else {
        be_val(s.drop_last()) * 256 + s.last()
    }
}

/// Writing then reading is the identity for values that fit.
pub proof fn lemma_be_round_trip(v: int, n: nat)
    requires
        0 <= v < crate::net::pow2_int(8 * n),
    ensures
        be_val(be_bytes(v, n)) == v,
        be_bytes(v, n).len() == n,
    decreases n,
{
    if n > 0 {
        crate::net::lemma_pow2_int_pos(8 * (n - 1) as nat);
        assert(crate::net::pow2_int(8 * n) == crate::net::pow2_int((8 * (n - 1)) as nat)
            * 256) by {
            crate::net::lemma_pow2_int_add((8 * (n - 1)) as nat, 8);
            assert(crate::net::pow2_int(8) == 256) by {
                reveal_with_fuel(crate::net::pow2_int, 9);
            }
        }
        assert(v / 256 < crate::net::pow2_int((8 * (n - 1)) as nat)) by (nonlinear_arith)
            requires
                0 <= v < crate::net::pow2_int((8 * (n - 1)) as nat) * 256,
        ;
        lemma_be_round_trip(v / 256, (n - 1) as nat);
        let s = be_bytes(v, n);
        assert(s.drop_last() =~= be_bytes(v / 256, (n - 1) as nat));
        assert(s.last() == (v % 256) as u8);
    }
}

pub proof fn lemma_be_bytes_len(v: int, n: nat)
    ensures
        be_bytes(v, n).len() == n,
    decreases n,
{
    if n > 0 {
        lemma_be_bytes_len(v / 256, (n - 1) as nat);
    }
}

/// Appends the big-endian bytes of `v`, `n` bytes long.
pub fn push_be(out: &mut Vec<u8>, v: u128, n: u8)
    requires
        n <= 16,
    ensures
        final(out)@ == old(out)@ + be_bytes(v as int, n as nat),
    decreases n,
{
    if n == 0 {
        proof {
            assert(old(out)@ + be_bytes(v as int, 0) =~= old(out)@);
        }
    } else {
        push_be(out, v / 256, n - 1);
        out.push((v % 256) as u8);
        proof {
            assert((old(out)@ + be_bytes((v / 256) as int, (n - 1) as nat)).push(
                ((v as int) % 256) as u8,
            ) =~= old(out)@ + be_bytes(v as int, n as nat));
        }
    }
}

/// Reads `n` big-endian bytes starting at `from`.
pub fn read_be(bytes: &Vec<u8>, from: usize, n: usize) -> (r: u128)
    requires
        n <= 16,
        from + n <= bytes@.len(),
    ensures
        r == be_val(bytes@.subrange(from as int, (from + n) as int)),
{
    let total = bytes.len();
    let mut acc: u128 = 0;
    let mut i: usize = 0;
    proof {
        assert(bytes@.subrange(from as int, from as int) =~= Seq::<u8>::empty());
    }
    while i < n
        invariant
            0 <= i <= n <= 16,
            from + n <= total == bytes@.len(),
            acc == be_val(bytes@.subrange(from as int, (from + i) as int)),
            acc < crate::net::pow2_int(8 * i as nat),
        decreases n - i,
    {
        proof {
            let a = bytes@.subrange(from as int, (from + i) as int);
            let b = bytes@.subrange(from as int, (from + i + 1) as int);
            assert(b.drop_last() =~= a);
            assert(b.last() == bytes@[from + i]);
            crate::net::lemma_pow2_int_add(8 * i as nat, 8);
            assert(crate::net::pow2_int(8) == 256) by {
                reveal_with_fuel(crate::net::pow2_int, 9);
            }
            assert(acc * 256 + bytes@[from + i] < crate::net::pow2_int(8 * i as nat) * 256)
                by (nonlinear_arith)
                requires
                    0 <= acc < crate::net::pow2_int(8 * i as nat),
                    bytes@[from + i] < 256,
            ;
            assert(acc * 256 >= 0) by (nonlinear_arith)
                requires
                    acc >= 0,
            ;
            crate::net::lemma_pow2_int_mono(8 * (i + 1) as nat, 128);
            crate::net::lemma_pow2_128();
        }
        let b = bytes[from + i];
        acc = acc * 256 + (b as u128);
        i = i + 1;
    }
    acc
}

/// An Ethernet II header: destination, source, then the EtherType.
pub open spec fn eth_header_bytes(src: Mac, dst: Mac, ethertype: u16) -> Seq<u8> {
    dst.bytes() + src.bytes() + be_bytes(ethertype as int, 2)
}

fn push_mac(out: &mut Vec<u8>, m: &Mac)
    ensures
        final(out)@ == old(out)@ + m.bytes(),
{
    out.push(m.o0);
    out.push(m.o1);
    out.push(m.o2);
    out.push(m.o3);
    out.push(m.o4);
    out.push(m.o5);
    proof {
        assert(out@ =~= old(out)@ + m.bytes());
    }
}

/// Builds the 14-byte Ethernet header.
pub fn make_header(src_mac: &Mac, dst_mac: &Mac, ethertype: u16) -> (r: Vec<u8>)
    ensures
        r@ == eth_header_bytes(*src_mac, *dst_mac, ethertype),
        r@.len() == ETH_HDR_LEN,
{
    let mut out: Vec<u8> = Vec::new();
    push_mac(&mut out, dst_mac);
    push_mac(&mut out, src_mac);
    push_be(&mut out, ethertype as u128, 2);
    proof {
        lemma_be_bytes_len(ethertype as int, 2);
        assert(out@ =~= eth_header_bytes(*src_mac, *dst_mac, ethertype));
    }
    out
}

/// The 28 ARP bytes of a request: Ethernet hardware, IPv4 protocol,
/// opcode 1, then sender and target pairs.
pub open spec fn arp_request_bytes(src_mac: Mac, tha: Mac, spa: u32, tpa: u32) -> Seq<u8> {
    seq![0u8, 1u8, 8u8, 0u8, 6u8, 4u8, 0u8, 1u8] + src_mac.bytes() + be_bytes(spa as int, 4)
        + tha.bytes() + be_bytes(tpa as int, 4)
}

/// A full ARP request frame: broadcast Ethernet header, the ARP payload,
/// zero padding up to the 60-byte minimum.
pub open spec fn arp_frame_bytes(src_mac: Mac, tha: Mac, spa: u32, tpa: u32) -> Seq<u8> {
    eth_header_bytes(src_mac, Mac::spec_broadcast(), 0x0806) + arp_request_bytes(
        src_mac,
        tha,
        spa,
        tpa,
    ) + Seq::<u8>::new(18, |i: int| 0u8)
}

/// Builds an ARP request probe for one IPv4 target.
pub fn arp_request_frame(src_mac: &Mac, tha: &Mac, spa: u32, tpa: u32) -> (r: Vec<u8>)
    ensures
        r@ == arp_frame_bytes(*src_mac, *tha, spa, tpa),
        r@.len() == MIN_ETH_FRAME_NO_FCS,
{
    let bcast = Mac::broadcast();
    let mut out = make_header(src_mac, &bcast, 0x0806);
    out.push(0);
    out.push(1);
    out.push(8);
    out.push(0);
    out.push(6);
    out.push(4);
    out.push(0);
    out.push(1);
    push_mac(&mut out, src_mac);
    push_be(&mut out, spa as u128, 4);
    push_mac(&mut out, tha);
    push_be(&mut out, tpa as u128, 4);
    let mut i: usize = 0;
    while i < 18
        invariant
            0 <= i <= 18,
            out@ =~= eth_header_bytes(*src_mac, Mac::spec_broadcast(), 0x0806)
                + arp_request_bytes(*src_mac, *tha, spa, tpa) + Seq::<u8>::new(
                i as nat,
                |k: int| 0u8,
            ),
        decreases 18 - i,
    {
        out.push(0);
        proof {
            assert(out@ =~= eth_header_bytes(*src_mac, Mac::spec_broadcast(), 0x0806)
                + arp_request_bytes(*src_mac, *tha, spa, tpa) + Seq::<u8>::new(
                (i + 1) as nat,
                |k: int| 0u8,
            ));
        }
        i = i + 1;
    }
    proof {
        lemma_be_bytes_len(spa as int, 4);
        lemma_be_bytes_len(tpa as int, 4);
        assert(out@ =~= arp_frame_bytes(*src_mac, *tha, spa, tpa));
        lemma_be_bytes_len(0x0806 as int, 2);
    }
    out
}

/// The EtherType of a captured frame, when it is long enough to have one.
pub open spec fn spec_frame_ethertype(f: Seq<u8>) -> Option<int> {
    if f.len() >= 14 {
        Some(be_val(f.subrange(12, 14)))
    } else {
        None
    }
}

pub fn frame_ethertype(frame: &Vec<u8>) -> (r: Option<u16>)
    ensures
        r is Some <==> frame@.len() >= 14,
        r is Some ==> Some(r->0 as int) == spec_frame_ethertype(frame@),
{
    if frame.len() < 14 {
        return None;
    }
    let v = read_be(frame, 12, 2);
    proof {
        lemma_be_val_bound(frame@.subrange(12, 14));
        assert(crate::net::pow2_int(16) == 0x1_0000) by {
            reveal_with_fuel(crate::net::pow2_int, 17);
        }
    }
    Some(v as u16)
}

/// A byte string's value stays under 256 to its length.
pub proof fn lemma_be_val_bound(s: Seq<u8>)
    ensures
        0 <= be_val(s) < crate::net::pow2_int(8 * s.len()),
    decreases s.len(),
{
    crate::net::lemma_pow2_int_pos(8 * s.len());
    if s.len() > 0 {
        lemma_be_val_bound(s.drop_last());
        crate::net::lemma_pow2_int_add(8 * (s.len() - 1) as nat, 8);
        assert(crate::net::pow2_int(8) == 256) by {
            reveal_with_fuel(crate::net::pow2_int, 9);
        }
        assert(be_val(s.drop_last()) * 256 + s.last() < crate::net::pow2_int(
            8 * (s.len() - 1) as nat,
        ) * 256) by (nonlinear_arith)
            requires
                0 <= be_val(s.drop_last()) < crate::net::pow2_int(8 * (s.len() - 1) as nat),
                s.last() < 256,
        ;
        assert(be_val(s.drop_last()) * 256 >= 0) by (nonlinear_arith)
            requires
                be_val(s.drop_last()) >= 0,
        ;
    }
}

/// The source hardware address of a frame, when it is long enough.
pub open spec fn spec_frame_src_mac(f: Seq<u8>) -> Option<Mac> {
    if f.len() >= 14 {
        Some(Mac { o0: f[6], o1: f[7], o2: f[8], o3: f[9], o4: f[10], o5: f[11] })
    } else {
        None
    }
}

pub fn frame_source_mac(frame: &Vec<u8>) -> (r: Option<Mac>)
    ensures
        r == spec_frame_src_mac(frame@),
        r is Some ==> (r->0).bytes() =~= frame@.subrange(6, 12),
{
    if frame.len() < 14 {
        return None;
    }
    let m = Mac {
        o0: frame[6],
        o1: frame[7],
        o2: frame[8],
        o3: frame[9],
        o4: frame[10],
        o5: frame[11],
    };
    proof {
        assert(m.bytes() =~= frame@.subrange(6, 12));
    }
    Some(m)
}

/// What source address a frame carries: the ARP sender protocol address,
/// the IPv4 source, or the IPv6 source, by EtherType.
pub open spec fn spec_frame_src_ip(f: Seq<u8>) -> Option<IpAddress> {
    match spec_frame_ethertype(f) {
        Some(et) => {
            if et == 0x0806 {
                if f.len() >= 42 {
                    Some(IpAddress::V4(be_val(f.subrange(28, 32)) as u32))
                } else {
                    None
                }
            } else if et == 0x0800 {
                if f.len() >= 34 {
                    Some(IpAddress::V4(be_val(f.subrange(26, 30)) as u32))
                } else {
                    None
                }
            } else if et == 0x86dd {
                if f.len() >= 54 {
                    Some(IpAddress::V6(be_val(f.subrange(22, 38)) as u128))
                } else {
                    None
                }
            } else {
                None
            }
        },
        None => None,
    }
}

/// Extracts the source address of a captured frame, or refuses it.
pub fn get_ip_addr_from_eth(frame: &Vec<u8>) -> (r: Result<IpAddress, ScanError>)
    ensures
        r is Ok <==> spec_frame_src_ip(frame@) is Some,
        r is Ok ==> Some(r->Ok_0) == spec_frame_src_ip(frame@),
        r is Err ==> r->Err_0 == ScanError::Decode,
{
    match frame_ethertype(frame) {
        Some(et) => {
            if et == 0x0806 {
                if frame.len() >= 42 {
                    let v = read_be(frame, 28, 4);
                    proof {
                        lemma_be_val_bound(frame@.subrange(28, 32));
                        crate::net::lemma_pow2_32();
                    }
                    Ok(IpAddress::V4(v as u32))
                } else {
                    Err(ScanError::Decode)
                }
            } else if et == 0x0800 {
                if frame.len() >= 34 {
                    let v = read_be(frame, 26, 4);
                    proof {
                        lemma_be_val_bound(frame@.subrange(26, 30));
                        crate::net::lemma_pow2_32();
                    }
                    Ok(IpAddress::V4(v as u32))
                } else {
                    Err(ScanError::Decode)
                }
            } else if et == 0x86dd {
                if frame.len() >= 54 {
                    let v = read_be(frame, 22, 16);
                    Ok(IpAddress::V6(v))
                } else {
                    Err(ScanError::Decode)
                }
            } else {
                Err(ScanError::Decode)
            }
        },
        None => Err(ScanError::Decode),
    }
}

/// The IPv6 destination of a frame, for matching echo replies.
pub fn frame_ipv6_dst(frame: &Vec<u8>) -> (r: Option<u128>)
    ensures
        r is Some <==> (spec_frame_ethertype(frame@) == Some(0x86dd as int) && frame@.len() >= 54),
        r is Some ==> r->0 == be_val(frame@.subrange(38, 54)),
{
    match frame_ethertype(frame) {
        Some(et) => {
            if et == 0x86dd && frame.len() >= 54 {
                Some(read_be(frame, 38, 16))
            } else {
                None
            }
        },
        None => None,
    }
}

/// An ARP request round-trips: the sender protocol address written into
/// a probe frame is exactly what the frame parser reads back.
pub proof fn lemma_arp_round_trip(src_mac: Mac, tha: Mac, spa: u32, tpa: u32)
    ensures
        spec_frame_src_ip(arp_frame_bytes(src_mac, tha, spa, tpa)) == Some(IpAddress::V4(spa)),
{
    let f = arp_frame_bytes(src_mac, tha, spa, tpa);
    lemma_be_bytes_len(0x0806 as int, 2);
    lemma_be_bytes_len(spa as int, 4);
    lemma_be_bytes_len(tpa as int, 4);
    assert(f.len() == 60);
    assert(f.subrange(12, 14) =~= be_bytes(0x0806, 2));
    assert(crate::net::pow2_int(16) == 0x1_0000) by {
        reveal_with_fuel(crate::net::pow2_int, 17);
    }
    lemma_be_round_trip(0x0806, 2);
    assert(f.subrange(28, 32) =~= be_bytes(spa as int, 4));
    crate::net::lemma_pow2_32();
    lemma_be_round_trip(spa as int, 4);
}

/// The ones' complement fold of a sum into sixteen bits.
pub open spec fn fold16(n: int) -> int
    decreases n,
{
    if n <= 0xffff {
        n
    } else {
        fold16(n % 0x1_0000 + n / 0x1_0000)
    }
}

/// The 16-bit-word sum of a byte string, big-endian, an odd trailing
/// byte padded with zero.
pub open spec fn words_sum(s: Seq<u8>) -> int
    decreases s.len(),
{
    if s.len() == 0 {
        0
    } else if s.len() == 1 {
        s[0] * 256
    } else {
        s[0] * 256 + s[1] + words_sum(s.subrange(2, s.len() as int))
    }
}

/// The internet checksum of a byte string: the complement of the folded
/// word sum.
pub open spec fn checksum16(s: Seq<u8>) -> int {
    0xffff - fold16(words_sum(s))
}

proof fn lemma_words_sum_bound(s: Seq<u8>)
    ensures
        0 <= words_sum(s) <= s.len() * 0xffff,
    decreases s.len(),
{
    if s.len() == 0 {
    } else if s.len() == 1 {
    } else {
        lemma_words_sum_bound(s.subrange(2, s.len() as int));
        assert((s.len() - 2) * 0xffff + 2 * 0xffff == s.len() * 0xffff) by (nonlinear_arith);
    }
}

proof fn lemma_fold16_range(n: int)
    requires
        n >= 0,
    ensures
        0 <= fold16(n) <= 0xffff,
    decreases n,
{
    if n > 0xffff {
        lemma_fold16_range(n % 0x1_0000 + n / 0x1_0000);
    }
}

/// Computes the internet checksum of the bytes.
pub fn internet_checksum(bytes: &Vec<u8>) -> (r: u16)
    requires
        bytes@.len() <= 0xffff,
    ensures
        r == checksum16(bytes@),
{
    let n = bytes.len();
    let mut acc: u64 = 0;
    let mut i: usize = 0;
    proof {
        assert(bytes@.subrange(0, n as int) =~= bytes@);
        lemma_words_sum_bound(bytes@);
    }
    while i + 1 < n
        invariant
            0 <= i <= n == bytes@.len() <= 0xffff,
            i % 2 == 0,
            acc + words_sum(bytes@.subrange(i as int, n as int)) == words_sum(bytes@),
            acc <= (i as int) * 0xffff,
        decreases n - i,
    {
        proof {
            let rest = bytes@.subrange(i as int, n as int);
            assert(rest[0] == bytes@[i as int]);
            assert(rest[1] == bytes@[i + 1]);
            assert(rest.subrange(2, rest.len() as int) =~= bytes@.subrange(
                (i + 2) as int,
                n as int,
            ));
            lemma_words_sum_bound(bytes@);
            lemma_words_sum_bound(bytes@.subrange((i + 2) as int, n as int));
            assert((i as int) * 0xffff + 2 * 0xffff == ((i + 2) as int) * 0xffff)
                by (nonlinear_arith);
            assert(((i + 2) as int) * 0xffff <= 0xffff * 0xffff + 0xffff) by (nonlinear_arith)
                requires
                    i + 2 <= 0xffff + 1,
            ;
        }
        let w: u64 = (bytes[i] as u64) * 256 + (bytes[i + 1] as u64);
        acc = acc + w;
        i = i + 2;
    }
    if i < n {
        proof {
            let rest = bytes@.subrange(i as int, n as int);
            assert(rest.len() == 1);
            assert(rest[0] == bytes@[i as int]);
            lemma_words_sum_bound(bytes@);
        }
        acc = acc + (bytes[i] as u64) * 256;
    } else {
        proof {
            assert(bytes@.subrange(i as int, n as int).len() == 0);
        }
    }
    proof {
        assert(acc == words_sum(bytes@));
        lemma_words_sum_bound(bytes@);
    }
    let ghost total = acc as int;
    while acc > 0xffff
        invariant
            acc >= 0,
            fold16(acc as int) == fold16(total),
        decreases acc,
    {
        let lo = acc % 0x1_0000;
        let hi = acc / 0x1_0000;
        proof {
            assert(lo + hi < acc) by (nonlinear_arith)
                requires
                    acc > 0xffff,
                    lo == acc % 0x1_0000,
                    hi == acc / 0x1_0000,
            ;
        }
        acc = lo + hi;
    }
    proof {
        lemma_fold16_range(total);
        assert(fold16(acc as int) == acc);
    }
    0xffff - (acc as u16)
}

/// The fixed 40-byte IPv6 header: version six, zero traffic class, the
/// flow label, payload length, next header, hop limit one for link-local
/// probes, then source and destination.
pub open spec fn ipv6_header_bytes(
    src: u128,
    dst: u128,
    payload_len: u16,
    next_header: u8,
    flow: u32,
    hop_limit: u8,
) -> Seq<u8> {
    seq![
        0x60u8,
        ((flow as int / 0x1_0000) % 16) as u8,
        ((flow as int / 0x100) % 256) as u8,
        (flow as int % 256) as u8,
    ] + be_bytes(payload_len as int, 2) + seq![next_header, hop_limit] + be_bytes(src as int, 16)
        + be_bytes(dst as int, 16)
}

/// Builds the IPv6 header.
pub fn create_ipv6_header(
    src: u128,
    dst: u128,
    payload_len: u16,
    next_header: u8,
    flow: u32,
    hop_limit: u8,
) -> (r: Vec<u8>)
    ensures
        r@ == ipv6_header_bytes(src, dst, payload_len, next_header, flow, hop_limit),
        r@.len() == IP_V6_HDR_LEN,
{
    let mut out: Vec<u8> = Vec::new();
    out.push(0x60);
    out.push(((flow / 0x1_0000) % 16) as u8);
    out.push(((flow / 0x100) % 256) as u8);
    out.push((flow % 256) as u8);
    push_be(&mut out, payload_len as u128, 2);
    out.push(next_header);
    out.push(hop_limit);
    push_be(&mut out, src, 16);
    push_be(&mut out, dst, 16);
    proof {
        lemma_be_bytes_len(payload_len as int, 2);
        lemma_be_bytes_len(src as int, 16);
        lemma_be_bytes_len(dst as int, 16);
        assert(out@ =~= ipv6_header_bytes(src, dst, payload_len, next_header, flow, hop_limit));
    }
    out
}

/// The all-nodes multicast address ff02::1.
pub open spec fn spec_all_nodes_v6() -> u128 {
    0xff02_0000_0000_0000_0000_0000_0000_0001
}

/// The ICMPv6 echo-request body: type 128, code 0, the checksum over the
/// pseudo-header, the identifier, sequence number zero.
pub open spec fn icmpv6_echo_bytes(src: u128, ident: u16) -> Seq<u8> {
    let base = seq![128u8, 0u8, 0u8, 0u8] + be_bytes(ident as int, 2) + seq![0u8, 0u8];
    let pseudo = be_bytes(src as int, 16) + be_bytes(spec_all_nodes_v6() as int, 16) + be_bytes(
        8,
        4,
    ) + seq![0u8, 0u8, 0u8, 58u8];
    let ck = checksum16(pseudo + base);
    seq![128u8, 0u8] + be_bytes(ck, 2) + be_bytes(ident as int, 2) + seq![0u8, 0u8]
}

/// A full echo-request frame to all nodes: Ethernet to 33:33:00:00:00:01,
/// the IPv6 header with hop limit one, then the echo request.
pub open spec fn icmpv6_frame_bytes(src_mac: Mac, src: u128, ident: u16, flow: u32) -> Seq<u8> {
    eth_header_bytes(
        src_mac,
        Mac { o0: 0x33, o1: 0x33, o2: 0, o3: 0, o4: 0, o5: 1 },
        0x86dd,
    ) + ipv6_header_bytes(src, spec_all_nodes_v6(), 8, 58, flow, 1) + icmpv6_echo_bytes(src, ident)
}

/// Builds the all-nodes ICMPv6 echo request probe.
pub fn create_all_nodes_echo_request_v6(src_mac: &Mac, src: u128, ident: u16, flow: u32) -> (r:
    Vec<u8>)
    ensures
        r@ == icmpv6_frame_bytes(*src_mac, src, ident, flow),
{
    let dst_mac = Mac { o0: 0x33, o1: 0x33, o2: 0, o3: 0, o4: 0, o5: 1 };
    let all_nodes: u128 = 0xff02_0000_0000_0000_0000_0000_0000_0001;
    let mut pseudo: Vec<u8> = Vec::new();
    push_be(&mut pseudo, src, 16);
    push_be(&mut pseudo, all_nodes, 16);
    push_be(&mut pseudo, 8, 4);
    pseudo.push(0);
    pseudo.push(0);
    pseudo.push(0);
    pseudo.push(58);
    pseudo.push(128);
    pseudo.push(0);
    pseudo.push(0);
    pseudo.push(0);
    push_be(&mut pseudo, ident as u128, 2);
    pseudo.push(0);
    pseudo.push(0);
    proof {
        lemma_be_bytes_len(src as int, 16);
        lemma_be_bytes_len(all_nodes as int, 16);
        lemma_be_bytes_len(8, 4);
        lemma_be_bytes_len(ident as int, 2);
        assert(pseudo@ =~= (be_bytes(src as int, 16) + be_bytes(spec_all_nodes_v6() as int, 16)
            + be_bytes(8, 4) + seq![0u8, 0u8, 0u8, 58u8]) + (seq![128u8, 0u8, 0u8, 0u8] + be_bytes(
            ident as int,
            2,
        ) + seq![0u8, 0u8]));
    }
    let ck = internet_checksum(&pseudo);
    let mut out = make_header(src_mac, &dst_mac, 0x86dd);
    let header = create_ipv6_header(src, all_nodes, 8, 58, flow, 1);
    let mut h = header;
    out.append(&mut h);
    out.push(128);
    out.push(0);
    push_be(&mut out, ck as u128, 2);
    push_be(&mut out, ident as u128, 2);
    out.push(0);
    out.push(0);
    proof {
        lemma_be_bytes_len(ck as int, 2);
        assert(out@ =~= icmpv6_frame_bytes(*src_mac, src, ident, flow));
    }
    out
}

/// A TCP SYN probe segment: ports, the sequence number, offset six with
/// only SYN set, window 1024, the checksum, and one MSS option.
pub open spec fn tcp_syn_base(sport: u16, dport: u16, seq: u32, ck: int) -> Seq<u8> {
    be_bytes(sport as int, 2) + be_bytes(dport as int, 2) + be_bytes(seq as int, 4) + be_bytes(
        0,
        4,
    ) + seq![0x60u8, 0x02u8, 0x04u8, 0x00u8] + be_bytes(ck, 2) + seq![
        0u8,
        0u8,
        0x02u8,
        0x04u8,
        0x05u8,
        0x84u8,
    ]
}

/// The pseudo-header the SYN checksum covers, per family.
pub open spec fn tcp_pseudo(src: IpAddress, dst: IpAddress) -> Seq<u8> {
    match (src, dst) {
        (IpAddress::V4(s), IpAddress::V4(d)) => be_bytes(s as int, 4) + be_bytes(d as int, 4)
            + seq![0u8, 6u8] + be_bytes(24, 2),
        (IpAddress::V6(s), IpAddress::V6(d)) => be_bytes(s as int, 16) + be_bytes(d as int, 16)
            + be_bytes(24, 4) + seq![0u8, 0u8, 0u8, 6u8],
        _ => Seq::<u8>::empty(),
    }
}

pub open spec fn spec_tcp_syn_packet(
    src: IpAddress,
    dst: IpAddress,
    sport: u16,
    dport: u16,
    seq: u32,
) -> Seq<u8> {
    tcp_syn_base(
        sport,
        dport,
        seq,
        checksum16(tcp_pseudo(src, dst) + tcp_syn_base(sport, dport, seq, 0)),
    )
}

/// Builds a SYN probe, or refuses mixed address families.
pub fn create_tcp_syn(
    src: &IpAddress,
    dst: &IpAddress,
    sport: u16,
    dport: u16,
    seq: u32,
) -> (r: Result<Vec<u8>, ScanError>)
    ensures
        r is Ok <==> (*src is V4 && *dst is V4) || (*src is V6 && *dst is V6),
        r is Ok ==> r->Ok_0@ == spec_tcp_syn_packet(*src, *dst, sport, dport, seq),
        r is Err ==> r->Err_0 == ScanError::Send,
{
    let mut pseudo: Vec<u8> = Vec::new();
    match (src, dst) {
        (IpAddress::V4(s), IpAddress::V4(d)) => {
            push_be(&mut pseudo, *s as u128, 4);
            push_be(&mut pseudo, *d as u128, 4);
            pseudo.push(0);
            pseudo.push(6);
            push_be(&mut pseudo, 24, 2);
            proof {
                assert(pseudo@ =~= tcp_pseudo(*src, *dst));
            }
        },
        (IpAddress::V6(s), IpAddress::V6(d)) => {
            push_be(&mut pseudo, *s, 16);
            push_be(&mut pseudo, *d, 16);
            push_be(&mut pseudo, 24, 4);
            pseudo.push(0);
            pseudo.push(0);
            pseudo.push(0);
            pseudo.push(6);
            proof {
                assert(pseudo@ =~= tcp_pseudo(*src, *dst));
            }
        },
        _ => {
            return Err(ScanError::Send);
        },
    }
    let mut base = tcp_syn_body(sport, dport, seq, 0);
    let mut whole = pseudo;
    whole.append(&mut base);
    proof {
        assert(whole@ =~= tcp_pseudo(*src, *dst) + tcp_syn_base(sport, dport, seq, 0));
        lemma_tcp_base_len(sport, dport, seq, 0);
        lemma_tcp_pseudo_len(*src, *dst);
        assert(whole@.len() <= 64);
    }
    let ck = internet_checksum(&whole);
    let out = tcp_syn_body(sport, dport, seq, ck);
    Ok(out)
}

proof fn lemma_tcp_pseudo_len(src: IpAddress, dst: IpAddress)
    ensures
        tcp_pseudo(src, dst).len() <= 40,
{
    match (src, dst) {
        (IpAddress::V4(s), IpAddress::V4(d)) => {
            lemma_be_bytes_len(s as int, 4);
            lemma_be_bytes_len(d as int, 4);
            lemma_be_bytes_len(24, 2);
        },
        (IpAddress::V6(s), IpAddress::V6(d)) => {
            lemma_be_bytes_len(s as int, 16);
            lemma_be_bytes_len(d as int, 16);
            lemma_be_bytes_len(24, 4);
        },
        _ => {},
    }
}

proof fn lemma_tcp_base_len(sport: u16, dport: u16, seq: u32, ck: int)
    ensures
        tcp_syn_base(sport, dport, seq, ck).len() == 24,
{
    lemma_be_bytes_len(sport as int, 2);
    lemma_be_bytes_len(dport as int, 2);
    lemma_be_bytes_len(seq as int, 4);
    lemma_be_bytes_len(0, 4);
    lemma_be_bytes_len(ck, 2);
}

fn tcp_syn_body(sport: u16, dport: u16, seq: u32, ck: u16) -> (r: Vec<u8>)
    ensures
        r@ == tcp_syn_base(sport, dport, seq, ck as int),
{
    let mut out: Vec<u8> = Vec::new();
    push_be(&mut out, sport as u128, 2);
    push_be(&mut out, dport as u128, 2);
    push_be(&mut out, seq as u128, 4);
    push_be(&mut out, 0, 4);
    out.push(0x60);
    out.push(0x02);
    out.push(0x04);
    out.push(0x00);
    push_be(&mut out, ck as u128, 2);
    out.push(0);
    out.push(0);
    out.push(0x02);
    out.push(0x04);
    out.push(0x05);
    out.push(0x84);
    proof {
        assert(out@ =~= tcp_syn_base(sport, dport, seq, ck as int));
    }
    out
}

/// The acknowledgement number of a TCP segment, when it is long enough.
pub fn tcp_ack_number(bytes: &Vec<u8>) -> (r: Option<u32>)
    ensures
        r is Some <==> bytes@.len() >= 20,
        r is Some ==> r->0 == be_val(bytes@.subrange(8, 12)),
{
    if bytes.len() < 20 {
        return None;
    }
    let v = read_be(bytes, 8, 4);
    proof {
        lemma_be_val_bound(bytes@.subrange(8, 12));
        crate::net::lemma_pow2_32();
    }
    Some(v as u32)
}

/// A UDP datagram with a zeroed checksum around the given payload.
pub open spec fn udp_packet_bytes(sport: u16, dport: u16, payload: Seq<u8>) -> Seq<u8> {
    be_bytes(sport as int, 2) + be_bytes(dport as int, 2) + be_bytes(payload.len() as int + 8, 2) + seq![
        0u8,
        0u8,
    ] + payload
}

/// Builds a UDP datagram around the payload.
pub fn create_udp_packet(sport: u16, dport: u16, payload: &Vec<u8>) -> (r: Vec<u8>)
    requires
        payload@.len() + 8 <= 0xffff,
    ensures
        r@ == udp_packet_bytes(sport, dport, payload@),
{
    let mut out: Vec<u8> = Vec::new();
    push_be(&mut out, sport as u128, 2);
    push_be(&mut out, dport as u128, 2);
    push_be(&mut out, (payload.len() + 8) as u128, 2);
    out.push(0);
    out.push(0);
    let mut i: usize = 0;
    let n = payload.len();
    while i < n
        invariant
            0 <= i <= n == payload@.len(),
            out@ =~= be_bytes(sport as int, 2) + be_bytes(dport as int, 2) + be_bytes(
                payload@.len() as int + 8,
                2,
            ) + seq![0u8, 0u8] + payload@.subrange(0, i as int),
        decreases n - i,
    {
        let b = payload[i];
        out.push(b);
        proof {
            assert(out@ =~= be_bytes(sport as int, 2) + be_bytes(dport as int, 2) + be_bytes(
                payload@.len() as int + 8,
                2,
            ) + seq![0u8, 0u8] + payload@.subrange(0, (i + 1) as int));
        }
        i = i + 1;
    }
    proof {
        assert(payload@.subrange(0, n as int) =~= payload@);
        assert(out@ =~= udp_packet_bytes(sport, dport, payload@));
    }
    out
}

/// The source port of a UDP datagram, when it is long enough.
pub fn udp_source_port(bytes: &Vec<u8>) -> (r: Option<u16>)
    ensures
        r is Some <==> bytes@.len() >= 8,
        r is Some ==> r->0 == be_val(bytes@.subrange(0, 2)),
{
    if bytes.len() < 8 {
        return None;
    }
    let v = read_be(bytes, 0, 2);
    proof {
        lemma_be_val_bound(bytes@.subrange(0, 2));
        assert(crate::net::pow2_int(16) == 0x1_0000) by {
            reveal_with_fuel(crate::net::pow2_int, 17);
        }
    }
    Some(v as u16)
}

} // verus!
