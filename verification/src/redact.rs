use vstd::prelude::*;

use crate::net::Mac;
use crate::text::{hex2_rep, hex_rep, push_char, push_hex_u32, push_hex2_u8};

verus! {

/// The masked form of a hostname: five crosses outright when it is four
/// characters or shorter, else the first two and last two characters
/// around five crosses.
pub open spec fn redacted_hostname_text(s: Seq<char>) -> Seq<char> {
    if s.len() <= 4 {
        seq!['X', 'X', 'X', 'X', 'X']
    } else {
        s.subrange(0, 2) + seq!['X', 'X', 'X', 'X', 'X'] + s.subrange(
            s.len() - 2,
            s.len() as int,
        )
    }
}

/// Masks a hostname, keeping just enough of each end to recognise it.
pub fn hostname(name: &str) -> (r: String)
    ensures
        r@ == redacted_hostname_text(name@),
{
    let len = name.unicode_len();
    if len <= 4 {
        let r = "XXXXX".to_owned();
        proof {
            reveal_strlit("XXXXX");
            assert(r@ =~= redacted_hostname_text(name@));
        }
        r
    } else {
        let head = name.substring_char(0, 2);
        let tail = name.substring_char(len - 2, len);
        let mut r = head.to_owned();
        r.append("XXXXX");
        r.append(tail);
        proof {
            reveal_strlit("XXXXX");
            assert(r@ =~= redacted_hostname_text(name@));
        }
        r
    }
}

/// The masked form of a hardware address: the vendor prefix stays, the
/// device-specific octets become crosses.
pub open spec fn redacted_mac_text(m: Mac) -> Seq<char> {
    hex2_rep(m.o0) + seq![':'] + hex2_rep(m.o1) + seq![':'] + hex2_rep(m.o2) + seq![
        ':',
        'X',
        'X',
        ':',
        'X',
        'X',
        ':',
        'X',
        'X',
    ]
}

/// Masks the last three octets of a hardware address.
pub fn mac_addr(mac: &Mac) -> (r: String)
    ensures
        r@ == redacted_mac_text(*mac),
{
    let mut s = String::new();
    push_hex2_u8(&mut s, mac.o0);
    push_char(&mut s, ':');
    push_hex2_u8(&mut s, mac.o1);
    push_char(&mut s, ':');
    push_hex2_u8(&mut s, mac.o2);
    s.append(":XX:XX:XX");
    proof {
        reveal_strlit(":XX:XX:XX");
        assert(s@ =~= redacted_mac_text(*mac));
    }
    s
}

/// The k-th 16-bit segment of an IPv6 value, counting from the front.
pub open spec fn v6_segment(v: u128, k: int) -> int
    recommends
        0 <= k < 8,
{
    ((v as int) / crate::net::pow2_int((16 * (7 - k)) as nat)) % 0x1_0000
}

fn segment_of(v: u128, k: u8) -> (r: u32)
    requires
        k < 8,
    ensures
        r == v6_segment(v, k as int),
        r < 0x1_0000,
{
    let p = crate::net::pow2_u128(16 * (7 - k));
    proof {
        crate::net::lemma_pow2_int_pos((16 * (7 - k)) as nat);
    }
    ((v / p) % 0x1_0000) as u32
}

/// The masked form of a global-unicast address: only the leading segment
/// stays visible.
pub open spec fn redacted_gua_text(v: u128) -> Seq<char> {
    hex_rep(v6_segment(v, 0) as nat) + seq![':', ':', 'X', 'X', 'X', 'X']
}

/// Masks everything but the first segment of a global-unicast address.
pub fn global_unicast(v: u128) -> (r: String)
    ensures
        r@ == redacted_gua_text(v),
{
    let s0 = segment_of(v, 0);
    let mut s = String::new();
    push_hex_u32(&mut s, s0);
    s.append("::XXXX");
    proof {
        reveal_strlit("::XXXX");
        assert(v6_segment(v, 0) >= 0);
        assert(s@ =~= redacted_gua_text(v));
    }
    s
}

/// The masked form of a link-local address: prefix and vendor-derived
/// half of the interface identifier stay.
pub open spec fn redacted_lla_text(v: u128) -> Seq<char> {
    hex_rep(v6_segment(v, 0) as nat) + seq![':', ':'] + hex_rep(v6_segment(v, 4) as nat) + seq![
        ':',
    ] + hex_rep(v6_segment(v, 5) as nat) + seq![':', 'X', 'X', 'X', 'X', ':', 'X', 'X', 'X', 'X']
}

/// Masks the final 32 bits of a link-local address.
pub fn link_local(v: u128) -> (r: String)
    ensures
        r@ == redacted_lla_text(v),
{
    let s0 = segment_of(v, 0);
    let s4 = segment_of(v, 4);
    let s5 = segment_of(v, 5);
    let mut s = String::new();
    push_hex_u32(&mut s, s0);
    s.append("::");
    push_hex_u32(&mut s, s4);
    push_char(&mut s, ':');
    push_hex_u32(&mut s, s5);
    s.append(":XXXX:XXXX");
    proof {
        reveal_strlit("::");
        reveal_strlit(":XXXX:XXXX");
        assert(s@ =~= redacted_lla_text(v));
    }
    s
}

/// A unique-local address is masked like a global-unicast one: only the
/// first segment stays.
pub fn unique_local(v: u128) -> (r: String)
    ensures
        r@ == redacted_gua_text(v),
{
    let s0 = segment_of(v, 0);
    let mut s = String::new();
    push_hex_u32(&mut s, s0);
    s.append("::XXXX");
    proof {
        reveal_strlit("::XXXX");
        assert(s@ =~= redacted_gua_text(v));
    }
    s
}

/// The first segment survives the mask untouched, so two addresses mask
/// alike exactly when their leading segments agree.
pub proof fn lemma_redact_hides_all_but_first_segment(a: u128, b: u128)
    requires
        v6_segment(a, 0) == v6_segment(b, 0),
    ensures
        redacted_gua_text(a) == redacted_gua_text(b),
{
}

} // verus!
