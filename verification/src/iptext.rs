use vstd::prelude::*;

use crate::net::{v4_octet0, v4_octet1, v4_octet2, v4_octet3, IpAddress};
use crate::text::{
    dec_rep, dec_val, is_digits, lemma_dec_rep_shape, lemma_dec_rep_val, lemma_dec_val_nonneg,
    parse_dec_window, push_char, push_dec_u32, split_char, split_spec,
};

verus! {

/// The canonical dotted-quad text of an IPv4 value.
pub open spec fn ipv4_text(v: u32) -> Seq<char> {
    dec_rep(v4_octet0(v) as nat) + seq!['.'] + dec_rep(v4_octet1(v) as nat) + seq!['.'] + dec_rep(
        v4_octet2(v) as nat,
    ) + seq!['.'] + dec_rep(v4_octet3(v) as nat)
}

/// Appends the dotted-quad text of `v`.
pub fn push_ipv4_text(s: &mut String, v: u32)
    ensures
        final(s)@ == old(s)@ + ipv4_text(v),
{
    let (o0, o1, o2, o3) = crate::net::v4_octets(v);
    push_dec_u32(s, o0 as u32);
    push_char(s, '.');
    push_dec_u32(s, o1 as u32);
    push_char(s, '.');
    push_dec_u32(s, o2 as u32);
    push_char(s, '.');
    push_dec_u32(s, o3 as u32);
    proof {
        assert(s@ =~= old(s)@ + ipv4_text(v));
    }
}

pub fn ipv4_to_string(v: u32) -> (r: String)
    ensures
        r@ == ipv4_text(v),
{
    let mut s = String::new();
    push_ipv4_text(&mut s, v);
    proof {
        assert(s@ =~= ipv4_text(v));
    }
    s
}

/// A decimal octet as address text allows it: one to three digits, no
/// leading zero, value under 256.
pub open spec fn is_octet_text(s: Seq<char>) -> bool {
    &&& 1 <= s.len() <= 3
    &&& is_digits(s)
    &&& (s.len() > 1 ==> s[0] != '0')
    &&& dec_val(s) <= 255
}

/// What a dotted-quad string denotes: four octet pieces, combined
/// big-endian; anything else is nothing.
pub open spec fn spec_parse_ipv4(s: Seq<char>) -> Option<u32> {
    let ps = split_spec(s, '.');
    if ps.len() == 4 && is_octet_text(ps[0]) && is_octet_text(ps[1]) && is_octet_text(ps[2])
        && is_octet_text(ps[3]) {
        Some(
            (dec_val(ps[0]) * 0x100_0000 + dec_val(ps[1]) * 0x1_0000 + dec_val(ps[2]) * 0x100
                + dec_val(ps[3])) as u32,
        )
    } else {
        None
    }
}

/// Checks one piece as an octet and gives its value.
fn parse_octet(piece: &str) -> (r: Option<u8>)
    ensures
        r is Some <==> is_octet_text(piece@),
        r is Some ==> r->0 == dec_val(piece@),
{
    let len = piece.unicode_len();
    if len < 1 || len > 3 {
        return None;
    }
    match parse_dec_window(piece, 0, len) {
        Some(v) => {
            proof {
                assert(piece@.subrange(0, len as int) =~= piece@);
            }
            if v > 255 {
                return None;
            }
            if len > 1 {
                let c0 = piece.get_char(0);
                if c0 == '0' {
                    return None;
                }
            }
            Some(v as u8)
        },
        None => {
            proof {
                assert(piece@.subrange(0, len as int) =~= piece@);
                if is_digits(piece@) {
                    lemma_dec_val_nonneg(piece@);
                    // three digits are worth at most 999
                    crate::text::lemma_dec_val_prefix_le(piece@, piece@.len() as int);
                    lemma_dec_val_window_bound(piece@);
                }
            }
            None
        },
    }
}

/// A digit string of up to three characters is worth less than one
/// thousand.
proof fn lemma_dec_val_window_bound(s: Seq<char>)
    requires
        is_digits(s),
        s.len() <= 3,
    ensures
        dec_val(s) < 1000,
    decreases s.len(),
{
    if s.len() > 0 {
        assert(is_digits(s.drop_last())) by {
            assert(forall|i: int| 0 <= i < s.len() - 1 ==> s.drop_last()[i] == #[trigger] s[i]);
        }
        lemma_dec_val_window_bound(s.drop_last());
        lemma_dec_val_nonneg(s.drop_last());
        if s.len() == 1 {
            assert(dec_val(s.drop_last()) == 0);
        } else if s.len() == 2 {
            assert(dec_val(s.drop_last()) <= 9) by {
                lemma_dec_val_digit1(s.drop_last());
            }
        } else {
            assert(dec_val(s.drop_last()) <= 99) by {
                lemma_dec_val_digit2(s.drop_last());
            }
        }
    }
}

proof fn lemma_dec_val_digit1(s: Seq<char>)
    requires
        is_digits(s),
        s.len() == 1,
    ensures
        dec_val(s) <= 9,
{
    assert(s.drop_last().len() == 0);
    assert(dec_val(s.drop_last()) == 0);
    assert(crate::text::is_digit(s.last())) by {
        assert(s.last() == s[0]);
    }
    assert('0' as int == 48 && '9' as int == 57);
    assert(dec_val(s) == 0 * 10 + crate::text::digit_val(s.last()));
}

proof fn lemma_dec_val_digit2(s: Seq<char>)
    requires
        is_digits(s),
        s.len() == 2,
    ensures
        dec_val(s) <= 99,
{
    assert(is_digits(s.drop_last())) by {
        assert(forall|i: int| 0 <= i < s.len() - 1 ==> s.drop_last()[i] == #[trigger] s[i]);
    }
    lemma_dec_val_digit1(s.drop_last());
}

/// Parses dotted-quad IPv4 text; exactly the strings the grammar allows.
pub fn parse_ipv4(s: &str) -> (r: Option<u32>)
    ensures
        r == spec_parse_ipv4(s@),
{
    let pieces = split_char(s, '.');
    if pieces.len() != 4 {
        return None;
    }
    let p0 = parse_octet(pieces[0].as_str());
    let p1 = parse_octet(pieces[1].as_str());
    let p2 = parse_octet(pieces[2].as_str());
    let p3 = parse_octet(pieces[3].as_str());
    proof {
        assert(pieces.deep_view()[0] == pieces@[0]@);
        assert(pieces.deep_view()[1] == pieces@[1]@);
        assert(pieces.deep_view()[2] == pieces@[2]@);
        assert(pieces.deep_view()[3] == pieces@[3]@);
    }
    match (p0, p1, p2, p3) {
        (Some(a), Some(b), Some(c), Some(d)) => {
            let v = crate::net::v4_from_octets(a, b, c, d);
            proof {
                crate::text::lemma_dec_val_nonneg(pieces@[0]@);
            }
            Some(v)
        },
        _ => None,
    }
}

/// The canonical text of an address reads back as that address: the
/// dotted-quad grammar inverts the formatter.
pub proof fn lemma_parse_ipv4_text(v: u32)
    ensures
        spec_parse_ipv4(ipv4_text(v)) == Some(v),
{
    let o0 = v4_octet0(v) as nat;
    let o1 = v4_octet1(v) as nat;
    let o2 = v4_octet2(v) as nat;
    let o3 = v4_octet3(v) as nat;
    lemma_dec_rep_val(o0);
    lemma_dec_rep_val(o1);
    lemma_dec_rep_val(o2);
    lemma_dec_rep_val(o3);
    lemma_dec_rep_shape(o0);
    lemma_dec_rep_shape(o1);
    lemma_dec_rep_shape(o2);
    lemma_dec_rep_shape(o3);
    assert(o0 < 256 && o1 < 256 && o2 < 256 && o3 < 256);
    let s = ipv4_text(v);
    let s1 = dec_rep(o1) + seq!['.'] + dec_rep(o2) + seq!['.'] + dec_rep(o3);
    let s2 = dec_rep(o2) + seq!['.'] + dec_rep(o3);
    let s3 = dec_rep(o3);
    lemma_dec_rep_no_dot(o0);
    lemma_dec_rep_no_dot(o1);
    lemma_dec_rep_no_dot(o2);
    lemma_dec_rep_no_dot(o3);
    assert(s =~= dec_rep(o0) + seq!['.'] + s1);
    lemma_split_no_sep_concat(dec_rep(o0), s1, s, '.');
    assert(s1 =~= dec_rep(o1) + seq!['.'] + s2);
    lemma_split_no_sep_concat(dec_rep(o1), s2, s1, '.');
    assert(s2 =~= dec_rep(o2) + seq!['.'] + s3);
    lemma_split_no_sep_concat(dec_rep(o2), s3, s2, '.');
    lemma_split_no_sep_whole(dec_rep(o3), '.');
    assert(split_spec(s, '.') =~= seq![dec_rep(o0), dec_rep(o1), dec_rep(o2), dec_rep(o3)]);
    assert(is_octet_text(dec_rep(o0)));
    assert(is_octet_text(dec_rep(o1)));
    assert(is_octet_text(dec_rep(o2)));
    assert(is_octet_text(dec_rep(o3)));
    assert((o0 * 0x100_0000 + o1 * 0x1_0000 + o2 * 0x100 + o3) == v) by (nonlinear_arith)
        requires
            o0 == (v as int) / 0x100_0000,
            o1 == ((v as int) / 0x1_0000) % 0x100,
            o2 == ((v as int) / 0x100) % 0x100,
            o3 == (v as int) % 0x100,
            v < 0x1_0000_0000,
    ;
}

/// A dot is not a digit, so decimal texts never hold the separator.
pub proof fn lemma_dec_rep_no_dot(n: nat)
    ensures
        forall|i: int| 0 <= i < dec_rep(n).len() ==> #[trigger] dec_rep(n)[i] != '.',
{
    lemma_dec_rep_val(n);
    assert forall|i: int| 0 <= i < dec_rep(n).len() implies #[trigger] dec_rep(n)[i] != '.' by {
        assert(crate::text::is_digit(dec_rep(n)[i]));
        assert('.' as int == 46 && '0' as int == 48);
    }
}

/// Splitting `p + sep + rest` peels off `p` when `p` has no separator.
pub proof fn lemma_split_no_sep_concat(p: Seq<char>, rest: Seq<char>, s: Seq<char>, sep: char)
    requires
        s == p + seq![sep] + rest,
        forall|i: int| 0 <= i < p.len() ==> #[trigger] p[i] != sep,
    ensures
        split_spec(s, sep) == seq![p] + split_spec(rest, sep),
{
    assert(s[p.len() as int] == sep);
    assert(forall|k: int| 0 <= k < p.len() ==> s[k] == #[trigger] p[k]);
    crate::text::lemma_split_step(s, sep, p.len() as int);
    assert(s.subrange(0, p.len() as int) =~= p);
    assert(s.subrange(p.len() as int + 1, s.len() as int) =~= rest);
}

/// A separator-free string splits into just itself.
pub proof fn lemma_split_no_sep_whole(p: Seq<char>, sep: char)
    requires
        forall|i: int| 0 <= i < p.len() ==> #[trigger] p[i] != sep,
    ensures
        split_spec(p, sep) == seq![p],
{
    crate::text::lemma_split_whole(p, sep);
}

/// The reverse-DNS name of an address: the PTR owner in `in-addr.arpa`
/// for IPv4 and nibble-reversed `ip6.arpa` for IPv6.
pub open spec fn ptr_name_text(ip: IpAddress) -> Seq<char> {
    match ip {
        IpAddress::V4(v) => dec_rep(v4_octet3(v) as nat) + seq!['.'] + dec_rep(
            v4_octet2(v) as nat,
        ) + seq!['.'] + dec_rep(v4_octet1(v) as nat) + seq!['.'] + dec_rep(v4_octet0(v) as nat)
            + in_addr_arpa_text(),
        IpAddress::V6(v) => v6_nibbles_text(v, 32) + ip6_arpa_text(),
    }
}

pub open spec fn in_addr_arpa_text() -> Seq<char> {
    seq!['.', 'i', 'n', '-', 'a', 'd', 'd', 'r', '.', 'a', 'r', 'p', 'a']
}

pub open spec fn ip6_arpa_text() -> Seq<char> {
    seq!['i', 'p', '6', '.', 'a', 'r', 'p', 'a']
}

/// The k-th nibble of an IPv6 value, counting from the least significant.
pub open spec fn v6_nibble(v: u128, k: int) -> int {
    ((v as int) / crate::net::pow2_int((4 * k) as nat)) % 16
}

/// A nibble is a hex digit.
pub proof fn lemma_v6_nibble_range(v: u128, k: int)
    ensures
        0 <= v6_nibble(v, k) < 16,
{
}

/// The first `k` nibbles, each followed by a dot, least significant
/// first — the order a reverse-DNS name walks them.
pub open spec fn v6_nibbles_text(v: u128, k: int) -> Seq<char>
    decreases k,
{
    if k <= 0 {
        Seq::<char>::empty()
    } else {
        v6_nibbles_text(v, k - 1) + seq![crate::text::hex_digit(v6_nibble(v, k - 1)), '.']
    }
}

/// Builds the reverse-DNS (PTR) owner name for an address.
pub fn reverse_address_to_ptr(ip: &IpAddress) -> (r: String)
    ensures
        r@ == ptr_name_text(*ip),
{
    match ip {
        IpAddress::V4(v) => {
            let (o0, o1, o2, o3) = crate::net::v4_octets(*v);
            let mut s = String::new();
            push_dec_u32(&mut s, o3 as u32);
            push_char(&mut s, '.');
            push_dec_u32(&mut s, o2 as u32);
            push_char(&mut s, '.');
            push_dec_u32(&mut s, o1 as u32);
            push_char(&mut s, '.');
            push_dec_u32(&mut s, o0 as u32);
            s.append(".in-addr.arpa");
            proof {
                reveal_strlit(".in-addr.arpa");
                assert(s@ =~= ptr_name_text(*ip));
            }
            s
        },
        IpAddress::V6(v) => {
            let mut s = String::new();
            let mut rest: u128 = *v;
            let mut k: usize = 0;
            while k < 32
                invariant
                    0 <= k <= 32,
                    rest == (*v as int) / crate::net::pow2_int((4 * k) as nat),
                    s@ == v6_nibbles_text(*v, k as int),
                decreases 32 - k,
            {
                let nib: u8 = (rest % 16) as u8;
                let c = crate::text::hex_digit_char(nib);
                push_char(&mut s, c);
                push_char(&mut s, '.');
                proof {
                    lemma_v6_nibble_step(*v, k as int, rest);
                    assert(s@ =~= v6_nibbles_text(*v, k as int).push(
                        crate::text::hex_digit(v6_nibble(*v, k as int)),
                    ).push('.'));
                    assert(v6_nibbles_text(*v, (k + 1) as int) =~= v6_nibbles_text(
                        *v,
                        k as int,
                    ).push(crate::text::hex_digit(v6_nibble(*v, k as int))).push('.'));
                }
                rest = rest / 16;
                k = k + 1;
            }
            s.append("ip6.arpa");
            proof {
                reveal_strlit("ip6.arpa");
                assert(s@ =~= ptr_name_text(*ip));
            }
            s
        },
    }
}

/// Shifting by one more nibble is one more division by sixteen.
proof fn lemma_v6_nibble_step(v: u128, k: int, rest: u128)
    requires
        0 <= k < 32,
        rest == (v as int) / crate::net::pow2_int((4 * k) as nat),
    ensures
        v6_nibble(v, k) == (rest as int) % 16,
        (rest as int) / 16 == (v as int) / crate::net::pow2_int((4 * (k + 1)) as nat),
{
    let p = crate::net::pow2_int((4 * k) as nat);
    let p2 = crate::net::pow2_int((4 * (k + 1)) as nat);
    crate::net::lemma_pow2_int_pos((4 * k) as nat);
    crate::net::lemma_pow2_int_add((4 * k) as nat, 4);
    assert(crate::net::pow2_int(4) == 16) by {
        reveal_with_fuel(crate::net::pow2_int, 5);
    }
    assert(p * 16 == p2);
    assert(((v as int) / p) / 16 == (v as int) / (p * 16)) by (nonlinear_arith)
        requires
            p >= 1,
    ;
}


/// Hexadecimal digits as IPv6 group text allows them, either case.
pub open spec fn is_hex_char(c: char) -> bool {
    ('0' <= c && c <= '9') || ('a' <= c && c <= 'f') || ('A' <= c && c <= 'F')
}

pub open spec fn hex_char_val(c: char) -> int {
    if '0' <= c && c <= '9' {
        c as int - '0' as int
    } else if 'a' <= c && c <= 'f' {
        c as int - 'a' as int + 10
    } else {
        c as int - 'A' as int + 10
    }
}

/// The value of a hexadecimal digit string.
pub open spec fn hex_val(s: Seq<char>) -> int
    decreases s.len(),
{
    if s.len() == 0 {
        0
    } else {
        hex_val(s.drop_last()) * 16 + hex_char_val(s.last())
    }
}

/// An IPv6 group: one to four hexadecimal digits.
pub open spec fn is_group_text(s: Seq<char>) -> bool {
    1 <= s.len() <= 4 && (forall|i: int| 0 <= i < s.len() ==> is_hex_char(#[trigger] s[i]))
}

pub open spec fn all_groups(ps: Seq<Seq<char>>, from: int, to: int) -> bool {
    forall|k: int| from <= k < to ==> is_group_text(#[trigger] ps[k])
}

/// The value of consecutive groups read as big-endian 16-bit segments.
pub open spec fn segs_val(ps: Seq<Seq<char>>, from: int, to: int) -> int
    decreases to - from,
{
    if to <= from {
        0
    } else {
        segs_val(ps, from, to - 1) * 0x1_0000 + hex_val(ps[to - 1])
    }
}

/// A bounded hexadecimal string stays under 16 to its length.
pub proof fn lemma_hex_val_bound(s: Seq<char>)
    requires
        forall|i: int| 0 <= i < s.len() ==> is_hex_char(#[trigger] s[i]),
    ensures
        0 <= hex_val(s),
        hex_val(s) < crate::net::pow2_int((4 * s.len()) as nat),
    decreases s.len(),
{
    crate::net::lemma_pow2_int_pos((4 * s.len()) as nat);
    if s.len() > 0 {
        assert(forall|i: int|
            0 <= i < s.len() - 1 ==> s.drop_last()[i] == #[trigger] s[i]);
        lemma_hex_val_bound(s.drop_last());
        let p = crate::net::pow2_int((4 * (s.len() - 1)) as nat);
        crate::net::lemma_pow2_int_add((4 * (s.len() - 1)) as nat, 4);
        assert(crate::net::pow2_int(4) == 16) by {
            reveal_with_fuel(crate::net::pow2_int, 5);
        }
        assert(is_hex_char(s.last())) by {
            assert(s.last() == s[s.len() - 1]);
        }
        assert(0 <= hex_char_val(s.last()) < 16);
        assert(hex_val(s.drop_last()) * 16 + hex_char_val(s.last()) < p * 16) by (nonlinear_arith)
            requires
                hex_val(s.drop_last()) < p,
                hex_char_val(s.last()) < 16,
                0 <= hex_val(s.drop_last()),
        ;
        assert(hex_val(s.drop_last()) * 16 >= 0) by (nonlinear_arith)
            requires
                hex_val(s.drop_last()) >= 0,
        ;
    }
}

/// Consecutive groups stay under 2^(16 n).
pub proof fn lemma_segs_val_bound(ps: Seq<Seq<char>>, from: int, to: int)
    requires
        0 <= from <= to <= ps.len(),
        all_groups(ps, from, to),
    ensures
        0 <= segs_val(ps, from, to),
        segs_val(ps, from, to) < crate::net::pow2_int((16 * (to - from)) as nat),
    decreases to - from,
{
    crate::net::lemma_pow2_int_pos((16 * (to - from)) as nat);
    if to > from {
        lemma_segs_val_bound(ps, from, to - 1);
        let p = crate::net::pow2_int((16 * (to - 1 - from)) as nat);
        crate::net::lemma_pow2_int_add((16 * (to - 1 - from)) as nat, 16);
        assert(crate::net::pow2_int(16) == 0x1_0000) by {
            reveal_with_fuel(crate::net::pow2_int, 17);
        }
        assert(is_group_text(ps[to - 1]));
        lemma_hex_val_bound(ps[to - 1]);
        assert(hex_val(ps[to - 1]) < crate::net::pow2_int((4 * ps[to - 1].len()) as nat));
        crate::net::lemma_pow2_int_mono((4 * ps[to - 1].len()) as nat, 16);
        assert(segs_val(ps, from, to - 1) * 0x1_0000 + hex_val(ps[to - 1]) < p * 0x1_0000)
            by (nonlinear_arith)
            requires
                segs_val(ps, from, to - 1) < p,
                hex_val(ps[to - 1]) < 0x1_0000,
                0 <= segs_val(ps, from, to - 1),
        ;
        assert(segs_val(ps, from, to - 1) * 0x1_0000 >= 0) by (nonlinear_arith)
            requires
                segs_val(ps, from, to - 1) >= 0,
        ;
    }
}

/// The first empty piece at or after `i`, or -1.
pub open spec fn first_empty_from(ps: Seq<Seq<char>>, i: int) -> int
    decreases ps.len() - i,
{
    if i < 0 || i >= ps.len() {
        -1
    } else if ps[i].len() == 0 {
        i
    } else {
        first_empty_from(ps, i + 1)
    }
}

proof fn lemma_first_empty_at(ps: Seq<Seq<char>>, i: int)
    requires
        0 <= i <= ps.len(),
        forall|k: int| 0 <= k < i ==> (#[trigger] ps[k]).len() > 0,
        i == ps.len() || ps[i].len() == 0,
    ensures
        first_empty_from(ps, 0) == if i == ps.len() {
            -1int
        } else {
            i
        },
    decreases i,
{
    lemma_first_empty_from_at(ps, 0, i);
}

proof fn lemma_first_empty_from_at(ps: Seq<Seq<char>>, j: int, i: int)
    requires
        0 <= j <= i <= ps.len(),
        forall|k: int| j <= k < i ==> (#[trigger] ps[k]).len() > 0,
        i == ps.len() || ps[i].len() == 0,
    ensures
        first_empty_from(ps, j) == if i == ps.len() {
            -1int
        } else {
            i
        },
    decreases i - j,
{
    if j < i {
        lemma_first_empty_from_at(ps, j + 1, i);
    }
}

/// What IPv6 text denotes, over its colon-split pieces: eight groups, or
/// a shorter run on each side of one `::` gap.
pub open spec fn spec_parse_ipv6(s: Seq<char>) -> Option<u128> {
    let ps = split_spec(s, ':');
    let n = ps.len() as int;
    let e = first_empty_from(ps, 0);
    if e == -1 {
        if n == 8 && all_groups(ps, 0, 8) {
            Some(segs_val(ps, 0, 8) as u128)
        } else {
            None
        }
    } else if e == 0 {
        if n >= 3 && ps[1].len() == 0 {
            if n == 3 && ps[2].len() == 0 {
                Some(0)
            } else if all_groups(ps, 2, n) && n - 2 <= 7 {
                Some(segs_val(ps, 2, n) as u128)
            } else {
                None
            }
        } else {
            None
        }
    } else if e == n - 2 && ps[n - 1].len() == 0 {
        if all_groups(ps, 0, n - 2) && n - 2 <= 7 {
            Some(
                (segs_val(ps, 0, n - 2) * crate::net::pow2_int((16 * (8 - (n - 2))) as nat)) as u128,
            )
        } else {
            None
        }
    } else if 1 <= e <= n - 2 {
        if all_groups(ps, 0, e) && all_groups(ps, e + 1, n) && n - 1 <= 7 {
            Some(
                (segs_val(ps, 0, e) * crate::net::pow2_int((16 * (8 - e)) as nat) + segs_val(
                    ps,
                    e + 1,
                    n,
                )) as u128,
            )
        } else {
            None
        }
    } else {
        None
    }
}

/// Checks one piece as a group and gives its value.
fn parse_group(piece: &str) -> (r: Option<u16>)
    ensures
        r is Some <==> is_group_text(piece@),
        r is Some ==> r->0 == hex_val(piece@),
{
    let len = piece.unicode_len();
    if len < 1 || len > 4 {
        return None;
    }
    let mut acc: u32 = 0;
    let mut i: usize = 0;
    while i < len
        invariant
            0 <= i <= len == piece@.len() <= 4,
            forall|k: int| 0 <= k < i ==> is_hex_char(#[trigger] piece@[k]),
            acc == hex_val(piece@.subrange(0, i as int)),
            acc < 0x1_0000,
        decreases len - i,
    {
        let c = piece.get_char(i);
        let d: u32 = if c >= '0' && c <= '9' {
            (c as u32) - ('0' as u32)
        } else if c >= 'a' && c <= 'f' {
            (c as u32) - ('a' as u32) + 10
        } else if c >= 'A' && c <= 'F' {
            (c as u32) - ('A' as u32) + 10
        } else {
            proof {
                assert(piece@[i as int] == c && !is_hex_char(c));
            }
            return None;
        };
        proof {
            assert(piece@.subrange(0, (i + 1) as int).drop_last() =~= piece@.subrange(
                0,
                i as int,
            ));
            assert(piece@.subrange(0, (i + 1) as int).last() == c);
            assert(d == hex_char_val(c));
            assert(is_hex_char(piece@.subrange(0, i as int + 1)[i as int]));
            // at most four digits keep the accumulator under 2^16
            assert(forall|k: int|
                0 <= k < i + 1 ==> is_hex_char(#[trigger] piece@.subrange(0, i as int + 1)[k]));
            lemma_hex_val_bound(piece@.subrange(0, i as int + 1));
            crate::net::lemma_pow2_int_mono((4 * (i + 1)) as nat, 16);
            assert(crate::net::pow2_int(16) == 0x1_0000) by {
                reveal_with_fuel(crate::net::pow2_int, 17);
            }
        }
        acc = acc * 16 + d;
        i = i + 1;
    }
    proof {
        assert(piece@.subrange(0, len as int) =~= piece@);
    }
    Some(acc as u16)
}

/// The value of the group run [from, to), under 2^(16 (to-from)).
fn parse_groups(pieces: &Vec<String>, from: usize, to: usize) -> (r: Option<u128>)
    requires
        from <= to <= pieces@.len(),
        to - from <= 8,
    ensures
        r is Some <==> all_groups(pieces.deep_view(), from as int, to as int),
        r is Some ==> r->0 == segs_val(pieces.deep_view(), from as int, to as int),
{
    let ghost dv = pieces.deep_view();
    let mut acc: u128 = 0;
    let mut i: usize = from;
    while i < to
        invariant
            from <= i <= to <= pieces@.len(),
            to - from <= 8,
            dv == pieces.deep_view(),
            all_groups(dv, from as int, i as int),
            acc == segs_val(dv, from as int, i as int),
            acc < crate::net::pow2_int((16 * (i - from)) as nat),
        decreases to - i,
    {
        proof {
            assert(dv[i as int] == pieces@[i as int]@);
        }
        match parse_group(pieces[i].as_str()) {
            Some(g) => {
                proof {
                    lemma_segs_val_bound(dv, from as int, i as int);
                    let p = crate::net::pow2_int((16 * (i - from)) as nat);
                    crate::net::lemma_pow2_int_add((16 * (i - from)) as nat, 16);
                    assert(crate::net::pow2_int(16) == 0x1_0000) by {
                        reveal_with_fuel(crate::net::pow2_int, 17);
                    }
                    assert(acc * 0x1_0000 + g < p * 0x1_0000) by (nonlinear_arith)
                        requires
                            acc < p,
                            0 <= acc,
                            g < 0x1_0000,
                    ;
                    assert(acc * 0x1_0000 >= 0) by (nonlinear_arith)
                        requires
                            acc >= 0,
                    ;
                    crate::net::lemma_pow2_int_mono((16 * (i + 1 - from)) as nat, 128);
                    crate::net::lemma_pow2_128();
                }
                acc = acc * 0x1_0000 + (g as u128);
                proof {
                    assert(all_groups(dv, from as int, (i + 1) as int)) by {
                        assert(is_group_text(dv[i as int]));
                    }
                }
            },
            None => {
                proof {
                    assert(!is_group_text(dv[i as int]));
                }
                return None;
            },
        }
        i = i + 1;
    }
    Some(acc)
}

/// Parses IPv6 text; exactly the strings the grammar above allows.
#[verifier::rlimit(100)]
pub fn parse_ipv6(s: &str) -> (r: Option<u128>)
    ensures
        r == spec_parse_ipv6(s@),
{
    let pieces = split_char(s, ':');
    let ghost dv = pieces.deep_view();
    let n = pieces.len();
    // locate the first empty piece
    let mut e: usize = 0;
    while e < n && pieces[e].as_str().unicode_len() > 0
        invariant
            0 <= e <= n == pieces@.len(),
            dv == pieces.deep_view(),
            forall|k: int| 0 <= k < e ==> (#[trigger] dv[k]).len() > 0,
        decreases n - e,
    {
        proof {
            assert(dv[e as int] == pieces@[e as int]@);
        }
        e = e + 1;
    }
    proof {
        if e < n {
            assert(dv[e as int] == pieces@[e as int]@);
        }
        lemma_first_empty_at(dv, e as int);
    }
    if e == n {
        // no gap: exactly eight groups
        if n != 8 {
            return None;
        }
        match parse_groups(&pieces, 0, 8) {
            Some(v) => {
                proof {
                    lemma_segs_val_bound(dv, 0, 8);
                }
                Some(v)
            },
            None => None,
        }
    } else if e == 0 {
        if n >= 3 && pieces[1].as_str().unicode_len() == 0 {
            proof {
                assert(dv[1] == pieces@[1]@);
                assert(dv[2] == pieces@[2]@);
            }
            if n == 3 && pieces[2].as_str().unicode_len() == 0 {
                Some(0)
            } else if n - 2 > 7 {
                None
            } else {
                match parse_groups(&pieces, 2, n) {
                    Some(v) => Some(v),
                    None => None,
                }
            }
        } else {
            proof {
                if n >= 2 {
                    assert(dv[1] == pieces@[1]@);
                }
            }
            None
        }
    } else if e == n - 2 && pieces[n - 1].as_str().unicode_len() == 0 {
        proof {
            assert(dv[n - 1] == pieces@[n - 1]@);
        }
        if n - 2 > 7 {
            return None;
        }
        match parse_groups(&pieces, 0, n - 2) {
            Some(v) => {
                let cnt = n - 2;
                let shift = crate::net::pow2_u128((16 * (8 - cnt)) as u8);
                proof {
                    lemma_segs_val_bound(dv, 0, cnt as int);
                    crate::net::lemma_pow2_int_pos((16 * (8 - cnt)) as nat);
                    lemma_v6_shift_fits(segs_val(dv, 0, cnt as int), cnt as int, 0);
                }
                Some(v * shift)
            },
            None => None,
        }
    } else if e <= n - 2 {
        proof {
            if n >= 1 {
                assert(dv[n - 1] == pieces@[n - 1]@);
            }
        }
        if n - 1 > 7 {
            return None;
        }
        let left = parse_groups(&pieces, 0, e);
        let right = parse_groups(&pieces, e + 1, n);
        match (left, right) {
            (Some(a), Some(b)) => {
                let shift = crate::net::pow2_u128((16 * (8 - e)) as u8);
                proof {
                    lemma_segs_val_bound(dv, 0, e as int);
                    lemma_segs_val_bound(dv, (e + 1) as int, n as int);
                    crate::net::lemma_pow2_int_mono(
                        (16 * (n - 1 - e)) as nat,
                        (16 * (8 - e)) as nat,
                    );
                    lemma_v6_shift_fits(
                        segs_val(dv, 0, e as int),
                        e as int,
                        segs_val(dv, (e + 1) as int, n as int),
                    );
                }
                Some(a * shift + b)
            },
            _ => None,
        }
    } else {
        None
    }
}

/// A left part under 2^(16 l), shifted into place, leaves room for any
/// right part under the shift.
proof fn lemma_v6_shift_fits(a: int, l: int, b: int)
    requires
        1 <= l <= 7,
        0 <= a < crate::net::pow2_int((16 * l) as nat),
        0 <= b < crate::net::pow2_int((16 * (8 - l)) as nat),
    ensures
        0 <= a * crate::net::pow2_int((16 * (8 - l)) as nat) + b < crate::net::pow2_int(128),
        a * crate::net::pow2_int((16 * (8 - l)) as nat) + b <= u128::MAX,
{
    let sh = crate::net::pow2_int((16 * (8 - l)) as nat);
    crate::net::lemma_pow2_int_pos((16 * (8 - l)) as nat);
    crate::net::lemma_pow2_int_add((16 * l) as nat, (16 * (8 - l)) as nat);
    crate::net::lemma_pow2_128();
    assert(crate::net::pow2_int((16 * l) as nat) * sh == crate::net::pow2_int(128));
    assert(a * sh + b < crate::net::pow2_int(128)) by (nonlinear_arith)
        requires
            0 <= a,
            0 <= b < sh,
            a < crate::net::pow2_int((16 * l) as nat),
            sh >= 1,
            crate::net::pow2_int((16 * l) as nat) * sh == crate::net::pow2_int(128),
    ;
    assert(a * sh >= 0) by (nonlinear_arith)
        requires
            0 <= a,
            sh >= 1,
    ;
}

/// What a target string denotes as one address: IPv6 when a colon
/// appears, dotted-quad IPv4 otherwise.
pub open spec fn spec_parse_ip(s: Seq<char>) -> Option<IpAddress> {
    if exists|i: int| 0 <= i < s.len() && s[i] == ':' {
        match spec_parse_ipv6(s) {
            Some(v) => Some(IpAddress::V6(v)),
            None => None,
        }
    } else {
        match spec_parse_ipv4(s) {
            Some(v) => Some(IpAddress::V4(v)),
            None => None,
        }
    }
}

/// Parses one address of either family.
pub fn parse_ip(s: &str) -> (r: Option<IpAddress>)
    ensures
        r == spec_parse_ip(s@),
{
    let len = s.unicode_len();
    let mut has_colon = false;
    let mut i: usize = 0;
    while i < len
        invariant
            0 <= i <= len == s@.len(),
            has_colon == exists|k: int| 0 <= k < i && s@[k] == ':',
        decreases len - i,
    {
        let c = s.get_char(i);
        if c == ':' {
            has_colon = true;
            proof {
                assert(s@[i as int] == ':');
            }
        }
        proof {
            if !has_colon && exists|k: int| 0 <= k < i + 1 && s@[k] == ':' {
                let w = choose|k: int| 0 <= k < i + 1 && s@[k] == ':';
                assert(w == i || (0 <= w < i && s@[w] == ':'));
            }
        }
        i = i + 1;
    }
    proof {
        if has_colon {
            assert(exists|k: int| 0 <= k < s@.len() && s@[k] == ':');
        } else {
            if exists|k: int| 0 <= k < s@.len() && s@[k] == ':' {
                let w = choose|k: int| 0 <= k < s@.len() && s@[k] == ':';
                assert(false);
            }
        }
    }
    if has_colon {
        match parse_ipv6(s) {
            Some(v) => Some(IpAddress::V6(v)),
            None => None,
        }
    } else {
        match parse_ipv4(s) {
            Some(v) => Some(IpAddress::V4(v)),
            None => None,
        }
    }
}

} // verus!
