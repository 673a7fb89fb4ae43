use vstd::prelude::*;

use crate::error::ScanError;
use crate::iptext::{parse_ip, parse_ipv4, spec_parse_ip, spec_parse_ipv4};
use crate::net::{
    spec_v4_from_octets, v4_from_octets, v4_octet0, v4_octet1, v4_octet2, v4_octet3, IpAddress,
    Ipv4Net,
};
use crate::range::{cidr_range, IpCollection, Ipv4Range};
use crate::text::{
    dec_val, eq_ignore_case, is_digits, lower, parse_dec_window, push_char, split_char, split_spec,
    trim, trim_spec,
};

verus! {

/// A validated scan target: one host or one IPv4 interval.
#[derive(Clone, Copy, PartialEq, Eq, Structural, Debug)]
pub enum Target {
    Host(IpAddress),
    Range(Ipv4Range),
}

/// The first position of `c` in `s` at or after `i`, or -1.
pub open spec fn first_index_of(s: Seq<char>, c: char, i: int) -> int
    decreases s.len() - i,
{
    if i < 0 || i >= s.len() {
        -1
    } else if s[i] == c {
        i
    } else {
        first_index_of(s, c, i + 1)
    }
}

proof fn lemma_first_index_at(s: Seq<char>, c: char, i: int)
    requires
        0 <= i <= s.len(),
        forall|k: int| 0 <= k < i ==> s[k] != c,
        i == s.len() || s[i] == c,
    ensures
        first_index_of(s, c, 0) == if i == s.len() {
            -1int
        } else {
            i
        },
{
    lemma_first_index_from(s, c, 0, i);
}

proof fn lemma_first_index_from(s: Seq<char>, c: char, j: int, i: int)
    requires
        0 <= j <= i <= s.len(),
        forall|k: int| j <= k < i ==> s[k] != c,
        i == s.len() || s[i] == c,
    ensures
        first_index_of(s, c, j) == if i == s.len() {
            -1int
        } else {
            i
        },
    decreases i - j,
{
    if j < i {
        lemma_first_index_from(s, c, j + 1, i);
    }
}

/// Finds the first occurrence of a character.
fn find_char(s: &str, c: char) -> (r: Option<usize>)
    ensures
        r is Some <==> first_index_of(s@, c, 0) >= 0,
        r is Some ==> r->0 == first_index_of(s@, c, 0) && r->0 < s@.len() && s@[r->0 as int] == c,
{
    let len = s.unicode_len();
    let mut i: usize = 0;
    while i < len
        invariant
            0 <= i <= len == s@.len(),
            forall|k: int| 0 <= k < i ==> s@[k] != c,
        decreases len - i,
    {
        if s.get_char(i) == c {
            proof {
                lemma_first_index_at(s@, c, i as int);
            }
            return Some(i);
        }
        i = i + 1;
    }
    proof {
        lemma_first_index_at(s@, c, len as int);
    }
    None
}

/// An octet as the abbreviated range-end form allows it: any run of
/// digits whose value stays under 256.
pub open spec fn is_loose_octet_text(s: Seq<char>) -> bool {
    s.len() >= 1 && is_digits(s) && dec_val(s) <= 255
}

/// The start address with its trailing octets replaced by the given
/// pieces, right-aligned.
pub open spec fn overlay_octets(start: u32, ps: Seq<Seq<char>>) -> u32
    recommends
        1 <= ps.len() <= 4,
{
    let k = ps.len() as int;
    let o0 = if k >= 4 {
        dec_val(ps[0]) as u8
    } else {
        v4_octet0(start) as u8
    };
    let o1 = if k >= 3 {
        dec_val(ps[k - 3]) as u8
    } else {
        v4_octet1(start) as u8
    };
    let o2 = if k >= 2 {
        dec_val(ps[k - 2]) as u8
    } else {
        v4_octet2(start) as u8
    };
    let o3 = dec_val(ps[k - 1]) as u8;
    spec_v4_from_octets(o0, o1, o2, o3)
}

/// What the end half of a range token denotes, next to its start: a full
/// address, or one to four octets overlaid on the start.
pub open spec fn spec_parse_range_end(s: Seq<char>, start: u32) -> Option<u32> {
    if spec_parse_ipv4(s) is Some {
        spec_parse_ipv4(s)
    } else {
        let ps = split_spec(s, '.');
        if 1 <= ps.len() <= 4 && (forall|k: int|
            0 <= k < ps.len() ==> is_loose_octet_text(#[trigger] ps[k])) {
            Some(overlay_octets(start, ps))
        } else {
            None
        }
    }
}

/// Checks one piece as a loose octet and gives its value.
fn parse_loose_octet(piece: &str) -> (r: Option<u8>)
    ensures
        r is Some <==> is_loose_octet_text(piece@),
        r is Some ==> r->0 == dec_val(piece@),
{
    let len = piece.unicode_len();
    if len < 1 {
        return None;
    }
    match parse_dec_window(piece, 0, len) {
        Some(v) => {
            proof {
                assert(piece@.subrange(0, len as int) =~= piece@);
            }
            if v > 255 {
                return None;
            }
            Some(v as u8)
        },
        None => {
            proof {
                assert(piece@.subrange(0, len as int) =~= piece@);
                if is_loose_octet_text(piece@) {
                    assert(dec_val(piece@) <= 255);
                }
            }
            None
        },
    }
}

/// Parses the end half of a range token.
fn parse_range_end(s: &str, start: u32) -> (r: Option<u32>)
    ensures
        r == spec_parse_range_end(s@, start),
{
    match parse_ipv4(s) {
        Some(v) => Some(v),
        None => {
            let pieces = split_char(s, '.');
            let n = pieces.len();
            if n > 4 {
                return None;
            }
            let ghost dv = pieces.deep_view();
            let mut vals: Vec<u8> = Vec::new();
            let mut i: usize = 0;
            while i < n
                invariant
                    0 <= i <= n == pieces@.len() <= 4,
                    dv == pieces.deep_view(),
                    dv == split_spec(s@, '.'),
                    vals@.len() == i,
                    forall|k: int| 0 <= k < i ==> is_loose_octet_text(#[trigger] dv[k]),
                    forall|k: int| 0 <= k < i ==> vals@[k] == dec_val(dv[k]),
                decreases n - i,
            {
                proof {
                    assert(dv[i as int] == pieces@[i as int]@);
                }
                match parse_loose_octet(pieces[i].as_str()) {
                    Some(v) => {
                        vals.push(v);
                    },
                    None => {
                        proof {
                            let ps = split_spec(s@, '.');
                            assert(ps == dv);
                            assert(ps[i as int] == dv[i as int]);
                            assert(!is_loose_octet_text(ps[i as int]));
                            assert(!(forall|k: int|
                                0 <= k < ps.len() ==> is_loose_octet_text(#[trigger] ps[k])));
                        }
                        return None;
                    },
                }
                i = i + 1;
            }
            // split never yields an empty list, so 1 <= n <= 4 here
            let (s0, s1, s2, s3) = crate::net::v4_octets(start);
            let o0: u8 = if n >= 4 {
                vals[0]
            } else {
                s0
            };
            let o1: u8 = if n >= 3 {
                vals[n - 3]
            } else {
                s1
            };
            let o2: u8 = if n >= 2 {
                vals[n - 2]
            } else {
                s2
            };
            let o3: u8 = vals[n - 1];
            let v = v4_from_octets(o0, o1, o2, o3);
            proof {
                crate::text::lemma_dec_val_nonneg(dv[n - 1]);
            }
            Some(v)
        },
    }
}

/// The prefix half of a CIDR token: digits valued at most 32.
pub open spec fn is_prefix_text(s: Seq<char>) -> bool {
    s.len() >= 1 && is_digits(s) && dec_val(s) <= 32
}

/// What one target token denotes, tried in order: a single address, a
/// range over a dash, a CIDR block over a slash.
pub open spec fn spec_token_target(t: Seq<char>) -> Option<Target> {
    if spec_parse_ip(t) is Some {
        Some(Target::Host(spec_parse_ip(t)->0))
    } else {
        let d = first_index_of(t, '-', 0);
        let sl = first_index_of(t, '/', 0);
        if d >= 0 {
            let a = spec_parse_ipv4(t.subrange(0, d));
            if a is Some {
                match spec_parse_range_end(t.subrange(d + 1, t.len() as int), a->0) {
                    Some(e) => Some(
                        Target::Range(
                            if a->0 <= e {
                                Ipv4Range { start_addr: a->0, end_addr: e }
                            } else {
                                Ipv4Range { start_addr: e, end_addr: a->0 }
                            },
                        ),
                    ),
                    None => None,
                }
            } else {
                None
            }
        } else if sl >= 0 {
            let a = spec_parse_ipv4(t.subrange(0, sl));
            let p = t.subrange(sl + 1, t.len() as int);
            if a is Some && is_prefix_text(p) {
                let net = (Ipv4Net { ip: a->0, prefix: dec_val(p) as u8 });
                Some(
                    Target::Range(
                        Ipv4Range {
                            start_addr: net.spec_network() as u32,
                            end_addr: net.spec_broadcast() as u32,
                        },
                    ),
                )
            } else {
                None
            }
        } else {
            None
        }
    }
}

/// Parses one target token into a host or a range.
pub fn parse_as_target(t: &str) -> (r: Option<Target>)
    ensures
        r == spec_token_target(t@),
{
    match parse_ip(t) {
        Some(ip) => Some(Target::Host(ip)),
        None => {
            let len = t.unicode_len();
            match find_char(t, '-') {
                Some(d) => {
                    let front = t.substring_char(0, d);
                    let back = t.substring_char(d + 1, len);
                    proof {
                        lemma_first_index_in_range(t@, '-', d as int);
                    }
                    match parse_ipv4(front) {
                        Some(a) => {
                            match parse_range_end(back, a) {
                                Some(e) => Some(Target::Range(Ipv4Range::new(a, e))),
                                None => None,
                            }
                        },
                        None => None,
                    }
                },
                None => {
                    match find_char(t, '/') {
                        Some(sl) => {
                            let front = t.substring_char(0, sl);
                            let back = t.substring_char(sl + 1, len);
                            proof {
                                lemma_first_index_in_range(t@, '/', sl as int);
                            }
                            match parse_ipv4(front) {
                                Some(a) => {
                                    let blen = back.unicode_len();
                                    if blen < 1 {
                                        return None;
                                    }
                                    match parse_dec_window(back, 0, blen) {
                                        Some(p) => {
                                            proof {
                                                assert(back@.subrange(0, blen as int) =~= back@);
                                            }
                                            if p > 32 {
                                                return None;
                                            }
                                            match cidr_range(a, p as u8) {
                                                Some(rg) => Some(Target::Range(rg)),
                                                None => None,
                                            }
                                        },
                                        None => {
                                            proof {
                                                assert(back@.subrange(0, blen as int) =~= back@);
                                                if is_prefix_text(back@) {
                                                    assert(dec_val(back@) <= 32);
                                                }
                                            }
                                            None
                                        },
                                    }
                                },
                                None => None,
                            }
                        },
                        None => None,
                    }
                },
            }
        },
    }
}

/// A found first index lies inside the string.
proof fn lemma_first_index_in_range(s: Seq<char>, c: char, d: int)
    requires
        first_index_of(s, c, 0) == d,
        d >= 0,
    ensures
        0 <= d < s.len(),
        s[d] == c,
{
    lemma_first_index_props(s, c, 0);
}

proof fn lemma_first_index_props(s: Seq<char>, c: char, i: int)
    requires
        0 <= i <= s.len(),
    ensures
        first_index_of(s, c, i) == -1 || (i <= first_index_of(s, c, i) < s.len() && s[first_index_of(
            s,
            c,
            i,
        )] == c),
    decreases s.len() - i,
{
    if i < s.len() && s[i] != c {
        lemma_first_index_props(s, c, i + 1);
    }
}


/// The usable-host interval of a network: everything between the network
/// and broadcast addresses, or the full block when nothing would remain.
pub open spec fn spec_lan_range(net: Ipv4Net) -> Ipv4Range {
    if net.spec_network() + 1 <= net.spec_broadcast() - 1 {
        Ipv4Range {
            start_addr: (net.spec_network() + 1) as u32,
            end_addr: (net.spec_broadcast() - 1) as u32,
        }
    } else {
        Ipv4Range { start_addr: net.spec_network() as u32, end_addr: net.spec_broadcast() as u32 }
    }
}

/// The interval a `lan` target spans, and whether the network and
/// broadcast addresses could be stripped.
pub fn lan_usable_range(net: &Ipv4Net) -> (r: (Ipv4Range, bool))
    requires
        net.wf(),
    ensures
        r.0 == spec_lan_range(*net),
        r.0.wf(),
        r.1 == (net.spec_network() + 1 <= net.spec_broadcast() - 1),
{
    let nw = net.network();
    let bc = net.broadcast();
    proof {
        crate::net::lemma_pow2_int_bound((32 - net.prefix) as nat);
    }
    if bc > 0 && (nw as u64) + 1 <= (bc as u64) - 1 {
        (Ipv4Range { start_addr: nw + 1, end_addr: bc - 1 }, true)
    } else {
        (Ipv4Range { start_addr: nw, end_addr: bc }, false)
    }
}

pub open spec fn is_lan_token(t: Seq<char>) -> bool {
    t.map_values(|c: char| lower(c)) == seq!['l', 'a', 'n']
}

pub open spec fn is_vpn_token(t: Seq<char>) -> bool {
    t.map_values(|c: char| lower(c)) == seq!['v', 'p', 'n']
}

fn token_is_lan(t: &str) -> (r: bool)
    ensures
        r == is_lan_token(t@),
{
    let r = eq_ignore_case(t, "lan");
    proof {
        reveal_strlit("lan");
        assert("lan"@.map_values(|c: char| lower(c)) =~= seq!['l', 'a', 'n']) by {
            assert("lan"@.len() == 3);
            assert("lan"@[0] == 'l' && "lan"@[1] == 'a' && "lan"@[2] == 'n');
        }
    }
    r
}

fn token_is_vpn(t: &str) -> (r: bool)
    ensures
        r == is_vpn_token(t@),
{
    let r = eq_ignore_case(t, "vpn");
    proof {
        reveal_strlit("vpn");
        assert("vpn"@.map_values(|c: char| lower(c)) =~= seq!['v', 'p', 'n']) by {
            assert("vpn"@.len() == 3);
            assert("vpn"@[0] == 'v' && "vpn"@[1] == 'p' && "vpn"@[2] == 'n');
        }
    }
    r
}

/// Whether one token can be taken, given the LAN network available for
/// the `lan` keyword.
pub open spec fn spec_token_valid(t: Seq<char>, lan: Option<Ipv4Net>) -> bool {
    if is_lan_token(t) {
        lan is Some
    } else if is_vpn_token(t) {
        false
    } else {
        spec_token_target(t) is Some
    }
}

/// The addresses one token stands for.
pub open spec fn token_covers(t: Seq<char>, lan: Option<Ipv4Net>, x: IpAddress) -> bool {
    if is_lan_token(t) {
        lan is Some && x is V4 && spec_lan_range(lan->0).spec_contains(x->V4_0)
    } else if is_vpn_token(t) {
        false
    } else {
        match spec_token_target(t) {
            Some(Target::Host(ip)) => x == ip,
            Some(Target::Range(r)) => x is V4 && r.spec_contains(x->V4_0),
            None => false,
        }
    }
}

/// The non-empty trimmed pieces of a comma-split, in order.
pub open spec fn clean_tokens(ps: Seq<Seq<char>>) -> Seq<Seq<char>>
    decreases ps.len(),
{
    if ps.len() == 0 {
        Seq::<Seq<char>>::empty()
    } else {
        clean_tokens(ps.drop_last()) + (if trim_spec(ps.last()).len() > 0 {
            seq![trim_spec(ps.last())]
        } else {
            Seq::<Seq<char>>::empty()
        })
    }
}

/// Every target token of the input strings, in order: each input split
/// on commas, each piece trimmed, empty pieces dropped.
pub open spec fn spec_tokens(inputs: Seq<Seq<char>>) -> Seq<Seq<char>>
    decreases inputs.len(),
{
    if inputs.len() == 0 {
        Seq::<Seq<char>>::empty()
    } else {
        spec_tokens(inputs.drop_last()) + clean_tokens(split_spec(inputs.last(), ','))
    }
}

/// Splits, trims and filters the raw inputs into target tokens.
fn tokenize(inputs: &Vec<String>) -> (r: Vec<String>)
    ensures
        r.deep_view() == spec_tokens(inputs.deep_view()),
{
    let ghost idv = inputs.deep_view();
    let mut out: Vec<String> = Vec::new();
    let n = inputs.len();
    let mut i: usize = 0;
    proof {
        assert(idv.subrange(0, 0) =~= Seq::<Seq<char>>::empty());
    }
    while i < n
        invariant
            0 <= i <= n == inputs@.len(),
            idv == inputs.deep_view(),
            out.deep_view() == spec_tokens(idv.subrange(0, i as int)),
        decreases n - i,
    {
        proof {
            assert(idv[i as int] == inputs@[i as int]@);
        }
        let pieces = split_char(inputs[i].as_str(), ',');
        let ghost pdv = pieces.deep_view();
        let m = pieces.len();
        let mut j: usize = 0;
        proof {
            assert(pdv.subrange(0, 0) =~= Seq::<Seq<char>>::empty());
            assert(clean_tokens(pdv.subrange(0, 0)) =~= Seq::<Seq<char>>::empty());
        }
        while j < m
            invariant
                0 <= j <= m == pieces@.len(),
                0 <= i < n == inputs@.len(),
                idv == inputs.deep_view(),
                pdv == pieces.deep_view(),
                pdv == split_spec(idv[i as int], ','),
                out.deep_view() == spec_tokens(idv.subrange(0, i as int)) + clean_tokens(
                    pdv.subrange(0, j as int),
                ),
            decreases m - j,
        {
            proof {
                assert(pdv[j as int] == pieces@[j as int]@);
                assert(pdv.subrange(0, (j + 1) as int).drop_last() =~= pdv.subrange(0, j as int));
                assert(pdv.subrange(0, (j + 1) as int).last() == pdv[j as int]);
            }
            let piece = trim(pieces[j].as_str());
            if piece.unicode_len() > 0 {
                let ghost before = out.deep_view();
                out.push(piece.to_owned());
                proof {
                    assert(out.deep_view() =~= before.push(trim_spec(pdv[j as int])));
                    assert(before.push(trim_spec(pdv[j as int])) =~= before + seq![
                        trim_spec(pdv[j as int]),
                    ]);
                    assert(out.deep_view() =~= spec_tokens(idv.subrange(0, i as int))
                        + clean_tokens(pdv.subrange(0, (j + 1) as int)));
                }
            } else {
                proof {
                    assert(out.deep_view() =~= spec_tokens(idv.subrange(0, i as int))
                        + clean_tokens(pdv.subrange(0, (j + 1) as int)));
                }
            }
            j = j + 1;
        }
        proof {
            assert(pdv.subrange(0, m as int) =~= pdv);
            assert(idv.subrange(0, (i + 1) as int).drop_last() =~= idv.subrange(0, i as int));
            assert(idv.subrange(0, (i + 1) as int).last() == idv[i as int]);
            assert(out.deep_view() =~= spec_tokens(idv.subrange(0, (i + 1) as int)));
        }
        i = i + 1;
    }
    proof {
        assert(idv.subrange(0, n as int) =~= idv);
    }
    out
}

/// Turns the raw target strings into a compacted collection.
///
/// Every token must be a single address, a range, a CIDR block or the
/// `lan` keyword; `lan` needs the usable LAN network handed in, and sets
/// the returned flag. The result holds exactly the addresses the tokens
/// name, with overlapping intervals merged.
#[verifier::rlimit(100)]
pub fn to_collection(inputs: &Vec<String>, lan: Option<Ipv4Net>) -> (r: Result<
    (IpCollection, bool),
    ScanError,
>)
    requires
        lan is Some ==> lan->0.wf(),
    ensures
        r is Ok <==> spec_tokens(inputs.deep_view()).len() > 0 && (forall|k: int|
            0 <= k < spec_tokens(inputs.deep_view()).len() ==> spec_token_valid(
                #[trigger] spec_tokens(inputs.deep_view())[k],
                lan,
            )),
        r is Ok ==> {
            let toks = spec_tokens(inputs.deep_view());
            &&& r->Ok_0.0.wf()
            &&& crate::range::ranges_separated(r->Ok_0.0.ranges@)
            &&& (forall|i: int|
                0 <= i < r->Ok_0.0.singles@.len() ==> (#[trigger] r->Ok_0.0.singles@[i]) is V6)
            &&& (forall|x: IpAddress|
                r->Ok_0.0.spec_contains(x) <==> exists|k: int|
                    0 <= k < toks.len() && token_covers(#[trigger] toks[k], lan, x))
            &&& r->Ok_0.1 == exists|k: int| 0 <= k < toks.len() && is_lan_token(#[trigger] toks[k])
        },
        r is Err ==> r->Err_0 == ScanError::InvalidTarget || r->Err_0
            == ScanError::NoViableInterface,
        r is Err && r->Err_0 == ScanError::NoViableInterface ==> lan is None && exists|k: int|
            0 <= k < spec_tokens(inputs.deep_view()).len() && is_lan_token(
                #[trigger] spec_tokens(inputs.deep_view())[k],
            ),
{
    let tokens = tokenize(inputs);
    let ghost toks = tokens.deep_view();
    let n = tokens.len();
    if n == 0 {
        return Err(ScanError::InvalidTarget);
    }
    let mut c = IpCollection::new();
    let mut lan_flag = false;
    let mut k: usize = 0;
    while k < n
        invariant
            0 <= k <= n == tokens@.len(),
            toks == tokens.deep_view(),
            toks == spec_tokens(inputs.deep_view()),
            lan is Some ==> lan->0.wf(),
            c.wf(),
            forall|j: int| 0 <= j < k ==> spec_token_valid(#[trigger] toks[j], lan),
            lan_flag == exists|j: int| 0 <= j < k && is_lan_token(#[trigger] toks[j]),
            forall|x: IpAddress|
                c.spec_contains(x) <==> exists|j: int|
                    0 <= j < k && token_covers(#[trigger] toks[j], lan, x),
        decreases n - k,
    {
        proof {
            assert(toks[k as int] == tokens@[k as int]@);
        }
        let t = tokens[k].as_str();
        let ghost cov_before = c;
        if token_is_lan(t) {
            match lan {
                Some(net) => {
                    let (rg, _stripped) = lan_usable_range(&net);
                    c.add_range(rg);
                    lan_flag = true;
                    proof {
                        lemma_token_step(toks, k as int, lan, cov_before, c);
                    }
                },
                None => {
                    return Err(ScanError::NoViableInterface);
                },
            }
        } else if token_is_vpn(t) {
            return Err(ScanError::InvalidTarget);
        } else {
            match parse_as_target(t) {
                Some(Target::Host(ip)) => {
                    c.add_single(ip);
                    proof {
                        lemma_token_step(toks, k as int, lan, cov_before, c);
                    }
                },
                Some(Target::Range(rg)) => {
                    proof {
                        lemma_token_range_wf(toks[k as int]);
                    }
                    c.add_range(rg);
                    proof {
                        lemma_token_step(toks, k as int, lan, cov_before, c);
                    }
                },
                None => {
                    return Err(ScanError::InvalidTarget);
                },
            }
        }
        k = k + 1;
    }
    c.compact();
    Ok((c, lan_flag))
}

/// A range produced by the token grammar is well-formed.
proof fn lemma_token_range_wf(t: Seq<char>)
    requires
        spec_token_target(t) is Some,
        spec_token_target(t)->0 is Range,
    ensures
        spec_token_target(t)->0->Range_0.wf(),
{
    let d = first_index_of(t, '-', 0);
    let sl = first_index_of(t, '/', 0);
    if spec_parse_ip(t) is Some {
    } else if d >= 0 {
    } else if sl >= 0 {
        lemma_first_index_props(t, '/', 0);
        let a = spec_parse_ipv4(t.subrange(0, sl));
        let p = t.subrange(sl + 1, t.len() as int);
        if a is Some && is_prefix_text(p) {
            crate::text::lemma_dec_val_nonneg(p);
            crate::net::lemma_pow2_int_bound((32 - dec_val(p)) as nat);
            let net = (Ipv4Net { ip: a->0, prefix: dec_val(p) as u8 });
            crate::net::lemma_v4_broadcast_bound(
                net.ip,
                crate::net::v4_block_size(net.prefix),
                net.prefix,
            );
        }
    }
}

/// One token folded into the collection keeps the membership invariant.
proof fn lemma_token_step(
    toks: Seq<Seq<char>>,
    k: int,
    lan: Option<Ipv4Net>,
    before: IpCollection,
    after: IpCollection,
)
    requires
        0 <= k < toks.len(),
        forall|x: IpAddress|
            before.spec_contains(x) <==> exists|j: int|
                0 <= j < k && token_covers(#[trigger] toks[j], lan, x),
        forall|x: IpAddress|
            after.spec_contains(x) <==> before.spec_contains(x) || token_covers(toks[k], lan, x),
    ensures
        forall|x: IpAddress|
            after.spec_contains(x) <==> exists|j: int|
                0 <= j < k + 1 && token_covers(#[trigger] toks[j], lan, x),
{
    assert forall|x: IpAddress| after.spec_contains(x) <==> exists|j: int|
        0 <= j < k + 1 && token_covers(#[trigger] toks[j], lan, x) by {
        if after.spec_contains(x) {
            if before.spec_contains(x) {
                let j = choose|j: int| 0 <= j < k && token_covers(#[trigger] toks[j], lan, x);
                assert(token_covers(toks[j], lan, x));
            } else {
                assert(token_covers(toks[k], lan, x));
            }
        }
        if exists|j: int| 0 <= j < k + 1 && token_covers(#[trigger] toks[j], lan, x) {
            let j = choose|j: int| 0 <= j < k + 1 && token_covers(#[trigger] toks[j], lan, x);
            if j < k {
                assert(before.spec_contains(x));
            }
        }
    }
}

/// The canonical short text of a range: both bounds as dotted quads
/// around a dash.
pub open spec fn range_short_text(r: Ipv4Range) -> Seq<char> {
    crate::iptext::ipv4_text(r.start_addr) + seq!['-'] + crate::iptext::ipv4_text(r.end_addr)
}

/// Formats a range as its short text.
pub fn range_to_string(r: &Ipv4Range) -> (s: String)
    ensures
        s@ == range_short_text(*r),
{
    let mut s = String::new();
    crate::iptext::push_ipv4_text(&mut s, r.start_addr);
    push_char(&mut s, '-');
    crate::iptext::push_ipv4_text(&mut s, r.end_addr);
    proof {
        assert(s@ =~= range_short_text(*r));
    }
    s
}

/// Printing a well-formed range and parsing the text back yields the
/// same range: the token grammar inverts the short form.
#[verifier::rlimit(100)]
pub proof fn lemma_range_text_round_trip(r: Ipv4Range)
    requires
        r.wf(),
    ensures
        spec_token_target(range_short_text(r)) == Some(Target::Range(r)),
{
    let a = crate::iptext::ipv4_text(r.start_addr);
    let b = crate::iptext::ipv4_text(r.end_addr);
    let t = range_short_text(r);
    lemma_ipv4_text_chars(r.start_addr);
    lemma_ipv4_text_chars(r.end_addr);
    // no colon anywhere: not IPv6 text
    assert(forall|i: int| 0 <= i < t.len() ==> #[trigger] t[i] != ':') by {
        assert(forall|i: int|
            0 <= i < t.len() ==> #[trigger] t[i] == (if i < a.len() {
                a[i]
            } else if i == a.len() {
                '-'
            } else {
                b[i - a.len() - 1]
            }));
    }
    // the dash splits the text into the two quad texts
    assert(forall|i: int| 0 <= i < a.len() ==> #[trigger] t[i] != '-');
    assert(t[a.len() as int] == '-');
    lemma_first_index_at(t, '-', a.len() as int);
    assert(t.subrange(0, a.len() as int) =~= a);
    assert(t.subrange(a.len() as int + 1, t.len() as int) =~= b);
    crate::iptext::lemma_parse_ipv4_text(r.start_addr);
    crate::iptext::lemma_parse_ipv4_text(r.end_addr);
    // the whole text is not a single address: it splits on dots into
    // seven pieces
    assert(spec_parse_ipv4(t) is None) by {
        lemma_range_text_dot_pieces(r);
    }
    assert(spec_parse_ip(t) is None) by {
        if exists|i: int| 0 <= i < t.len() && t[i] == ':' {
            let w = choose|i: int| 0 <= i < t.len() && t[i] == ':';
            assert(t[w] != ':');
        }
    }
    assert(spec_parse_range_end(b, r.start_addr) == Some(r.end_addr));
}

/// The characters of dotted-quad text: digits and dots only.
proof fn lemma_ipv4_text_chars(v: u32)
    ensures
        forall|i: int|
            0 <= i < crate::iptext::ipv4_text(v).len() ==> crate::text::is_digit(
                #[trigger] crate::iptext::ipv4_text(v)[i],
            ) || crate::iptext::ipv4_text(v)[i] == '.',
        crate::iptext::ipv4_text(v).len() >= 7,
{
    crate::text::lemma_dec_rep_val(v4_octet0(v) as nat);
    crate::text::lemma_dec_rep_val(v4_octet1(v) as nat);
    crate::text::lemma_dec_rep_val(v4_octet2(v) as nat);
    crate::text::lemma_dec_rep_val(v4_octet3(v) as nat);
    let s = crate::iptext::ipv4_text(v);
    let d0 = crate::text::dec_rep(v4_octet0(v) as nat);
    let d1 = crate::text::dec_rep(v4_octet1(v) as nat);
    let d2 = crate::text::dec_rep(v4_octet2(v) as nat);
    let d3 = crate::text::dec_rep(v4_octet3(v) as nat);
    assert forall|i: int| 0 <= i < s.len() implies crate::text::is_digit(#[trigger] s[i]) || s[i]
        == '.' by {
        if i < d0.len() {
            assert(s[i] == d0[i]);
        } else if i == d0.len() {
        } else if i < d0.len() + 1 + d1.len() {
            assert(s[i] == d1[i - d0.len() - 1]);
        } else if i == d0.len() + 1 + d1.len() {
        } else if i < d0.len() + 1 + d1.len() + 1 + d2.len() {
            assert(s[i] == d2[i - d0.len() - 1 - d1.len() - 1]);
        } else if i == d0.len() + 1 + d1.len() + 1 + d2.len() {
        } else {
            assert(s[i] == d3[i - d0.len() - 1 - d1.len() - 1 - d2.len() - 1]);
        }
    }
}

/// The short range text splits on dots into seven pieces, so it is not
/// an address by itself.
#[verifier::rlimit(100)]
proof fn lemma_range_text_dot_pieces(r: Ipv4Range)
    ensures
        split_spec(range_short_text(r), '.').len() == 7,
{
    let t = range_short_text(r);
    let s3 = crate::text::dec_rep(v4_octet3(r.start_addr) as nat);
    let e0 = crate::text::dec_rep(v4_octet0(r.end_addr) as nat);
    let e1 = crate::text::dec_rep(v4_octet1(r.end_addr) as nat);
    let e2 = crate::text::dec_rep(v4_octet2(r.end_addr) as nat);
    let e3 = crate::text::dec_rep(v4_octet3(r.end_addr) as nat);
    let mid = s3 + seq!['-'] + e0;
    let rest3 = mid + seq!['.'] + e1 + seq!['.'] + e2 + seq!['.'] + e3;
    lemma_range_text_head(r);
    lemma_range_text_tail(r);
}

/// Peeling the three leading octets of the start address.
#[verifier::rlimit(100)]
proof fn lemma_range_text_head(r: Ipv4Range)
    ensures
        ({
            let s3 = crate::text::dec_rep(v4_octet3(r.start_addr) as nat);
            let e0 = crate::text::dec_rep(v4_octet0(r.end_addr) as nat);
            let e1 = crate::text::dec_rep(v4_octet1(r.end_addr) as nat);
            let e2 = crate::text::dec_rep(v4_octet2(r.end_addr) as nat);
            let e3 = crate::text::dec_rep(v4_octet3(r.end_addr) as nat);
            let mid = s3 + seq!['-'] + e0;
            let rest3 = mid + seq!['.'] + e1 + seq!['.'] + e2 + seq!['.'] + e3;
            split_spec(range_short_text(r), '.').len() == 3 + split_spec(rest3, '.').len()
        }),
{
    let t = range_short_text(r);
    let s0 = crate::text::dec_rep(v4_octet0(r.start_addr) as nat);
    let s1 = crate::text::dec_rep(v4_octet1(r.start_addr) as nat);
    let s2 = crate::text::dec_rep(v4_octet2(r.start_addr) as nat);
    let s3 = crate::text::dec_rep(v4_octet3(r.start_addr) as nat);
    let e0 = crate::text::dec_rep(v4_octet0(r.end_addr) as nat);
    let e1 = crate::text::dec_rep(v4_octet1(r.end_addr) as nat);
    let e2 = crate::text::dec_rep(v4_octet2(r.end_addr) as nat);
    let e3 = crate::text::dec_rep(v4_octet3(r.end_addr) as nat);
    crate::iptext::lemma_dec_rep_no_dot(v4_octet0(r.start_addr) as nat);
    crate::iptext::lemma_dec_rep_no_dot(v4_octet1(r.start_addr) as nat);
    crate::iptext::lemma_dec_rep_no_dot(v4_octet2(r.start_addr) as nat);
    let mid = s3 + seq!['-'] + e0;
    let rest1 = s1 + seq!['.'] + s2 + seq!['.'] + mid + seq!['.'] + e1 + seq!['.'] + e2 + seq![
        '.',
    ] + e3;
    assert(t =~= s0 + seq!['.'] + rest1);
    crate::iptext::lemma_split_no_sep_concat(s0, rest1, t, '.');
    let rest2 = s2 + seq!['.'] + mid + seq!['.'] + e1 + seq!['.'] + e2 + seq!['.'] + e3;
    assert(rest1 =~= s1 + seq!['.'] + rest2);
    crate::iptext::lemma_split_no_sep_concat(s1, rest2, rest1, '.');
    let rest3 = mid + seq!['.'] + e1 + seq!['.'] + e2 + seq!['.'] + e3;
    assert(rest2 =~= s2 + seq!['.'] + rest3);
    crate::iptext::lemma_split_no_sep_concat(s2, rest3, rest2, '.');
}

/// Peeling the dash chunk and the trailing octets of the end address.
#[verifier::rlimit(100)]
proof fn lemma_range_text_tail(r: Ipv4Range)
    ensures
        ({
            let s3 = crate::text::dec_rep(v4_octet3(r.start_addr) as nat);
            let e0 = crate::text::dec_rep(v4_octet0(r.end_addr) as nat);
            let e1 = crate::text::dec_rep(v4_octet1(r.end_addr) as nat);
            let e2 = crate::text::dec_rep(v4_octet2(r.end_addr) as nat);
            let e3 = crate::text::dec_rep(v4_octet3(r.end_addr) as nat);
            let mid = s3 + seq!['-'] + e0;
            let rest3 = mid + seq!['.'] + e1 + seq!['.'] + e2 + seq!['.'] + e3;
            split_spec(rest3, '.').len() == 4
        }),
{
    let s3 = crate::text::dec_rep(v4_octet3(r.start_addr) as nat);
    let e0 = crate::text::dec_rep(v4_octet0(r.end_addr) as nat);
    let e1 = crate::text::dec_rep(v4_octet1(r.end_addr) as nat);
    let e2 = crate::text::dec_rep(v4_octet2(r.end_addr) as nat);
    let e3 = crate::text::dec_rep(v4_octet3(r.end_addr) as nat);
    crate::iptext::lemma_dec_rep_no_dot(v4_octet3(r.start_addr) as nat);
    crate::iptext::lemma_dec_rep_no_dot(v4_octet0(r.end_addr) as nat);
    crate::iptext::lemma_dec_rep_no_dot(v4_octet1(r.end_addr) as nat);
    crate::iptext::lemma_dec_rep_no_dot(v4_octet2(r.end_addr) as nat);
    crate::iptext::lemma_dec_rep_no_dot(v4_octet3(r.end_addr) as nat);
    crate::text::lemma_dec_rep_val(v4_octet3(r.start_addr) as nat);
    crate::text::lemma_dec_rep_val(v4_octet0(r.end_addr) as nat);
    let mid = s3 + seq!['-'] + e0;
    assert(forall|i: int| 0 <= i < mid.len() ==> #[trigger] mid[i] != '.') by {
        assert('-' as int == 45 && '.' as int == 46 && '0' as int == 48);
        assert(forall|i: int|
            0 <= i < mid.len() ==> #[trigger] mid[i] == (if i < s3.len() {
                s3[i]
            } else if i == s3.len() {
                '-'
            } else {
                e0[i - s3.len() - 1]
            }));
    }
    let rest3 = mid + seq!['.'] + e1 + seq!['.'] + e2 + seq!['.'] + e3;
    let rest4 = e1 + seq!['.'] + e2 + seq!['.'] + e3;
    assert(rest3 =~= mid + seq!['.'] + rest4);
    crate::iptext::lemma_split_no_sep_concat(mid, rest4, rest3, '.');
    let rest5 = e2 + seq!['.'] + e3;
    assert(rest4 =~= e1 + seq!['.'] + rest5);
    crate::iptext::lemma_split_no_sep_concat(e1, rest5, rest4, '.');
    crate::iptext::lemma_split_no_sep_concat(e2, e3, rest5, '.');
    crate::iptext::lemma_split_no_sep_whole(e3, '.');
}

} // verus!
