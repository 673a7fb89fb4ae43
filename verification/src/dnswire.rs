use vstd::prelude::*;

use crate::error::ScanError;
use crate::net::IpAddress;
use crate::frames::{be_bytes, be_val, lemma_be_bytes_len, push_be};
use crate::text::{split_spec, split_char};

verus! {

/// ASCII characters map to single bytes, by code point.
pub open spec fn chars_bytes(s: Seq<char>) -> Seq<u8> {
    s.map_values(|c: char| ((c as u32) as u8))
}

pub open spec fn bytes_chars(s: Seq<u8>) -> Seq<char> {
    s.map_values(|b: u8| (((b as u32)) as char))
}

/// A byte read back as its own code point.
fn byte_char(b: u8) -> (c: char)
    ensures
        c == (((b as u32)) as char),
{
    b as char
}

/// A label fit for the wire: one to sixty-three ASCII characters.
pub open spec fn is_label(s: Seq<char>) -> bool {
    &&& 1 <= s.len() <= 63
    &&& forall|i: int| 0 <= i < s.len() ==> ((#[trigger] s[i]) as u32) < 128
}

/// A name fit for the wire: every dot-separated label is one.
pub open spec fn valid_name(name: Seq<char>) -> bool {
    &&& name.len() <= 200
    &&& forall|k: int|
        0 <= k < split_spec(name, '.').len() ==> is_label(#[trigger] split_spec(name, '.')[k])
}

/// The wire form of a label list: each label length-prefixed, a zero
/// byte at the end.
pub open spec fn encode_labels(ls: Seq<Seq<char>>) -> Seq<u8>
    decreases ls.len(),
{
    if ls.len() == 0 {
        seq![0u8]
    } else {
        seq![ls[0].len() as u8] + chars_bytes(ls[0]) + encode_labels(ls.drop_first())
    }
}

/// The wire form of a dotted name.
pub open spec fn encode_qname(name: Seq<char>) -> Seq<u8> {
    encode_labels(split_spec(name, '.'))
}

/// Appends the wire form of the name; refuses one with an unfit label.
pub fn push_qname(out: &mut Vec<u8>, name: &str) -> (ok: bool)
    ensures
        ok <==> valid_name(name@),
        ok ==> final(out)@ == old(out)@ + encode_qname(name@),
        !ok ==> final(out)@ == old(out)@,
{
    let len = name.unicode_len();
    if len > 200 {
        return false;
    }
    let labels = split_char(name, '.');
    let ghost ls = labels.deep_view();
    let n = labels.len();
    // check every label before touching the output
    let mut i: usize = 0;
    while i < n
        invariant
            0 <= i <= n == labels@.len(),
            ls == labels.deep_view(),
            ls == split_spec(name@, '.'),
            forall|k: int| 0 <= k < i ==> is_label(#[trigger] ls[k]),
        decreases n - i,
    {
        proof {
            assert(ls[i as int] == labels@[i as int]@);
        }
        let lab = labels[i].as_str();
        let ll = lab.unicode_len();
        if ll < 1 || ll > 63 {
            proof {
                let ps = split_spec(name@, '.');
                assert(!is_label(ps[i as int]));
            }
            return false;
        }
        let mut j: usize = 0;
        while j < ll
            invariant
                0 <= j <= ll == ls[i as int].len(),
                0 <= i < n == labels@.len(),
                ls == labels.deep_view(),
                ls == split_spec(name@, '.'),
                ls[i as int] == labels@[i as int]@,
                lab@ == ls[i as int],
                forall|k: int| 0 <= k < j ==> ((#[trigger] ls[i as int][k]) as u32) < 128,
            decreases ll - j,
        {
            let c = lab.get_char(j);
            if (c as u32) >= 128 {
                proof {
                    let ps = split_spec(name@, '.');
                    assert(ps[i as int][j as int] == c);
                    assert(!is_label(ps[i as int]));
                }
                return false;
            }
            j = j + 1;
        }
        i = i + 1;
    }
    // write the labels
    let ghost base = out@;
    let mut i2: usize = 0;
    proof {
        assert(ls.subrange(0, n as int) =~= ls);
    }
    while i2 < n
        invariant
            0 <= i2 <= n == labels@.len(),
            ls == labels.deep_view(),
            ls == split_spec(name@, '.'),
            forall|k: int| 0 <= k < n ==> is_label(#[trigger] ls[k]),
            out@ + encode_labels(ls.subrange(i2 as int, n as int)) == base + encode_labels(ls),
        decreases n - i2,
    {
        proof {
            assert(ls[i2 as int] == labels@[i2 as int]@);
        }
        let ghost pre = out@;
        let lab = labels[i2].as_str();
        let ll = lab.unicode_len();
        out.push(ll as u8);
        let mut j: usize = 0;
        proof {
            assert(chars_bytes(ls[i2 as int]).subrange(0, 0) =~= Seq::<u8>::empty());
            assert(out@ =~= pre + seq![ls[i2 as int].len() as u8] + chars_bytes(
                ls[i2 as int],
            ).subrange(0, 0));
        }
        while j < ll
            invariant
                0 <= j <= ll == ls[i2 as int].len(),
                0 <= i2 < n == labels@.len(),
                ls[i2 as int] == labels@[i2 as int]@,
                lab@ == ls[i2 as int],
                is_label(ls[i2 as int]),
                out@ == pre + seq![ls[i2 as int].len() as u8] + chars_bytes(
                    ls[i2 as int],
                ).subrange(0, j as int),
            decreases ll - j,
        {
            let c = lab.get_char(j);
            proof {
                assert(ls[i2 as int][j as int] == c);
                assert((c as u32) < 128);
            }
            out.push(((c as u32)) as u8);
            proof {
                assert(chars_bytes(ls[i2 as int])[j as int] == ((c as u32)) as u8);
                assert(chars_bytes(ls[i2 as int]).subrange(0, (j + 1) as int) =~= chars_bytes(
                    ls[i2 as int],
                ).subrange(0, j as int).push(((c as u32)) as u8));
                assert(out@ =~= pre + seq![ls[i2 as int].len() as u8] + chars_bytes(
                    ls[i2 as int],
                ).subrange(0, (j + 1) as int));
            }
            j = j + 1;
        }
        proof {
            let rest = ls.subrange(i2 as int, n as int);
            assert(rest[0] == ls[i2 as int]);
            assert(rest.drop_first() =~= ls.subrange((i2 + 1) as int, n as int));
            assert(encode_labels(rest) == seq![ls[i2 as int].len() as u8] + chars_bytes(
                ls[i2 as int],
            ) + encode_labels(ls.subrange((i2 + 1) as int, n as int)));
            assert(chars_bytes(ls[i2 as int]).subrange(
                0,
                ls[i2 as int].len() as int,
            ) =~= chars_bytes(ls[i2 as int]));
            assert(out@ + encode_labels(ls.subrange((i2 + 1) as int, n as int)) =~= base
                + encode_labels(ls));
        }
        i2 = i2 + 1;
    }
    out.push(0);
    proof {
        assert(ls.subrange(n as int, n as int) =~= Seq::<Seq<char>>::empty());
        assert(encode_labels(Seq::<Seq<char>>::empty()) == seq![0u8]);
        assert(out@ =~= base + encode_labels(ls));
    }
    true
}


/// Joining pieces with a separator.
pub open spec fn join_spec(ls: Seq<Seq<char>>, sep: char) -> Seq<char>
    decreases ls.len(),
{
    if ls.len() == 0 {
        Seq::<char>::empty()
    } else if ls.len() == 1 {
        ls[0]
    } else {
        ls[0] + seq![sep] + join_spec(ls.drop_first(), sep)
    }
}

/// Joining what splitting gave back is the identity.
#[verifier::rlimit(100)]
pub proof fn lemma_join_split(s: Seq<char>, sep: char)
    ensures
        join_spec(split_spec(s, sep), sep) == s,
    decreases s.len(),
{
    reveal(split_spec);
    if exists|i: int| 0 <= i < s.len() && s[i] == sep {
        let w = choose|i: int| 0 <= i < s.len() && s[i] == sep;
        crate::text::lemma_split_first_from(s, sep, w);
        let i = choose|i: int|
            0 <= i < s.len() && s[i] == sep && (forall|k: int| 0 <= k < i ==> s[k] != sep);
        let rest = s.subrange(i + 1, s.len() as int);
        lemma_join_split(rest, sep);
        let ps = split_spec(s, sep);
        assert(ps == seq![s.subrange(0, i)] + split_spec(rest, sep));
        assert(ps.len() >= 2) by {
            assert(split_spec(rest, sep).len() >= 1) by {
                lemma_split_spec_nonempty(rest, sep);
            }
        }
        assert(ps[0] == s.subrange(0, i));
        assert(ps.drop_first() =~= split_spec(rest, sep));
        assert(s.subrange(0, i) + seq![sep] + rest =~= s);
    }
}

proof fn lemma_split_spec_nonempty(s: Seq<char>, sep: char)
    ensures
        split_spec(s, sep).len() >= 1,
{
    reveal(split_spec);
}

/// A parsed name and where it ended.
pub open spec fn spec_parse_name(b: Seq<u8>, pos: int, fuel: nat) -> Option<(Seq<char>, int)>
    decreases fuel,
{
    if fuel == 0 {
        None
    } else if !(0 <= pos < b.len()) {
        None
    } else {
        let l = b[pos] as int;
        if l == 0 {
            Some((Seq::<char>::empty(), pos + 1))
        } else if l < 64 {
            if pos + 1 + l <= b.len() {
                match spec_parse_name(b, pos + 1 + l, (fuel - 1) as nat) {
                    Some((rest, next)) => {
                        let label = bytes_chars(b.subrange(pos + 1, pos + 1 + l));
                        if rest.len() == 0 {
                            Some((label, next))
                        } else {
                            Some((label + seq!['.'] + rest, next))
                        }
                    },
                    None => None,
                }
            } else {
                None
            }
        } else if l >= 192 {
            if pos + 1 < b.len() {
                let target = (l - 192) * 256 + b[pos + 1];
                match spec_parse_name(b, target, (fuel - 1) as nat) {
                    Some((n, _)) => Some((n, pos + 2)),
                    None => None,
                }
            } else {
                None
            }
        } else {
            None
        }
    }
}

/// How many labels plus jumps a parse may follow before giving up.
pub const NAME_FUEL: u32 = 255;

/// Parses a (possibly compressed) name starting at `pos`.
pub fn parse_name_at(b: &Vec<u8>, pos: usize, fuel: u32) -> (r: Option<(String, usize)>)
    ensures
        r is Some <==> spec_parse_name(b@, pos as int, fuel as nat) is Some,
        r is Some ==> {
            &&& (r->0).0@ == (spec_parse_name(b@, pos as int, fuel as nat)->0).0
            &&& ((r->0).1 as int) == (spec_parse_name(b@, pos as int, fuel as nat)->0).1
            &&& pos <= (r->0).1 <= b@.len()
        },
    decreases fuel,
{
    if fuel == 0 {
        return None;
    }
    if pos >= b.len() {
        return None;
    }
    let l = b[pos];
    let blen = b.len();
    if l == 0 {
        Some((String::new(), pos + 1))
    } else if l < 64 {
        if (l as usize) < blen - pos {
            match parse_name_at(b, pos + 1 + (l as usize), fuel - 1) {
                Some((rest, next)) => {
                    let mut label = String::new();
                    let mut k: usize = 0;
                    while k < (l as usize)
                        invariant
                            0 <= k <= l as usize,
                            pos + 1 + (l as usize) <= blen == b@.len(),
                            label@ =~= bytes_chars(
                                b@.subrange(pos + 1, pos + 1 + k as int),
                            ),
                        decreases l as usize - k,
                    {
                        let byte = b[pos + 1 + k];
                        let bc = byte_char(byte);
                        crate::text::push_char(&mut label, bc);
                        proof {
                            assert(bytes_chars(b@.subrange(pos + 1, pos + 1 + (k + 1) as int))
                                =~= bytes_chars(b@.subrange(pos + 1, pos + 1 + k as int)).push(
                                bc,
                            ));
                        }
                        k = k + 1;
                    }
                    if rest.as_str().unicode_len() == 0 {
                        proof {
                            assert(label@ =~= bytes_chars(
                                b@.subrange(pos + 1, pos + 1 + l as int),
                            ));
                        }
                        Some((label, next))
                    } else {
                        let mut full = label;
                        crate::text::push_char(&mut full, '.');
                        full.append(rest.as_str());
                        proof {
                            assert(full@ =~= bytes_chars(
                                b@.subrange(pos + 1, pos + 1 + l as int),
                            ) + seq!['.'] + rest@);
                        }
                        Some((full, next))
                    }
                },
                None => None,
            }
        } else {
            None
        }
    } else if l >= 192 {
        if pos + 1 < b.len() {
            let target: usize = ((l - 192) as usize) * 256 + (b[pos + 1] as usize);
            match parse_name_at(b, target, fuel - 1) {
                Some((n, _)) => Some((n, pos + 2)),
                None => None,
            }
        } else {
            None
        }
    } else {
        None
    }
}

/// Reading an encoded label list back: the labels return, joined with
/// dots, and the cursor lands just past the terminator.
proof fn lemma_parse_encoded_labels(b: Seq<u8>, pos: int, ls: Seq<Seq<char>>, fuel: nat)
    requires
        forall|k: int| 0 <= k < ls.len() ==> is_label(#[trigger] ls[k]),
        0 <= pos,
        pos + encode_labels(ls).len() <= b.len(),
        b.subrange(pos, pos + encode_labels(ls).len() as int) == encode_labels(ls),
        fuel > ls.len(),
    ensures
        spec_parse_name(b, pos, fuel) == Some(
            (join_spec(ls, '.'), pos + encode_labels(ls).len()),
        ),
    decreases ls.len(),
{
    let enc = encode_labels(ls);
    assert(forall|k: int| 0 <= k < enc.len() ==> b[pos + k] == #[trigger] enc[k]) by {
        assert(forall|k: int|
            0 <= k < enc.len() ==> b.subrange(pos, pos + enc.len() as int)[k]
                == #[trigger] enc[k]);
    }
    if ls.len() == 0 {
        assert(enc == seq![0u8]);
        assert(b[pos] == enc[0]);
    } else {
        let l0 = ls[0];
        let rest_ls = ls.drop_first();
        let rest_enc = encode_labels(rest_ls);
        assert(enc == seq![l0.len() as u8] + chars_bytes(l0) + rest_enc);
        assert(enc[0] == l0.len() as u8);
        assert(b[pos] == enc[0]);
        assert(1 <= l0.len() <= 63);
        let l = l0.len() as int;
        assert(forall|k: int| 0 <= k < rest_ls.len() ==> is_label(#[trigger] rest_ls[k])) by {
            assert(forall|k: int| 0 <= k < rest_ls.len() ==> rest_ls[k] == #[trigger] ls[k + 1]);
        }
        assert(b.subrange(pos + 1 + l, pos + 1 + l + rest_enc.len() as int) =~= rest_enc) by {
            assert(forall|k: int|
                0 <= k < rest_enc.len() ==> enc[1 + l + k] == #[trigger] rest_enc[k]);
        }
        lemma_parse_encoded_labels(b, pos + 1 + l, rest_ls, (fuel - 1) as nat);
        assert(b.subrange(pos + 1, pos + 1 + l) =~= chars_bytes(l0)) by {
            assert(forall|k: int| 0 <= k < l ==> enc[1 + k] == #[trigger] chars_bytes(l0)[k]);
        }
        assert(bytes_chars(chars_bytes(l0)) =~= l0) by {
            lemma_ascii_byte_char_round(l0);
            assert(forall|k: int|
                0 <= k < l0.len() ==> #[trigger] chars_bytes(l0)[k] == ((l0[k] as u32)) as u8);
            assert(forall|k: int|
                0 <= k < l0.len() ==> #[trigger] bytes_chars(chars_bytes(l0))[k] == (((
                chars_bytes(l0)[k] as u32)) as char));
        }
        if rest_ls.len() == 0 {
            assert(join_spec(ls, '.') == ls[0]);
            assert(join_spec(rest_ls, '.').len() == 0);
        } else {
            assert(join_spec(ls, '.') == ls[0] + seq!['.'] + join_spec(rest_ls, '.'));
            assert(join_spec(rest_ls, '.').len() >= 1) by {
                lemma_join_len(rest_ls);
            }
        }
    }
}

/// ASCII characters survive the byte cast both ways.
proof fn lemma_ascii_byte_char_round(s: Seq<char>)
    requires
        forall|i: int| 0 <= i < s.len() ==> ((#[trigger] s[i]) as u32) < 128,
    ensures
        forall|i: int|
            0 <= i < s.len() ==> ((((((#[trigger] s[i]) as u32) as u8) as u32)) as char) == s[i],
{
    assert forall|i: int| 0 <= i < s.len() implies ((((((#[trigger] s[i]) as u32) as u8)
        as u32)) as char) == s[i] by {
        assert((s[i] as u32) < 128);
        assert((((s[i] as u32) as u8) as u32) == s[i] as u32);
        vstd::utf8::char_u32_cast(s[i], s[i] as u32);
    }
}

proof fn lemma_join_len(ls: Seq<Seq<char>>)
    requires
        ls.len() >= 1,
        forall|k: int| 0 <= k < ls.len() ==> is_label(#[trigger] ls[k]),
    ensures
        join_spec(ls, '.').len() >= 1,
    decreases ls.len(),
{
    if ls.len() > 1 {
        assert(is_label(ls[0]));
    } else {
        assert(is_label(ls[0]));
    }
}

/// An encoded name read back whole: building the wire form of a valid
/// name and parsing it recovers the name.
pub proof fn lemma_qname_round_trip(name: Seq<char>, b: Seq<u8>, pos: int)
    requires
        valid_name(name),
        0 <= pos,
        pos + encode_qname(name).len() <= b.len(),
        b.subrange(pos, pos + encode_qname(name).len() as int) == encode_qname(name),
    ensures
        spec_parse_name(b, pos, NAME_FUEL as nat) == Some(
            (name, pos + encode_qname(name).len()),
        ),
{
    let ls = split_spec(name, '.');
    lemma_split_len_bound(name, '.');
    lemma_parse_encoded_labels(b, pos, ls, NAME_FUEL as nat);
    lemma_join_split(name, '.');
}

/// A split has at most one piece per character plus one.
#[verifier::rlimit(100)]
pub proof fn lemma_split_len_bound(s: Seq<char>, sep: char)
    ensures
        split_spec(s, sep).len() <= s.len() + 1,
    decreases s.len(),
{
    reveal(split_spec);
    if exists|i: int| 0 <= i < s.len() && s[i] == sep {
        let w = choose|i: int| 0 <= i < s.len() && s[i] == sep;
        crate::text::lemma_split_first_from(s, sep, w);
        let i = choose|i: int|
            0 <= i < s.len() && s[i] == sep && (forall|k: int| 0 <= k < i ==> s[k] != sep);
        lemma_split_len_bound(s.subrange(i + 1, s.len() as int), sep);
    }
}

/// The bytes of a PTR query: the transaction id, recursion desired, one
/// question, the reverse name, type PTR, class IN.
pub open spec fn ptr_query_bytes(id: u16, name: Seq<char>) -> Seq<u8> {
    be_bytes(id as int, 2) + seq![1u8, 0u8, 0u8, 1u8, 0u8, 0u8, 0u8, 0u8, 0u8, 0u8] + encode_qname(
        name,
    ) + seq![0u8, 12u8, 0u8, 1u8]
}

/// Builds the DNS PTR query for a reverse name.
pub fn build_ptr_query(id: u16, name: &str) -> (r: Option<Vec<u8>>)
    ensures
        r is Some <==> valid_name(name@),
        r is Some ==> r->0@ == ptr_query_bytes(id, name@),
{
    let mut out: Vec<u8> = Vec::new();
    push_be(&mut out, id as u128, 2);
    out.push(1);
    out.push(0);
    out.push(0);
    out.push(1);
    out.push(0);
    out.push(0);
    out.push(0);
    out.push(0);
    out.push(0);
    out.push(0);
    let ok = push_qname(&mut out, name);
    if !ok {
        return None;
    }
    out.push(0);
    out.push(12);
    out.push(0);
    out.push(1);
    proof {
        lemma_be_bytes_len(id as int, 2);
        assert(out@ =~= ptr_query_bytes(id, name@));
    }
    Some(out)
}


/// A decimal octet text is a fit label: short, digits only.
#[verifier::rlimit(60)]
proof fn lemma_dec_rep_is_label(n: nat)
    requires
        n < 1000,
    ensures
        is_label(crate::text::dec_rep(n)),
        crate::text::dec_rep(n).len() <= 3,
        forall|i: int|
            0 <= i < crate::text::dec_rep(n).len() ==> #[trigger] crate::text::dec_rep(n)[i]
                != '.',
{
    crate::text::lemma_dec_rep_val(n);
    crate::text::lemma_dec_rep_shape(n);
    crate::iptext::lemma_dec_rep_no_dot(n);
    assert forall|i: int| 0 <= i < crate::text::dec_rep(n).len() implies ((
    #[trigger] crate::text::dec_rep(n)[i]) as u32) < 128 by {
        assert(crate::text::is_digit(crate::text::dec_rep(n)[i]));
        assert('0' as int == 48 && '9' as int == 57);
    }
}

/// The reverse name of an IPv4 address is fit for the wire: six labels,
/// all ASCII.
#[verifier::rlimit(100)]
#[verifier::spinoff_prover]
pub proof fn lemma_v4_ptr_name_valid(v: u32)
    ensures
        valid_name(crate::iptext::ptr_name_text(IpAddress::V4(v))),
{
    let name = crate::iptext::ptr_name_text(IpAddress::V4(v));
    let d3 = crate::text::dec_rep(crate::net::v4_octet3(v) as nat);
    let d2 = crate::text::dec_rep(crate::net::v4_octet2(v) as nat);
    let d1 = crate::text::dec_rep(crate::net::v4_octet1(v) as nat);
    let d0 = crate::text::dec_rep(crate::net::v4_octet0(v) as nat);
    lemma_dec_rep_is_label(crate::net::v4_octet3(v) as nat);
    lemma_dec_rep_is_label(crate::net::v4_octet2(v) as nat);
    lemma_dec_rep_is_label(crate::net::v4_octet1(v) as nat);
    lemma_dec_rep_is_label(crate::net::v4_octet0(v) as nat);
    let in_addr = seq!['i', 'n', '-', 'a', 'd', 'd', 'r'];
    let arpa = seq!['a', 'r', 'p', 'a'];
    assert(is_label(in_addr));
    assert(is_label(arpa));
    assert(forall|i: int| 0 <= i < in_addr.len() ==> #[trigger] in_addr[i] != '.');
    assert(forall|i: int| 0 <= i < arpa.len() ==> #[trigger] arpa[i] != '.');
    let r1 = d2 + seq!['.'] + d1 + seq!['.'] + d0 + seq!['.'] + in_addr + seq!['.'] + arpa;
    assert(name =~= d3 + seq!['.'] + r1) by {
        assert(crate::iptext::in_addr_arpa_text() =~= seq!['.'] + in_addr + seq!['.'] + arpa);
    }
    crate::iptext::lemma_split_no_sep_concat(d3, r1, name, '.');
    let r2 = d1 + seq!['.'] + d0 + seq!['.'] + in_addr + seq!['.'] + arpa;
    assert(r1 =~= d2 + seq!['.'] + r2);
    crate::iptext::lemma_split_no_sep_concat(d2, r2, r1, '.');
    let r3 = d0 + seq!['.'] + in_addr + seq!['.'] + arpa;
    assert(r2 =~= d1 + seq!['.'] + r3);
    crate::iptext::lemma_split_no_sep_concat(d1, r3, r2, '.');
    let r4 = in_addr + seq!['.'] + arpa;
    assert(r3 =~= d0 + seq!['.'] + r4);
    crate::iptext::lemma_split_no_sep_concat(d0, r4, r3, '.');
    crate::iptext::lemma_split_no_sep_concat(in_addr, arpa, r4, '.');
    crate::iptext::lemma_split_no_sep_whole(arpa, '.');
    let ps = split_spec(name, '.');
    assert(ps =~= seq![d3, d2, d1, d0, in_addr, arpa]);
    assert(name.len() <= 200);
    assert forall|k: int| 0 <= k < ps.len() implies is_label(#[trigger] ps[k]) by {
        if k == 0 {
            assert(ps[k] == d3);
        } else if k == 1 {
            assert(ps[k] == d2);
        } else if k == 2 {
            assert(ps[k] == d1);
        } else if k == 3 {
            assert(ps[k] == d0);
        } else if k == 4 {
            assert(ps[k] == in_addr);
        } else {
            assert(ps[k] == arpa);
        }
    }
}

/// The nibbles of a reverse IPv6 name, written front-first.
pub open spec fn nibbles_from(v: u128, j: int) -> Seq<char>
    decreases 32 - j,
{
    if j < 0 || j >= 32 {
        Seq::<char>::empty()
    } else {
        seq![crate::text::hex_digit(crate::iptext::v6_nibble(v, j)), '.'] + nibbles_from(v, j + 1)
    }
}

proof fn lemma_nibbles_equiv(v: u128, k: int)
    requires
        0 <= k <= 32,
    ensures
        crate::iptext::v6_nibbles_text(v, k) + nibbles_from(v, k) =~= nibbles_from(v, 0),
    decreases k,
{
    if k == 0 {
        assert(crate::iptext::v6_nibbles_text(v, 0) =~= Seq::<char>::empty());
    } else {
        lemma_nibbles_equiv(v, k - 1);
        assert(nibbles_from(v, k - 1) =~= seq![
            crate::text::hex_digit(crate::iptext::v6_nibble(v, k - 1)),
            '.',
        ] + nibbles_from(v, k));
        assert(crate::iptext::v6_nibbles_text(v, k) =~= crate::iptext::v6_nibbles_text(v, k - 1)
            + seq![crate::text::hex_digit(crate::iptext::v6_nibble(v, k - 1)), '.']);
    }
}

proof fn lemma_hex_digit_ascii(n: int)
    requires
        0 <= n < 16,
    ensures
        ((crate::text::hex_digit(n)) as u32) < 128,
        crate::text::hex_digit(n) != '.',
{
    assert('0' as int == 48 && 'a' as int == 97 && '.' as int == 46);
}

/// Splitting the reverse IPv6 name from nibble `j` on: single-character
/// labels, then the closing labels.
proof fn lemma_v6_ptr_split(v: u128, j: int)
    requires
        0 <= j <= 32,
    ensures
        ({
            let tail = seq!['i', 'p', '6'] + seq!['.'] + seq!['a', 'r', 'p', 'a'];
            let ps = split_spec(nibbles_from(v, j) + tail, '.');
            &&& ps.len() == (32 - j) + 2
            &&& forall|k: int| 0 <= k < ps.len() ==> is_label(#[trigger] ps[k])
        }),
    decreases 32 - j,
{
    let tail = seq!['i', 'p', '6'] + seq!['.'] + seq!['a', 'r', 'p', 'a'];
    let ip6 = seq!['i', 'p', '6'];
    let arpa = seq!['a', 'r', 'p', 'a'];
    if j == 32 {
        assert(nibbles_from(v, 32) + tail =~= ip6 + seq!['.'] + arpa);
        assert(forall|i: int| 0 <= i < ip6.len() ==> #[trigger] ip6[i] != '.');
        crate::iptext::lemma_split_no_sep_concat(ip6, arpa, ip6 + seq!['.'] + arpa, '.');
        crate::iptext::lemma_split_no_sep_whole(arpa, '.');
        assert(is_label(ip6));
        assert(is_label(arpa));
        assert(split_spec(nibbles_from(v, 32) + tail, '.') =~= seq![ip6, arpa]);
    } else {
        lemma_v6_ptr_split(v, j + 1);
        crate::iptext::lemma_v6_nibble_range(v, j);
        lemma_hex_digit_ascii(crate::iptext::v6_nibble(v, j));
        let lab = seq![crate::text::hex_digit(crate::iptext::v6_nibble(v, j))];
        let rest = nibbles_from(v, j + 1) + tail;
        assert(nibbles_from(v, j) + tail =~= lab + seq!['.'] + rest);
        assert(forall|i: int| 0 <= i < lab.len() ==> #[trigger] lab[i] != '.');
        crate::iptext::lemma_split_no_sep_concat(lab, rest, nibbles_from(v, j) + tail, '.');
        assert(is_label(lab));
        let ps = split_spec(nibbles_from(v, j) + tail, '.');
        let psr = split_spec(rest, '.');
        assert(ps == seq![lab] + psr);
        assert(forall|k: int| 0 <= k < ps.len() ==> is_label(#[trigger] ps[k])) by {
            assert(forall|k: int| 1 <= k < ps.len() ==> ps[k] == #[trigger] psr[k - 1]);
        }
    }
}

/// The reverse name of an IPv6 address is fit for the wire.
pub proof fn lemma_v6_ptr_name_valid(v: u128)
    ensures
        valid_name(crate::iptext::ptr_name_text(IpAddress::V6(v))),
{
    let name = crate::iptext::ptr_name_text(IpAddress::V6(v));
    let tail = seq!['i', 'p', '6'] + seq!['.'] + seq!['a', 'r', 'p', 'a'];
    lemma_nibbles_equiv(v, 32);
    assert(nibbles_from(v, 32) =~= Seq::<char>::empty());
    assert(crate::iptext::v6_nibbles_text(v, 32) =~= nibbles_from(v, 0));
    assert(name =~= nibbles_from(v, 0) + tail) by {
        assert(crate::iptext::ip6_arpa_text() =~= tail);
    }
    lemma_v6_ptr_split(v, 0);
    lemma_nibbles_len(v, 0);
}

proof fn lemma_nibbles_len(v: u128, j: int)
    requires
        0 <= j <= 32,
    ensures
        nibbles_from(v, j).len() == 2 * (32 - j),
    decreases 32 - j,
{
    if j < 32 {
        lemma_nibbles_len(v, j + 1);
    }
}

/// Builds the full PTR query packet for an address.
pub fn create_ptr_packet(ip: &IpAddress, id: u16) -> (r: Vec<u8>)
    ensures
        r@ == ptr_query_bytes(id, crate::iptext::ptr_name_text(*ip)),
{
    let name = crate::iptext::reverse_address_to_ptr(ip);
    proof {
        match *ip {
            IpAddress::V4(v) => {
                lemma_v4_ptr_name_valid(v);
            },
            IpAddress::V6(v) => {
                lemma_v6_ptr_name_valid(v);
            },
        }
    }
    match build_ptr_query(id, name.as_str()) {
        Some(out) => out,
        None => {
            // unreachable: reverse names are always valid
            proof {
                assert(false);
            }
            Vec::new()
        },
    }
}

/// Whether a name ends in `.arpa` and so names an address, not a host.
pub open spec fn ends_arpa(name: Seq<char>) -> bool {
    name.len() >= 5 && name.subrange(name.len() - 5, name.len() as int) =~= seq![
        '.',
        'a',
        'r',
        'p',
        'a',
    ]
}

pub fn name_ends_arpa(name: &str) -> (r: bool)
    ensures
        r == ends_arpa(name@),
{
    let len = name.unicode_len();
    if len < 5 {
        return false;
    }
    let r = name.get_char(len - 5) == '.' && name.get_char(len - 4) == 'a' && name.get_char(
        len - 3,
    ) == 'r' && name.get_char(len - 2) == 'p' && name.get_char(len - 1) == 'a';
    proof {
        let t = name@.subrange(name@.len() - 5, name@.len() as int);
        assert(t[0] == name@[name@.len() - 5]);
        assert(t[1] == name@[name@.len() - 4]);
        assert(t[2] == name@[name@.len() - 3]);
        assert(t[3] == name@[name@.len() - 2]);
        assert(t[4] == name@[name@.len() - 1]);
        if r {
            assert(t =~= seq!['.', 'a', 'r', 'p', 'a']);
        }
    }
    r
}


/// Skipping `count` questions: each is a name then four bytes.
pub open spec fn spec_skip_questions(b: Seq<u8>, pos: int, count: int) -> Option<int>
    decreases count,
{
    if count <= 0 {
        Some(pos)
    } else {
        match spec_parse_name(b, pos, NAME_FUEL as nat) {
            Some((_, next)) => {
                if next + 4 <= b.len() {
                    spec_skip_questions(b, next + 4, count - 1)
                } else {
                    None
                }
            },
            None => None,
        }
    }
}

fn skip_questions(b: &Vec<u8>, pos: usize, count: u16) -> (r: Option<usize>)
    requires
        pos <= b@.len(),
    ensures
        r is Some <==> spec_skip_questions(b@, pos as int, count as int) is Some,
        r is Some ==> Some(r->0 as int) == spec_skip_questions(b@, pos as int, count as int)
            && r->0 <= b@.len(),
    decreases count,
{
    if count == 0 {
        return Some(pos);
    }
    match parse_name_at(b, pos, NAME_FUEL) {
        Some((_, next)) => {
            if b.len() >= 4 && next <= b.len() - 4 {
                skip_questions(b, next + 4, count - 1)
            } else {
                None
            }
        },
        None => None,
    }
}

/// Walking `count` resource records for the first PTR answer.
pub open spec fn spec_find_ptr(b: Seq<u8>, pos: int, count: int) -> Option<Seq<char>>
    decreases count,
{
    if count <= 0 {
        None
    } else {
        match spec_parse_name(b, pos, NAME_FUEL as nat) {
            Some((_, next)) => {
                if next + 10 <= b.len() {
                    let ty = be_val(b.subrange(next, next + 2));
                    let rdlen = be_val(b.subrange(next + 8, next + 10));
                    if next + 10 + rdlen <= b.len() {
                        if ty == 12 {
                            match spec_parse_name(b, next + 10, NAME_FUEL as nat) {
                                Some((name, _)) => Some(name),
                                None => None,
                            }
                        } else {
                            spec_find_ptr(b, next + 10 + rdlen, count - 1)
                        }
                    } else {
                        None
                    }
                } else {
                    None
                }
            },
            None => None,
        }
    }
}

fn find_ptr(b: &Vec<u8>, pos: usize, count: u16) -> (r: Option<String>)
    requires
        pos <= b@.len(),
    ensures
        r is Some <==> spec_find_ptr(b@, pos as int, count as int) is Some,
        r is Some ==> Some(r->0@) == spec_find_ptr(b@, pos as int, count as int),
    decreases count,
{
    if count == 0 {
        return None;
    }
    match parse_name_at(b, pos, NAME_FUEL) {
        Some((_, next)) => {
            if b.len() >= 10 && next <= b.len() - 10 {
                let ty = crate::frames::read_be(b, next, 2);
                let rdlen = crate::frames::read_be(b, next + 8, 2);
                proof {
                    crate::frames::lemma_be_val_bound(b@.subrange(next as int, next + 2));
                    crate::frames::lemma_be_val_bound(b@.subrange(next + 8, next + 10));
                    assert(crate::net::pow2_int(16) == 0x1_0000) by {
                        reveal_with_fuel(crate::net::pow2_int, 17);
                    }
                }
                let rdl = rdlen as usize;
                if rdl <= b.len() - 10 - next {
                    if ty == 12 {
                        match parse_name_at(b, next + 10, NAME_FUEL) {
                            Some((name, _)) => Some(name),
                            None => None,
                        }
                    } else {
                        find_ptr(b, next + 10 + rdl, count - 1)
                    }
                } else {
                    None
                }
            } else {
                None
            }
        },
        None => None,
    }
}

/// What a DNS response yields: its transaction id and the first PTR
/// answer, when the packet parses and holds one.
pub open spec fn spec_get_hostname(b: Seq<u8>) -> Option<(int, Seq<char>)> {
    if b.len() >= 12 {
        let id = be_val(b.subrange(0, 2));
        let qd = be_val(b.subrange(4, 6));
        let an = be_val(b.subrange(6, 8));
        match spec_skip_questions(b, 12, qd) {
            Some(pos) => {
                match spec_find_ptr(b, pos, an) {
                    Some(name) => Some((id, name)),
                    None => None,
                }
            },
            None => None,
        }
    } else {
        None
    }
}

/// Reads the transaction id and the first PTR answer of a DNS response.
pub fn get_hostname(payload: &Vec<u8>) -> (r: Result<(u16, String), ScanError>)
    ensures
        r is Ok <==> spec_get_hostname(payload@) is Some,
        r is Ok ==> {
            &&& Some((((r->Ok_0).0) as int, ((r->Ok_0).1)@)) == spec_get_hostname(payload@)
        },
        r is Err ==> r->Err_0 == ScanError::Decode,
{
    if payload.len() < 12 {
        return Err(ScanError::Decode);
    }
    let id = crate::frames::read_be(payload, 0, 2);
    let qd = crate::frames::read_be(payload, 4, 2);
    let an = crate::frames::read_be(payload, 6, 2);
    proof {
        crate::frames::lemma_be_val_bound(payload@.subrange(0, 2));
        crate::frames::lemma_be_val_bound(payload@.subrange(4, 6));
        crate::frames::lemma_be_val_bound(payload@.subrange(6, 8));
        assert(crate::net::pow2_int(16) == 0x1_0000) by {
            reveal_with_fuel(crate::net::pow2_int, 17);
        }
    }
    match skip_questions(payload, 12, qd as u16) {
        Some(pos) => {
            match find_ptr(payload, pos, an as u16) {
                Some(name) => Ok(((id as u16), name)),
                None => Err(ScanError::Decode),
            }
        },
        None => Err(ScanError::Decode),
    }
}

/// What one record contributes to an mDNS harvest.
pub open spec fn spec_collect_records(b: Seq<u8>, pos: int, count: int) -> Option<
    (int, Option<Seq<char>>, Seq<IpAddress>),
>
    decreases count,
{
    if count <= 0 {
        Some((pos, None, Seq::<IpAddress>::empty()))
    } else {
        match spec_parse_name(b, pos, NAME_FUEL as nat) {
            Some((_, next)) => {
                if next + 10 <= b.len() {
                    let ty = be_val(b.subrange(next, next + 2));
                    let rdlen = be_val(b.subrange(next + 8, next + 10));
                    if next + 10 + rdlen <= b.len() {
                        match spec_collect_records(b, next + 10 + rdlen, count - 1) {
                            Some((endpos, resth, restips)) => {
                                if ty == 12 {
                                    match spec_parse_name(b, next + 10, NAME_FUEL as nat) {
                                        Some((name, _)) => {
                                            if !ends_arpa(name) {
                                                Some((endpos, Some(name), restips))
                                            } else {
                                                Some((endpos, resth, restips))
                                            }
                                        },
                                        None => None,
                                    }
                                } else if ty == 1 && rdlen == 4 {
                                    Some(
                                        (
                                            endpos,
                                            resth,
                                            seq![
                                                IpAddress::V4(
                                                    be_val(
                                                        b.subrange(next + 10, next + 14),
                                                    ) as u32,
                                                ),
                                            ] + restips,
                                        ),
                                    )
                                } else if ty == 28 && rdlen == 16 {
                                    Some(
                                        (
                                            endpos,
                                            resth,
                                            seq![
                                                IpAddress::V6(
                                                    be_val(
                                                        b.subrange(next + 10, next + 26),
                                                    ) as u128,
                                                ),
                                            ] + restips,
                                        ),
                                    )
                                } else {
                                    Some((endpos, resth, restips))
                                }
                            },
                            None => None,
                        }
                    } else {
                        None
                    }
                } else {
                    None
                }
            },
            None => None,
        }
    }
}

/// A hostname and address set pulled out of an mDNS message.
#[derive(Debug)]
pub struct MdnsRecord {
    pub hostname: Option<String>,
    pub ips: crate::ipset::IpSet,
}

#[verifier::rlimit(100)]
fn collect_records(b: &Vec<u8>, pos: usize, count: u16) -> (r: Option<
    (usize, Option<String>, crate::ipset::IpSet),
>)
    requires
        pos <= b@.len(),
    ensures
        r is Some <==> spec_collect_records(b@, pos as int, count as int) is Some,
        r is Some ==> {
            let sp = spec_collect_records(b@, pos as int, count as int)->0;
            &&& ((r->0).0 as int) == sp.0
            &&& (r->0).0 <= b@.len()
            &&& ((r->0).1 is Some <==> sp.1 is Some)
            &&& ((r->0).1 is Some ==> ((r->0).1->0)@ == sp.1->0)
            &&& (r->0).2.wf()
            &&& forall|x: IpAddress| (r->0).2@.contains(x) <==> sp.2.contains(x)
        },
    decreases count,
{
    if count == 0 {
        proof {
            assert(Seq::<IpAddress>::empty().len() == 0);
        }
        let s = crate::ipset::IpSet::new();
        proof {
            assert(forall|x: IpAddress| !(#[trigger] s@.contains(x)));
            assert(forall|x: IpAddress| !(#[trigger] Seq::<IpAddress>::empty().contains(x)));
        }
        return Some((pos, None, s));
    }
    match parse_name_at(b, pos, NAME_FUEL) {
        Some((_, next)) => {
            if b.len() >= 10 && next <= b.len() - 10 {
                let ty = crate::frames::read_be(b, next, 2);
                let rdlen = crate::frames::read_be(b, next + 8, 2);
                proof {
                    crate::frames::lemma_be_val_bound(b@.subrange(next as int, next + 2));
                    crate::frames::lemma_be_val_bound(b@.subrange(next + 8, next + 10));
                    assert(crate::net::pow2_int(16) == 0x1_0000) by {
                        reveal_with_fuel(crate::net::pow2_int, 17);
                    }
                }
                let rdl = rdlen as usize;
                if rdl <= b.len() - 10 - next {
                    match collect_records(b, next + 10 + rdl, count - 1) {
                        Some((endpos, resth, mut restips)) => {
                            if ty == 12 {
                                match parse_name_at(b, next + 10, NAME_FUEL) {
                                    Some((name, _)) => {
                                        if !name_ends_arpa(name.as_str()) {
                                            Some((endpos, Some(name), restips))
                                        } else {
                                            Some((endpos, resth, restips))
                                        }
                                    },
                                    None => None,
                                }
                            } else if ty == 1 && rdl == 4 {
                                let v = crate::frames::read_be(b, next + 10, 4);
                                proof {
                                    crate::frames::lemma_be_val_bound(
                                        b@.subrange(next + 10, next + 14),
                                    );
                                    crate::net::lemma_pow2_32();
                                }
                                let ip = IpAddress::V4(v as u32);
                                let ghost pre_ips = restips@;
                                restips.insert(ip);
                                proof {
                                    let sp = spec_collect_records(
                                        b@,
                                        pos as int,
                                        count as int,
                                    )->0;
                                    let rest_sp = spec_collect_records(
                                        b@,
                                        next + 10 + rdl,
                                        count - 1,
                                    )->0;
                                    assert(sp.2 =~= seq![ip] + rest_sp.2);
                                    assert forall|x: IpAddress| restips@.contains(x)
                                        <==> sp.2.contains(x) by {
                                        assert(restips@.contains(x) <==> pre_ips.contains(x) || x
                                            == ip);
                                        assert(pre_ips.contains(x) <==> rest_sp.2.contains(x));
                                        assert(sp.2[0] == ip);
                                        if sp.2.contains(x) {
                                            let w = choose|w: int|
                                                0 <= w < sp.2.len() && #[trigger] sp.2[w] == x;
                                            if w > 0 {
                                                assert(rest_sp.2[w - 1] == x);
                                            }
                                        }
                                        if pre_ips.contains(x) {
                                            let w = choose|w: int|
                                                0 <= w < rest_sp.2.len() && #[trigger] rest_sp.2[w]
                                                    == x;
                                            assert(sp.2[w + 1] == x);
                                        }
                                        if x == ip {
                                            assert(sp.2.contains(x)) by {
                                                assert(sp.2[0] == x);
                                            }
                                        }
                                    }
                                }
                                Some((endpos, resth, restips))
                            } else if ty == 28 && rdl == 16 {
                                let v = crate::frames::read_be(b, next + 10, 16);
                                let ip = IpAddress::V6(v);
                                let ghost pre_ips = restips@;
                                restips.insert(ip);
                                proof {
                                    let sp = spec_collect_records(
                                        b@,
                                        pos as int,
                                        count as int,
                                    )->0;
                                    let rest_sp = spec_collect_records(
                                        b@,
                                        next + 10 + rdl,
                                        count - 1,
                                    )->0;
                                    assert(sp.2 =~= seq![ip] + rest_sp.2);
                                    assert forall|x: IpAddress| restips@.contains(x)
                                        <==> sp.2.contains(x) by {
                                        assert(restips@.contains(x) <==> pre_ips.contains(x) || x
                                            == ip);
                                        assert(pre_ips.contains(x) <==> rest_sp.2.contains(x));
                                        assert(sp.2[0] == ip);
                                        if sp.2.contains(x) {
                                            let w = choose|w: int|
                                                0 <= w < sp.2.len() && #[trigger] sp.2[w] == x;
                                            if w > 0 {
                                                assert(rest_sp.2[w - 1] == x);
                                            }
                                        }
                                        if pre_ips.contains(x) {
                                            let w = choose|w: int|
                                                0 <= w < rest_sp.2.len() && #[trigger] rest_sp.2[w]
                                                    == x;
                                            assert(sp.2[w + 1] == x);
                                        }
                                        if x == ip {
                                            assert(sp.2.contains(x)) by {
                                                assert(sp.2[0] == x);
                                            }
                                        }
                                    }
                                }
                                Some((endpos, resth, restips))
                            } else {
                                Some((endpos, resth, restips))
                            }
                        },
                        None => None,
                    }
                } else {
                    None
                }
            } else {
                None
            }
        },
        None => None,
    }
}

/// What an mDNS message yields: the first host-naming PTR across the
/// answer and additional sections, and every A and AAAA address.
pub open spec fn spec_extract_resource(b: Seq<u8>) -> Option<(Option<Seq<char>>, Seq<IpAddress>)> {
    if b.len() >= 12 {
        let qd = be_val(b.subrange(4, 6));
        let an = be_val(b.subrange(6, 8));
        let ns = be_val(b.subrange(8, 10));
        let ar = be_val(b.subrange(10, 12));
        match spec_skip_questions(b, 12, qd) {
            Some(pos) => {
                match spec_collect_records(b, pos, an) {
                    Some((pos2, h1, ips1)) => {
                        match spec_collect_records(b, pos2, ns) {
                            Some((pos3, _, _)) => {
                                match spec_collect_records(b, pos3, ar) {
                                    Some((_, h2, ips2)) => {
                                        Some(
                                            (
                                                if h1 is Some {
                                                    h1
                                                } else {
                                                    h2
                                                },
                                                ips1 + ips2,
                                            ),
                                        )
                                    },
                                    None => None,
                                }
                            },
                            None => None,
                        }
                    },
                    None => None,
                }
            },
            None => None,
        }
    } else {
        None
    }
}

/// Pulls the hostname and addresses out of an mDNS message.
#[verifier::rlimit(100)]
pub fn extract_resource(data: &Vec<u8>) -> (r: Result<MdnsRecord, ScanError>)
    ensures
        r is Ok <==> spec_extract_resource(data@) is Some,
        r is Ok ==> {
            let sp = spec_extract_resource(data@)->0;
            &&& (r->Ok_0.hostname is Some <==> sp.0 is Some)
            &&& (r->Ok_0.hostname is Some ==> (r->Ok_0.hostname->0)@ == sp.0->0)
            &&& r->Ok_0.ips.wf()
            &&& forall|x: IpAddress| r->Ok_0.ips@.contains(x) <==> sp.1.contains(x)
        },
        r is Err ==> r->Err_0 == ScanError::Decode,
{
    if data.len() < 12 {
        return Err(ScanError::Decode);
    }
    let qd = crate::frames::read_be(data, 4, 2);
    let an = crate::frames::read_be(data, 6, 2);
    let ns = crate::frames::read_be(data, 8, 2);
    let ar = crate::frames::read_be(data, 10, 2);
    proof {
        crate::frames::lemma_be_val_bound(data@.subrange(4, 6));
        crate::frames::lemma_be_val_bound(data@.subrange(6, 8));
        crate::frames::lemma_be_val_bound(data@.subrange(8, 10));
        crate::frames::lemma_be_val_bound(data@.subrange(10, 12));
        assert(crate::net::pow2_int(16) == 0x1_0000) by {
            reveal_with_fuel(crate::net::pow2_int, 17);
        }
    }
    match skip_questions(data, 12, qd as u16) {
        Some(pos) => {
            match collect_records(data, pos, an as u16) {
                Some((pos2, h1, ips1)) => {
                    match collect_records(data, pos2, ns as u16) {
                        Some((pos3, _, _)) => {
                            match collect_records(data, pos3, ar as u16) {
                                Some((_, h2, ips2)) => {
                                    let mut all = crate::ipset::IpSet::new();
                                    all.extend_from(&ips1);
                                    let ghost mid = all@;
                                    all.extend_from(&ips2);
                                    proof {
                                        let sp = spec_extract_resource(data@)->0;
                                        let an_sp = spec_collect_records(
                                            data@,
                                            pos as int,
                                            an as int,
                                        )->0;
                                        let ar_sp = spec_collect_records(
                                            data@,
                                            pos3 as int,
                                            ar as int,
                                        )->0;
                                        assert forall|x: IpAddress| all@.contains(x)
                                            <==> sp.1.contains(x) by {
                                            assert(all@.contains(x) <==> mid.contains(x)
                                                || ips2@.contains(x));
                                            assert(mid.contains(x) <==> ips1@.contains(x));
                                            assert(ips1@.contains(x) <==> an_sp.2.contains(x));
                                            assert(ips2@.contains(x) <==> ar_sp.2.contains(x));
                                            lemma_seq_concat_contains(an_sp.2, ar_sp.2, x);
                                        }
                                    }
                                    let hostname = if h1.is_some() {
                                        h1
                                    } else {
                                        h2
                                    };
                                    Ok(MdnsRecord { hostname, ips: all })
                                },
                                None => Err(ScanError::Decode),
                            }
                        },
                        None => Err(ScanError::Decode),
                    }
                },
                None => Err(ScanError::Decode),
            }
        },
        None => Err(ScanError::Decode),
    }
}

/// Membership in a concatenation.
pub proof fn lemma_seq_concat_contains(a: Seq<IpAddress>, b: Seq<IpAddress>, x: IpAddress)
    ensures
        (a + b).contains(x) <==> a.contains(x) || b.contains(x),
{
    if (a + b).contains(x) {
        let w = choose|w: int| 0 <= w < (a + b).len() && #[trigger] (a + b)[w] == x;
        if w < a.len() {
            assert(a[w] == x);
        } else {
            assert(b[w - a.len()] == x);
        }
    }
    if a.contains(x) {
        let w = choose|w: int| 0 <= w < a.len() && #[trigger] a[w] == x;
        assert((a + b)[w] == x);
    }
    if b.contains(x) {
        let w = choose|w: int| 0 <= w < b.len() && #[trigger] b[w] == x;
        assert((a + b)[w + a.len()] == x);
    }
}

} // verus!
