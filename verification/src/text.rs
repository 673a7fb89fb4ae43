use vstd::prelude::*;

verus! {

/// Relies on String::push: appends exactly the one character.
#[verifier::external_body]
pub fn push_char(s: &mut String, c: char)
    ensures
        final(s)@ == old(s)@.push(c),
{
    s.push(c);
}

pub open spec fn is_digit(c: char) -> bool {
    '0' <= c && c <= '9'
}

pub open spec fn digit_val(c: char) -> int {
    c as int - '0' as int
}

pub open spec fn is_digits(s: Seq<char>) -> bool {
    forall|i: int| 0 <= i < s.len() ==> is_digit(#[trigger] s[i])
}

/// The digit character for a value below ten.
pub open spec fn dec_digit(n: int) -> char
    recommends
        0 <= n < 10,
{
    ((('0' as int) + n) as u8) as char
}

/// The decimal text of a number: no sign, no leading zero except for zero
/// itself.
pub open spec fn dec_rep(n: nat) -> Seq<char>
    decreases n,
{
    if n < 10 {
        seq![dec_digit(n as int)]
    } else {
        dec_rep(n / 10).push(dec_digit((n % 10) as int))
    }
}

/// The value of a digit string.
pub open spec fn dec_val(s: Seq<char>) -> int
    decreases s.len(),
{
    if s.len() == 0 {
        0
    } else {
        dec_val(s.drop_last()) * 10 + digit_val(s.last())
    }
}

pub proof fn lemma_dec_digit_val(n: int)
    requires
        0 <= n < 10,
    ensures
        is_digit(dec_digit(n)),
        digit_val(dec_digit(n)) == n,
{
    assert('0' as int == 48);
    assert(dec_digit(n) as int == 48 + n);
}

pub proof fn lemma_dec_val_nonneg(s: Seq<char>)
    requires
        is_digits(s),
    ensures
        dec_val(s) >= 0,
    decreases s.len(),
{
    if s.len() > 0 {
        assert(is_digits(s.drop_last())) by {
            assert(forall|i: int|
                0 <= i < s.len() - 1 ==> s.drop_last()[i] == #[trigger] s[i]);
        }
        lemma_dec_val_nonneg(s.drop_last());
        assert(digit_val(s.last()) >= 0);
        assert(dec_val(s.drop_last()) * 10 >= 0) by (nonlinear_arith)
            requires
                dec_val(s.drop_last()) >= 0,
        ;
    }
}

/// Formatting then evaluating gives the number back.
pub proof fn lemma_dec_rep_val(n: nat)
    ensures
        dec_val(dec_rep(n)) == n,
        dec_rep(n).len() >= 1,
        is_digits(dec_rep(n)),
    decreases n,
{
    if n < 10 {
        lemma_dec_digit_val(n as int);
        let s = dec_rep(n);
        assert(s == seq![dec_digit(n as int)]);
        assert(s.len() == 1);
        assert(s.last() == dec_digit(n as int));
        assert(s.drop_last() =~= Seq::<char>::empty());
        assert(dec_val(s.drop_last()) == 0);
        assert(dec_val(s) == 0 * 10 + digit_val(s.last()));
        assert(forall|i: int| 0 <= i < s.len() ==> is_digit(#[trigger] s[i]));
    } else {
        lemma_dec_rep_val(n / 10);
        lemma_dec_digit_val((n % 10) as int);
        let s = dec_rep(n);
        assert(s == dec_rep(n / 10).push(dec_digit((n % 10) as int)));
        assert(s.drop_last() =~= dec_rep(n / 10));
        assert(s.last() == dec_digit((n % 10) as int));
        assert(dec_val(s) == dec_val(dec_rep(n / 10)) * 10 + (n % 10));
        assert(forall|i: int| 0 <= i < s.len() ==> is_digit(#[trigger] s[i])) by {
            assert(forall|i: int|
                0 <= i < s.len() - 1 ==> s[i] == #[trigger] dec_rep(n / 10)[i]);
        }
    }
}

/// The decimal text of zero is "0"; of a positive number it never starts
/// with '0'; up to three digits below one thousand.
pub proof fn lemma_dec_rep_shape(n: nat)
    ensures
        n == 0 ==> dec_rep(n) =~= seq!['0'],
        n > 0 ==> dec_rep(n)[0] != '0',
        n < 10 ==> dec_rep(n).len() == 1,
        n < 100 ==> dec_rep(n).len() <= 2,
        n < 1000 ==> dec_rep(n).len() <= 3,
    decreases n,
{
    if n < 10 {
        lemma_dec_digit_val(n as int);
        assert(dec_digit(n as int) as int == 48 + n);
        assert('0' as int == 48);
    } else {
        lemma_dec_rep_shape(n / 10);
        assert(dec_rep(n)[0] == dec_rep(n / 10)[0]);
    }
}

/// Appends the decimal text of `n`.
pub fn push_dec_u32(s: &mut String, n: u32)
    ensures
        final(s)@ == old(s)@ + dec_rep(n as nat),
    decreases n,
{
    if n < 10 {
        push_char(s, (48 + (n as u8)) as char);
        proof {
            assert((48 + (n as u8)) as char == dec_digit(n as int));
            assert(old(s)@.push(dec_digit(n as int)) =~= old(s)@ + dec_rep(n as nat));
        }
    } else {
        push_dec_u32(s, n / 10);
        let d: u32 = n % 10;
        push_char(s, (48 + (d as u8)) as char);
        proof {
            assert((48 + (d as u8)) as char == dec_digit(d as int));
            assert((old(s)@ + dec_rep((n / 10) as nat)).push(dec_digit(d as int)) =~= old(s)@
                + dec_rep(n as nat));
        }
    }
}

/// The hexadecimal digit for a value below sixteen, lower case.
pub open spec fn hex_digit(n: int) -> char
    recommends
        0 <= n < 16,
{
    if n < 10 {
        ((('0' as int) + n) as u8) as char
    } else {
        ((('a' as int) + n - 10) as u8) as char
    }
}

/// The hexadecimal text of a number, lower case, no leading zero except
/// for zero itself.
pub open spec fn hex_rep(n: nat) -> Seq<char>
    decreases n,
{
    if n < 16 {
        seq![hex_digit(n as int)]
    } else {
        hex_rep(n / 16).push(hex_digit((n % 16) as int))
    }
}

pub fn hex_digit_char(n: u8) -> (c: char)
    requires
        n < 16,
    ensures
        c == hex_digit(n as int),
{
    if n < 10 {
        (48 + n) as char
    } else {
        proof {
            assert('a' as int == 97);
        }
        (97 + (n - 10)) as char
    }
}

/// Appends the hexadecimal text of `n`, lower case, no padding.
pub fn push_hex_u32(s: &mut String, n: u32)
    ensures
        final(s)@ == old(s)@ + hex_rep(n as nat),
    decreases n,
{
    if n < 16 {
        let c = hex_digit_char(n as u8);
        push_char(s, c);
        proof {
            assert(old(s)@.push(hex_digit(n as int)) =~= old(s)@ + hex_rep(n as nat));
        }
    } else {
        push_hex_u32(s, n / 16);
        let d: u32 = n % 16;
        let c = hex_digit_char(d as u8);
        push_char(s, c);
        proof {
            assert((old(s)@ + hex_rep((n / 16) as nat)).push(hex_digit(d as int)) =~= old(s)@
                + hex_rep(n as nat));
        }
    }
}

/// The two-digit, zero-padded hexadecimal text of a byte.
pub open spec fn hex2_rep(n: u8) -> Seq<char> {
    seq![hex_digit(n as int / 16), hex_digit(n as int % 16)]
}

/// Appends the zero-padded two-digit hexadecimal text of a byte.
pub fn push_hex2_u8(s: &mut String, n: u8)
    ensures
        final(s)@ == old(s)@ + hex2_rep(n),
{
    let hi = hex_digit_char(n / 16);
    push_char(s, hi);
    let lo = hex_digit_char(n % 16);
    push_char(s, lo);
    proof {
        assert(old(s)@.push(hex_digit(n as int / 16)).push(hex_digit(n as int % 16)) =~= old(s)@
            + hex2_rep(n));
    }
}

/// A longer digit string is worth at least as much as its prefix.
pub proof fn lemma_dec_val_prefix_le(s: Seq<char>, k: int)
    requires
        0 <= k <= s.len(),
        is_digits(s),
    ensures
        dec_val(s.subrange(0, k)) <= dec_val(s),
    decreases s.len() - k,
{
    if k < s.len() {
        lemma_dec_val_prefix_le(s, k + 1);
        let a = s.subrange(0, k);
        let b = s.subrange(0, k + 1);
        assert(b.drop_last() =~= a);
        assert(is_digits(a)) by {
            assert(forall|i: int| 0 <= i < a.len() ==> a[i] == #[trigger] s[i]);
        }
        lemma_dec_val_nonneg(a);
        assert(is_digit(b.last()));
        assert(digit_val(b.last()) >= 0);
        assert(dec_val(a) * 10 >= dec_val(a)) by (nonlinear_arith)
            requires
                dec_val(a) >= 0,
        ;
    } else {
        assert(s.subrange(0, k) =~= s);
    }
}

/// The value of the digit characters between `from` and `to`, or None when
/// the window is empty, holds a non-digit, or its value is over `u32::MAX`.
pub fn parse_dec_window(s: &str, from: usize, to: usize) -> (r: Option<u32>)
    requires
        from <= to <= s@.len(),
    ensures
        r is Some <==> to > from && is_digits(s@.subrange(from as int, to as int)) && dec_val(
            s@.subrange(from as int, to as int),
        ) <= u32::MAX,
        r is Some ==> r->0 == dec_val(s@.subrange(from as int, to as int)),
{
    if from == to {
        return None;
    }
    let ghost window = s@.subrange(from as int, to as int);
    let mut acc: u32 = 0;
    let mut i: usize = from;
    while i < to
        invariant
            from <= i <= to <= s@.len(),
            window == s@.subrange(from as int, to as int),
            is_digits(s@.subrange(from as int, i as int)),
            acc == dec_val(s@.subrange(from as int, i as int)),
        decreases to - i,
    {
        let c = s.get_char(i);
        if !(c >= '0' && c <= '9') {
            proof {
                assert(window[i - from] == c);
                assert(!is_digit(c));
            }
            return None;
        }
        let d: u32 = (c as u32) - ('0' as u32);
        proof {
            assert(s@.subrange(from as int, (i + 1) as int).drop_last() =~= s@.subrange(
                from as int,
                i as int,
            ));
            assert(s@.subrange(from as int, (i + 1) as int).last() == c);
            assert(digit_val(c) == d);
        }
        if acc > (u32::MAX - d) / 10 {
            proof {
                // Even the prefix read so far is worth more than u32::MAX,
                // so the whole window is out of range or not all digits.
                assert(acc * 10 + d > u32::MAX) by (nonlinear_arith)
                    requires
                        acc > (u32::MAX - d) / 10,
                        0 <= d < 10,
                        acc <= u32::MAX,
                ;
                if is_digits(window) && dec_val(window) <= u32::MAX {
                    lemma_dec_val_prefix_le(window, i + 1 - from);
                    assert(window.subrange(0, i + 1 - from) =~= s@.subrange(
                        from as int,
                        (i + 1) as int,
                    ));
                    assert(dec_val(s@.subrange(from as int, (i + 1) as int)) == acc * 10 + d);
                }
            }
            return None;
        }
        acc = acc * 10 + d;
        i = i + 1;
        proof {
            assert(is_digits(s@.subrange(from as int, i as int))) by {
                assert(forall|k: int|
                    0 <= k < i - from - 1 ==> s@.subrange(from as int, i as int)[k]
                        == #[trigger] s@.subrange(from as int, (i - 1) as int)[k]);
                assert(s@.subrange(from as int, i as int)[i - from - 1] == c);
            }
        }
    }
    proof {
        assert(window =~= s@.subrange(from as int, i as int));
    }
    Some(acc)
}

pub open spec fn is_space(c: char) -> bool {
    c == ' ' || c == '\t' || c == '\r' || c == '\n'
}

/// The string with leading whitespace dropped.
pub open spec fn trim_front(s: Seq<char>) -> Seq<char>
    decreases s.len(),
{
    if s.len() > 0 && is_space(s[0]) {
        trim_front(s.drop_first())
    } else {
        s
    }
}

/// The string with trailing whitespace dropped.
pub open spec fn trim_back(s: Seq<char>) -> Seq<char>
    decreases s.len(),
{
    if s.len() > 0 && is_space(s.last()) {
        trim_back(s.drop_last())
    } else {
        s
    }
}

pub open spec fn trim_spec(s: Seq<char>) -> Seq<char> {
    trim_back(trim_front(s))
}

proof fn lemma_trim_front_at(s: Seq<char>, i: int)
    requires
        0 <= i <= s.len(),
        forall|k: int| 0 <= k < i ==> is_space(#[trigger] s[k]),
        i == s.len() || !is_space(s[i]),
    ensures
        trim_front(s) =~= s.subrange(i, s.len() as int),
    decreases i,
{
    if i == 0 {
        assert(s.subrange(0, s.len() as int) =~= s);
    } else {
        let t = s.drop_first();
        assert(is_space(s[0]));
        assert(forall|k: int| 0 <= k < i - 1 ==> is_space(#[trigger] t[k])) by {
            assert(forall|k: int| 0 <= k < i - 1 ==> t[k] == #[trigger] s[k + 1]);
        }
        lemma_trim_front_at(t, i - 1);
        assert(t.subrange(i - 1, t.len() as int) =~= s.subrange(i, s.len() as int));
    }
}

proof fn lemma_trim_back_at(s: Seq<char>, j: int)
    requires
        0 <= j <= s.len(),
        forall|k: int| j <= k < s.len() ==> is_space(#[trigger] s[k]),
        j == 0 || !is_space(s[j - 1]),
    ensures
        trim_back(s) =~= s.subrange(0, j),
    decreases s.len() - j,
{
    if j == s.len() {
        assert(s.subrange(0, s.len() as int) =~= s);
    } else {
        let t = s.drop_last();
        assert(is_space(s.last()));
        lemma_trim_back_at(t, j);
        assert(t.subrange(0, j) =~= s.subrange(0, j));
    }
}

/// The slice of `s` with surrounding whitespace dropped.
pub fn trim(s: &str) -> (r: &str)
    ensures
        r@ == trim_spec(s@),
{
    let len = s.unicode_len();
    let mut i: usize = 0;
    let mut at_body: bool = false;
    while i < len && !at_body
        invariant
            0 <= i <= len == s@.len(),
            forall|k: int| 0 <= k < i ==> is_space(#[trigger] s@[k]),
            at_body ==> i < len && !is_space(s@[i as int]),
        decreases len - i, 1int - (if at_body { 1int } else { 0int }),
    {
        let c = s.get_char(i);
        if c == ' ' || c == '\t' || c == '\r' || c == '\n' {
            i = i + 1;
        } else {
            at_body = true;
        }
    }
    if i == len {
        proof {
            lemma_trim_front_at(s@, len as int);
            assert(trim_front(s@) =~= Seq::<char>::empty());
            assert(trim_spec(s@) =~= Seq::<char>::empty());
            assert(s@.subrange(len as int, len as int) =~= Seq::<char>::empty());
        }
        return s.substring_char(len, len);
    }
    let mut j: usize = len;
    let mut at_end: bool = false;
    while j > i + 1 && !at_end
        invariant
            i < j <= len == s@.len(),
            forall|k: int| j <= k < len ==> is_space(#[trigger] s@[k]),
            at_end ==> !is_space(s@[j - 1]),
        decreases j, 1int - (if at_end { 1int } else { 0int }),
    {
        let c = s.get_char(j - 1);
        if c == ' ' || c == '\t' || c == '\r' || c == '\n' {
            j = j - 1;
        } else {
            at_end = true;
        }
    }
    proof {
        lemma_trim_front_at(s@, i as int);
        let t = s@.subrange(i as int, s@.len() as int);
        assert(forall|k: int| j - i <= k < t.len() ==> is_space(#[trigger] t[k])) by {
            assert(forall|k: int| j - i <= k < t.len() ==> t[k] == #[trigger] s@[k + i]);
        }
        assert(j - i == 0 || !is_space(t[j - i - 1])) by {
            if j > i {
                assert(t[j - i - 1] == s@[j - 1]);
                if j == i + 1 && !at_end {
                    // the body starts at i, which is not a space
                    assert(s@[i as int] == t[0]);
                }
            }
        }
        lemma_trim_back_at(t, j - i);
        assert(t.subrange(0, j - i) =~= s@.subrange(i as int, j as int));
    }
    s.substring_char(i, j)
}

/// The pieces of `s` between occurrences of `sep`, in order.
#[verifier::opaque]
pub open spec fn split_spec(s: Seq<char>, sep: char) -> Seq<Seq<char>>
    decreases s.len(),
{
    if exists|i: int| 0 <= i < s.len() && s[i] == sep {
        let i = choose|i: int|
            0 <= i < s.len() && s[i] == sep && (forall|k: int| 0 <= k < i ==> s[k] != sep);
        if 0 <= i < s.len() {
            seq![s.subrange(0, i)] + split_spec(s.subrange(i + 1, s.len() as int), sep)
        } else {
            seq![s]
        }
    } else {
        seq![s]
    }
}

pub proof fn lemma_split_first_from(s: Seq<char>, sep: char, w: int)
    requires
        0 <= w < s.len() && s[w] == sep,
    ensures
        exists|i: int|
            0 <= i < s.len() && s[i] == sep && (forall|k: int| 0 <= k < i ==> s[k] != sep),
    decreases w,
{
    if forall|k: int| 0 <= k < w ==> s[k] != sep {
        assert(0 <= w < s.len() && s[w] == sep && (forall|k: int| 0 <= k < w ==> s[k] != sep));
    } else {
        let w2 = choose|k: int| 0 <= k < w && s[k] == sep;
        lemma_split_first_from(s, sep, w2);
    }
}

/// When the first separator stands at `fi`, the split peels the prefix
/// before it.
pub proof fn lemma_split_step(s: Seq<char>, sep: char, fi: int)
    requires
        0 <= fi < s.len() && s[fi] == sep,
        forall|k: int| 0 <= k < fi ==> s[k] != sep,
    ensures
        split_spec(s, sep) == seq![s.subrange(0, fi)] + split_spec(
            s.subrange(fi + 1, s.len() as int),
            sep,
        ),
{
    reveal(split_spec);
    lemma_split_first_from(s, sep, fi);
    let i = choose|i: int|
        0 <= i < s.len() && s[i] == sep && (forall|k: int| 0 <= k < i ==> s[k] != sep);
    if i < fi {
        assert(s[i] != sep);
    } else if fi < i {
        assert(s[fi] != sep);
    }
}

/// Peeling the piece before the first separator keeps the running
/// decomposition intact.
proof fn lemma_split_advance(s: Seq<char>, sep: char, done: Seq<Seq<char>>, start: int, i: int)
    requires
        0 <= start <= i < s.len(),
        s[i] == sep,
        forall|k: int| start <= k < i ==> s[k] != sep,
        done + split_spec(s.subrange(start, s.len() as int), sep) == split_spec(s, sep),
    ensures
        done.push(s.subrange(start, i)) + split_spec(s.subrange(i + 1, s.len() as int), sep)
            == split_spec(s, sep),
{
    let rest = s.subrange(start, s.len() as int);
    assert(rest[i - start] == sep);
    assert(forall|k: int| 0 <= k < i - start ==> rest[k] == #[trigger] s[k + start]);
    lemma_split_step(rest, sep, i - start);
    assert(rest.subrange(0, i - start) =~= s.subrange(start, i));
    assert(rest.subrange(i - start + 1, rest.len() as int) =~= s.subrange(i + 1, s.len() as int));
    assert(done.push(s.subrange(start, i)) + split_spec(s.subrange(i + 1, s.len() as int), sep)
        =~= done + (seq![s.subrange(start, i)] + split_spec(s.subrange(i + 1, s.len() as int), sep)));
}

/// A separator-free string is one single piece.
pub proof fn lemma_split_whole(s: Seq<char>, sep: char)
    requires
        forall|i: int| 0 <= i < s.len() ==> #[trigger] s[i] != sep,
    ensures
        split_spec(s, sep) == seq![s],
{
    reveal(split_spec);
    if exists|k: int| 0 <= k < s.len() && s[k] == sep {
        let w = choose|k: int| 0 <= k < s.len() && s[k] == sep;
        assert(s[w] != sep);
    }
}

/// Without further separators the remainder is the last piece.
proof fn lemma_split_last(s: Seq<char>, sep: char, done: Seq<Seq<char>>, start: int)
    requires
        0 <= start <= s.len(),
        forall|k: int| start <= k < s.len() ==> s[k] != sep,
        done + split_spec(s.subrange(start, s.len() as int), sep) == split_spec(s, sep),
    ensures
        done.push(s.subrange(start, s.len() as int)) == split_spec(s, sep),
{
    reveal(split_spec);
    let rest = s.subrange(start, s.len() as int);
    assert(forall|k: int| 0 <= k < rest.len() ==> rest[k] == #[trigger] s[k + start]);
    if exists|k: int| 0 <= k < rest.len() && rest[k] == sep {
        let w = choose|k: int| 0 <= k < rest.len() && rest[k] == sep;
        assert(rest[w] == s[w + start]);
        assert(false);
    }
    assert(split_spec(rest, sep) == seq![rest]);
    assert(done.push(rest) =~= done + seq![rest]);
}

/// Splits on a separator character; the piece list is never empty.
#[verifier::rlimit(50)]
pub fn split_char(s: &str, sep: char) -> (r: Vec<String>)
    ensures
        r.deep_view() == split_spec(s@, sep),
        r.len() >= 1,
{
    let len = s.unicode_len();
    let mut out: Vec<String> = Vec::new();
    let mut start: usize = 0;
    let mut i: usize = 0;
    proof {
        assert(s@.subrange(0, s@.len() as int) =~= s@);
    }
    while i < len
        invariant
            0 <= start <= i <= len == s@.len(),
            forall|k: int| start <= k < i ==> s@[k] != sep,
            out.deep_view() + split_spec(s@.subrange(start as int, len as int), sep) == split_spec(
                s@,
                sep,
            ),
        decreases len - i,
    {
        let c = s.get_char(i);
        if c == sep {
            let piece = s.substring_char(start, i);
            let piece_string = piece.to_owned();
            let ghost old_out = out.deep_view();
            proof {
                lemma_split_advance(s@, sep, old_out, start as int, i as int);
            }
            out.push(piece_string);
            proof {
                assert(out.deep_view() =~= old_out.push(s@.subrange(start as int, i as int)));
            }
            start = i + 1;
        }
        i = i + 1;
    }
    let piece = s.substring_char(start, len);
    let piece_string = piece.to_owned();
    let ghost old_out = out.deep_view();
    proof {
        lemma_split_last(s@, sep, old_out, start as int);
    }
    out.push(piece_string);
    proof {
        assert(out.deep_view() =~= old_out.push(s@.subrange(start as int, len as int)));
    }
    out
}

/// The lower-case form of an ASCII letter; other characters unchanged.
pub open spec fn lower(c: char) -> char {
    if 'A' <= c && c <= 'Z' {
        (((c as int) + 32) as u8) as char
    } else {
        c
    }
}

/// Case-insensitive comparison against an ASCII keyword.
pub fn eq_ignore_case(s: &str, kw: &str) -> (r: bool)
    ensures
        r == (s@.map_values(|c: char| lower(c)) == kw@.map_values(|c: char| lower(c))),
{
    let sl = s.unicode_len();
    let kl = kw.unicode_len();
    if sl != kl {
        proof {
            assert(s@.map_values(|c: char| lower(c)).len() == sl);
            assert(kw@.map_values(|c: char| lower(c)).len() == kl);
        }
        return false;
    }
    let mut i: usize = 0;
    while i < sl
        invariant
            0 <= i <= sl == s@.len(),
            sl == kw@.len(),
            forall|k: int| 0 <= k < i ==> lower(s@[k]) == lower(kw@[k]),
        decreases sl - i,
    {
        let a = s.get_char(i);
        let b = kw.get_char(i);
        proof {
            assert('A' as int == 65 && 'Z' as int == 90);
        }
        let la = if a >= 'A' && a <= 'Z' {
            (((a as u32) + 32) as u8) as char
        } else {
            a
        };
        let lb = if b >= 'A' && b <= 'Z' {
            (((b as u32) + 32) as u8) as char
        } else {
            b
        };
        if la != lb {
            proof {
                assert(la == lower(s@[i as int]));
                assert(lb == lower(kw@[i as int]));
                assert(s@.map_values(|c: char| lower(c))[i as int] == lower(s@[i as int]));
                assert(kw@.map_values(|c: char| lower(c))[i as int] == lower(kw@[i as int]));
            }
            return false;
        }
        i = i + 1;
    }
    proof {
        assert(s@.map_values(|c: char| lower(c)) =~= kw@.map_values(|c: char| lower(c)));
    }
    true
}

} // verus!
