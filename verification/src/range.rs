use vstd::prelude::*;

use crate::ipset::IpSet;
use crate::net::{IpAddress, Ipv4Net};

verus! {

/// An inclusive interval of IPv4 addresses under the u32 ordering.
#[derive(Debug, Clone, Copy, PartialEq, Eq, Structural, Hash)]
pub struct Ipv4Range {
    pub start_addr: u32,
    pub end_addr: u32,
}

impl Ipv4Range {
    pub open spec fn wf(self) -> bool {
        self.start_addr <= self.end_addr
    }

    /// Builds the interval between the two bounds, whichever order they
    /// come in.
    pub fn new(start: u32, end: u32) -> (r: Ipv4Range)
        ensures
            r.wf(),
            r.start_addr == if start <= end {
                start
            } else {
                end
            },
            r.end_addr == if start <= end {
                end
            } else {
                start
            },
    {
        if start <= end {
            Ipv4Range { start_addr: start, end_addr: end }
        } else {
            Ipv4Range { start_addr: end, end_addr: start }
        }
    }

    pub open spec fn spec_contains(self, ip: u32) -> bool {
        self.start_addr <= ip <= self.end_addr
    }

    pub fn contains(&self, ip: u32) -> (r: bool)
        ensures
            r == self.spec_contains(ip),
    {
        self.start_addr <= ip && ip <= self.end_addr
    }

    /// How many addresses the interval holds.
    pub open spec fn spec_len(self) -> int {
        if self.wf() {
            self.end_addr - self.start_addr + 1
        } else {
            0
        }
    }

    pub fn len(&self) -> (r: u64)
        ensures
            r == self.spec_len(),
    {
        if self.end_addr >= self.start_addr {
            (self.end_addr as u64) - (self.start_addr as u64) + 1
        } else {
            0
        }
    }

    pub fn is_empty(&self) -> (r: bool)
        ensures
            r == (self.spec_len() == 0),
    {
        self.end_addr < self.start_addr
    }

    /// The k-th address of the interval, counting from the start.
    pub fn nth(&self, k: u64) -> (r: u32)
        requires
            k < self.spec_len(),
        ensures
            r == self.start_addr + k,
    {
        ((self.start_addr as u64) + k) as u32
    }
}

/// The interval spanned by a CIDR block, or None when the prefix is over 32.
pub fn cidr_range(ip: u32, prefix: u8) -> (r: Option<Ipv4Range>)
    ensures
        r is Some <==> prefix <= 32,
        r is Some ==> {
            let net = (Ipv4Net { ip, prefix });
            &&& r->0.wf()
            &&& r->0.start_addr == net.spec_network()
            &&& r->0.end_addr == net.spec_broadcast()
        },
{
    match Ipv4Net::new(ip, prefix) {
        Some(net) => {
            let start = net.network();
            let end = net.broadcast();
            proof {
                crate::net::lemma_pow2_int_bound((32 - prefix) as nat);
            }
            Some(Ipv4Range { start_addr: start, end_addr: end })
        },
        None => None,
    }
}

/// Whether some interval of the list holds the address.
pub open spec fn covers(rs: Seq<Ipv4Range>, v: u32) -> bool {
    exists|i: int| 0 <= i < rs.len() && (#[trigger] rs[i]).spec_contains(v)
}

pub open spec fn all_ranges_wf(rs: Seq<Ipv4Range>) -> bool {
    forall|i: int| 0 <= i < rs.len() ==> (#[trigger] rs[i]).wf()
}

/// Sorted by start with a gap between neighbours: no two intervals
/// overlap or abut.
pub open spec fn ranges_separated(rs: Seq<Ipv4Range>) -> bool {
    &&& all_ranges_wf(rs)
    &&& forall|i: int|
        0 <= i < rs.len() - 1 ==> (#[trigger] rs[i]).end_addr + 1 < rs[i + 1].start_addr
}

pub proof fn lemma_separated_pairwise(rs: Seq<Ipv4Range>, i: int, j: int)
    requires
        ranges_separated(rs),
        0 <= i < j < rs.len(),
    ensures
        rs[i].end_addr + 1 < rs[j].start_addr,
    decreases j - i,
{
    if i + 1 < j {
        lemma_separated_pairwise(rs, i, j - 1);
        assert(rs[j - 1].end_addr + 1 < rs[j].start_addr);
    }
}

/// Coverage over a prefix extended by one interval.
pub proof fn lemma_covers_prefix_push(rs: Seq<Ipv4Range>, i: int, v: u32)
    requires
        0 <= i < rs.len(),
    ensures
        covers(rs.subrange(0, i + 1), v) <==> covers(rs.subrange(0, i), v) || rs[i].spec_contains(
            v,
        ),
{
    let a = rs.subrange(0, i);
    let b = rs.subrange(0, i + 1);
    if covers(b, v) {
        let w = choose|w: int| 0 <= w < b.len() && (#[trigger] b[w]).spec_contains(v);
        if w < i {
            assert(a[w].spec_contains(v));
        } else {
            assert(b[i] == rs[i]);
        }
    }
    if covers(a, v) {
        let w = choose|w: int| 0 <= w < a.len() && (#[trigger] a[w]).spec_contains(v);
        assert(b[w].spec_contains(v));
    }
    if rs[i].spec_contains(v) {
        assert(b[i].spec_contains(v));
    }
}

/// The shared hypotheses of the splice lemmas: the window [lo, hi) of a
/// separated list is everything that overlaps or abuts `r`, and `res` is
/// the list with that window replaced by the one merged interval.
pub open spec fn splice_shape(
    orig: Seq<Ipv4Range>,
    r: Ipv4Range,
    lo: int,
    hi: int,
    merged: Ipv4Range,
    res: Seq<Ipv4Range>,
) -> bool {
    &&& ranges_separated(orig)
    &&& r.wf()
    &&& 0 <= lo <= hi <= orig.len()
    &&& (forall|k: int| 0 <= k < lo ==> (#[trigger] orig[k]).end_addr + 1 < r.start_addr)
    &&& (forall|k: int| lo <= k < hi ==> (#[trigger] orig[k]).start_addr <= r.end_addr + 1)
    &&& (lo < orig.len() ==> orig[lo].end_addr + 1 >= r.start_addr)
    &&& (hi < orig.len() ==> orig[hi].start_addr > r.end_addr + 1)
    &&& merged.start_addr == if lo < hi && orig[lo].start_addr < r.start_addr {
        orig[lo].start_addr
    } else {
        r.start_addr
    }
    &&& merged.end_addr == if lo < hi && orig[hi - 1].end_addr > r.end_addr {
        orig[hi - 1].end_addr
    } else {
        r.end_addr
    }
    &&& res == (orig.subrange(0, lo) + orig.subrange(hi, orig.len() as int)).insert(lo, merged)
}

/// How the spliced list reads back, index by index.
#[verifier::rlimit(60)]
proof fn lemma_splice_index(
    orig: Seq<Ipv4Range>,
    r: Ipv4Range,
    lo: int,
    hi: int,
    merged: Ipv4Range,
    res: Seq<Ipv4Range>,
)
    requires
        splice_shape(orig, r, lo, hi, merged, res),
    ensures
        res.len() == orig.len() - (hi - lo) + 1,
        forall|k: int| 0 <= k < lo ==> res[k] == #[trigger] orig[k],
        res[lo] == merged,
        forall|k: int| lo < k < res.len() ==> res[k] == #[trigger] orig[k + (hi - lo) - 1],
        merged.wf(),
        merged.start_addr <= r.start_addr && r.end_addr <= merged.end_addr,
        lo < hi ==> merged.start_addr <= orig[lo].start_addr && orig[hi - 1].end_addr
            <= merged.end_addr,
{
    let n = orig.len() as int;
    let pre = orig.subrange(0, lo) + orig.subrange(hi, n);
    assert(res == pre.insert(lo, merged));
    assert(res.len() == n - (hi - lo) + 1);
}

/// Splicing keeps the list separated.
#[verifier::rlimit(100)]
proof fn lemma_splice_separated(
    orig: Seq<Ipv4Range>,
    r: Ipv4Range,
    lo: int,
    hi: int,
    merged: Ipv4Range,
    res: Seq<Ipv4Range>,
)
    requires
        splice_shape(orig, r, lo, hi, merged, res),
    ensures
        ranges_separated(res),
{
    lemma_splice_index(orig, r, lo, hi, merged, res);
    assert forall|k: int| 0 <= k < res.len() - 1 implies (#[trigger] res[k]).end_addr + 1
        < res[k + 1].start_addr by {
        if k + 1 < lo {
            assert(orig[k].end_addr + 1 < orig[k + 1].start_addr);
        } else if k + 1 == lo {
            assert(orig[k].end_addr + 1 < r.start_addr);
            if lo < hi {
                assert(orig[k].end_addr + 1 < orig[lo].start_addr);
            }
        } else if k == lo {
            let nx = orig[hi];
            assert(res[k + 1] == nx);
            assert(r.end_addr + 1 < nx.start_addr);
            if lo < hi {
                lemma_separated_pairwise(orig, hi - 1, hi);
            }
        } else {
            let a = k + (hi - lo) - 1;
            assert(orig[a].end_addr + 1 < orig[a + 1].start_addr);
        }
    }
    assert(all_ranges_wf(res)) by {
        assert forall|k: int| 0 <= k < res.len() implies (#[trigger] res[k]).wf() by {
            if k < lo {
                assert(orig[k].wf());
            } else if k > lo {
                assert(orig[k + (hi - lo) - 1].wf());
            }
        }
    }
}

/// Splicing covers exactly the union of the old list and `r`.
#[verifier::rlimit(100)]
proof fn lemma_splice_covers(
    orig: Seq<Ipv4Range>,
    r: Ipv4Range,
    lo: int,
    hi: int,
    merged: Ipv4Range,
    res: Seq<Ipv4Range>,
)
    requires
        splice_shape(orig, r, lo, hi, merged, res),
    ensures
        forall|v: u32| #[trigger] covers(res, v) <==> covers(orig, v) || r.spec_contains(v),
{
    lemma_splice_index(orig, r, lo, hi, merged, res);
    assert forall|v: u32| #[trigger] covers(res, v) <==> covers(orig, v) || r.spec_contains(
        v,
    ) by {
        if covers(res, v) {
            let w = choose|w: int| 0 <= w < res.len() && (#[trigger] res[w]).spec_contains(v);
            if w < lo {
                assert(orig[w].spec_contains(v));
            } else if w > lo {
                assert(orig[w + (hi - lo) - 1].spec_contains(v));
            } else {
                // v lies inside the merged interval
                if v < r.start_addr {
                    // below r the merged interval begins at orig[lo]
                    assert(lo < hi);
                    assert(orig[lo].start_addr <= v);
                    assert(v + 1 <= r.start_addr <= orig[lo].end_addr + 1);
                    assert(orig[lo].spec_contains(v));
                } else if v > r.end_addr {
                    assert(lo < hi);
                    assert(v <= orig[hi - 1].end_addr);
                    assert(orig[hi - 1].start_addr <= r.end_addr + 1 <= v);
                    assert(orig[hi - 1].spec_contains(v));
                } else {
                    assert(r.spec_contains(v));
                }
            }
        }
        if covers(orig, v) {
            let w = choose|w: int| 0 <= w < orig.len() && (#[trigger] orig[w]).spec_contains(v);
            if w < lo {
                assert(res[w].spec_contains(v));
            } else if w >= hi {
                assert(res[w - (hi - lo) + 1] == orig[w]);
                assert(res[w - (hi - lo) + 1].spec_contains(v));
            } else {
                // the window is swallowed by the merged interval
                assert(lo < hi);
                assert(orig[lo].start_addr <= orig[w].start_addr) by {
                    if lo < w {
                        lemma_separated_pairwise(orig, lo, w);
                    }
                }
                assert(orig[w].end_addr <= orig[hi - 1].end_addr) by {
                    if w < hi - 1 {
                        lemma_separated_pairwise(orig, w, hi - 1);
                    }
                }
                assert(res[lo].spec_contains(v));
            }
        }
        if r.spec_contains(v) {
            assert(res[lo].spec_contains(v));
        }
    }
}

/// Merges one interval into a separated list, keeping it separated and
/// covering exactly the union.
#[verifier::rlimit(100)]
fn insert_range(acc: &mut Vec<Ipv4Range>, r: Ipv4Range)
    requires
        ranges_separated(old(acc)@),
        r.wf(),
    ensures
        ranges_separated(final(acc)@),
        forall|v: u32|
            (#[trigger] covers(final(acc)@, v)) <==> covers(old(acc)@, v) || r.spec_contains(v),
{
    let ghost orig = acc@;
    let n = acc.len();
    // Skip the intervals that end strictly before r, with a gap.
    let mut lo: usize = 0;
    while lo < n && (acc[lo].end_addr as u64) + 1 < (r.start_addr as u64)
        invariant
            0 <= lo <= n == acc@.len(),
            acc@ == orig,
            forall|k: int| 0 <= k < lo ==> (#[trigger] orig[k]).end_addr + 1 < r.start_addr,
        decreases n - lo,
    {
        lo = lo + 1;
    }
    // Take in every interval that starts at or before the position just
    // after r.
    let mut hi: usize = lo;
    while hi < n && (acc[hi].start_addr as u64) <= (r.end_addr as u64) + 1
        invariant
            lo <= hi <= n == acc@.len(),
            acc@ == orig,
            forall|k: int| lo <= k < hi ==> (#[trigger] orig[k]).start_addr <= r.end_addr + 1,
        decreases n - hi,
    {
        hi = hi + 1;
    }
    let merged_start: u32 = if lo < hi && acc[lo].start_addr < r.start_addr {
        acc[lo].start_addr
    } else {
        r.start_addr
    };
    let merged_end: u32 = if lo < hi && acc[hi - 1].end_addr > r.end_addr {
        acc[hi - 1].end_addr
    } else {
        r.end_addr
    };
    let merged = Ipv4Range { start_addr: merged_start, end_addr: merged_end };
    // Splice: drop the window [lo, hi) and put the merged interval there.
    let mut c: usize = hi - lo;
    while c > 0
        invariant
            0 <= c <= hi - lo,
            lo <= hi <= n == orig.len(),
            acc@ =~= orig.subrange(0, lo as int) + orig.subrange((hi - c) as int, n as int),
        decreases c,
    {
        let ghost before = acc@;
        acc.remove(lo);
        proof {
            assert(acc@ =~= orig.subrange(0, lo as int) + orig.subrange(
                (hi - c + 1) as int,
                n as int,
            )) by {
                assert(acc@ =~= before.remove(lo as int));
            }
        }
        c = c - 1;
    }
    acc.insert(lo, merged);
    proof {
        assert(acc@ =~= (orig.subrange(0, lo as int) + orig.subrange(hi as int, n as int)).insert(
            lo as int,
            merged,
        ));
        assert(splice_shape(orig, r, lo as int, hi as int, merged, acc@));
        lemma_splice_separated(orig, r, lo as int, hi as int, merged, acc@);
        lemma_splice_covers(orig, r, lo as int, hi as int, merged, acc@);
    }
}

/// One single folded in: an IPv4 single extends the covered set by that
/// one address; an IPv6 single moves to the kept set.
proof fn lemma_fold_step(
    r0: Seq<Ipv4Range>,
    s0: Seq<IpAddress>,
    j: int,
    acc_before: Seq<Ipv4Range>,
    acc_after: Seq<Ipv4Range>,
    kept_before: Seq<IpAddress>,
    kept_after: Seq<IpAddress>,
)
    requires
        0 <= j < s0.len(),
        forall|v: u32| #[trigger]
            covers(acc_before, v) <==> covers(r0, v) || s0.subrange(0, j).contains(
                IpAddress::V4(v),
            ),
        forall|x: IpAddress| #[trigger]
            kept_before.contains(x) <==> x is V6 && s0.subrange(0, j).contains(x),
        s0[j] is V4 ==> kept_after == kept_before && (forall|v: u32| #[trigger]
            covers(acc_after, v) <==> covers(acc_before, v) || v == s0[j]->V4_0),
        s0[j] is V6 ==> acc_after == acc_before && (forall|x: IpAddress| #[trigger]
            kept_after.contains(x) <==> kept_before.contains(x) || x == s0[j]),
    ensures
        forall|v: u32| #[trigger]
            covers(acc_after, v) <==> covers(r0, v) || s0.subrange(0, j + 1).contains(
                IpAddress::V4(v),
            ),
        forall|x: IpAddress| #[trigger]
            kept_after.contains(x) <==> x is V6 && s0.subrange(0, j + 1).contains(x),
{
    let sub0 = s0.subrange(0, j);
    let sub1 = s0.subrange(0, j + 1);
    assert(forall|k: int| 0 <= k < j ==> sub1[k] == #[trigger] sub0[k]);
    assert(sub1[j] == s0[j]);
    assert forall|x: IpAddress| #[trigger] sub1.contains(x) <==> sub0.contains(x) || x
        == s0[j] by {
        if sub1.contains(x) {
            let w = choose|w: int| 0 <= w < sub1.len() && #[trigger] sub1[w] == x;
            if w < j {
                assert(sub0[w] == x);
            }
        }
        if sub0.contains(x) {
            let w = choose|w: int| 0 <= w < sub0.len() && #[trigger] sub0[w] == x;
            assert(sub1[w] == x);
        }
        if x == s0[j] {
            assert(sub1[j] == x);
        }
    }
    assert forall|v: u32| #[trigger] covers(acc_after, v) <==> covers(r0, v) || sub1.contains(
        IpAddress::V4(v),
    ) by {
        assert(sub1.contains(IpAddress::V4(v)) <==> sub0.contains(IpAddress::V4(v))
            || IpAddress::V4(v) == s0[j]);
        assert(covers(acc_before, v) <==> covers(r0, v) || sub0.contains(IpAddress::V4(v)));
        if s0[j] is V4 {
            assert(covers(acc_after, v) <==> covers(acc_before, v) || v == s0[j]->V4_0);
            assert(IpAddress::V4(v) == s0[j] <==> v == s0[j]->V4_0);
        } else {
            assert(acc_after == acc_before);
            assert(IpAddress::V4(v) != s0[j]);
        }
    }
    assert forall|x: IpAddress| #[trigger] kept_after.contains(x) <==> x is V6 && sub1.contains(
        x,
    ) by {
        assert(sub1.contains(x) <==> sub0.contains(x) || x == s0[j]);
        assert(kept_before.contains(x) <==> x is V6 && sub0.contains(x));
        if s0[j] is V6 {
            assert(kept_after.contains(x) <==> kept_before.contains(x) || x == s0[j]);
        } else {
            assert(kept_after == kept_before);
            assert(!(x is V6 && x == s0[j]));
        }
    }
}

/// The sum of the interval sizes.
pub open spec fn ranges_size_sum(rs: Seq<Ipv4Range>) -> int
    decreases rs.len(),
{
    if rs.len() == 0 {
        0
    } else {
        ranges_size_sum(rs.drop_last()) + rs.last().spec_len()
    }
}

proof fn lemma_ranges_size_sum_nonneg(rs: Seq<Ipv4Range>)
    ensures
        ranges_size_sum(rs) >= 0,
    decreases rs.len(),
{
    if rs.len() > 0 {
        lemma_ranges_size_sum_nonneg(rs.drop_last());
    }
}

proof fn lemma_ranges_size_sum_prefix(rs: Seq<Ipv4Range>, k: int)
    requires
        0 <= k <= rs.len(),
    ensures
        ranges_size_sum(rs.subrange(0, k)) <= ranges_size_sum(rs),
    decreases rs.len() - k,
{
    if k < rs.len() {
        lemma_ranges_size_sum_prefix(rs, k + 1);
        let b = rs.subrange(0, k + 1);
        assert(b.drop_last() =~= rs.subrange(0, k));
        assert(b.last() == rs[k]);
        assert(rs[k].spec_len() >= 0);
    } else {
        assert(rs.subrange(0, k) =~= rs);
    }
}

pub open spec fn cap_u64(x: int) -> int {
    if x > u64::MAX {
        u64::MAX as int
    } else {
        x
    }
}

/// The mixed list of intervals and single addresses a scan aims at.
///
/// Singles of either family sit in an ordered set; intervals are IPv4
/// only. `compact` folds IPv4 singles into the intervals and merges
/// everything that touches.
#[derive(Debug)]
pub struct IpCollection {
    pub ranges: Vec<Ipv4Range>,
    pub singles: IpSet,
}

impl IpCollection {
    pub open spec fn wf(&self) -> bool {
        &&& self.singles.wf()
        &&& all_ranges_wf(self.ranges@)
    }

    /// Membership: a single, or an IPv4 address inside some interval.
    pub open spec fn spec_contains(&self, ip: IpAddress) -> bool {
        self.singles@.contains(ip) || (ip is V4 && covers(self.ranges@, ip->V4_0))
    }

    /// The size counted as the interval sizes summed (with multiplicity)
    /// plus the singles.
    pub open spec fn size(&self) -> int {
        ranges_size_sum(self.ranges@) + self.singles@.len()
    }

    pub fn new() -> (c: IpCollection)
        ensures
            c.wf(),
            c.ranges@ =~= Seq::<Ipv4Range>::empty(),
            c.singles@ =~= Seq::<IpAddress>::empty(),
    {
        IpCollection { ranges: Vec::new(), singles: IpSet::new() }
    }

    pub fn add_single(&mut self, ip: IpAddress)
        requires
            old(self).wf(),
        ensures
            final(self).wf(),
            final(self).ranges@ == old(self).ranges@,
            forall|x: IpAddress|
                final(self).singles@.contains(x) <==> old(self).singles@.contains(x) || x == ip,
            forall|x: IpAddress|
                final(self).spec_contains(x) <==> old(self).spec_contains(x) || x == ip,
    {
        self.singles.insert(ip);
    }

    pub fn add_range(&mut self, range: Ipv4Range)
        requires
            old(self).wf(),
            range.wf(),
        ensures
            final(self).wf(),
            final(self).ranges@ == old(self).ranges@.push(range),
            final(self).singles@ == old(self).singles@,
            forall|x: IpAddress|
                final(self).spec_contains(x) <==> old(self).spec_contains(x) || (x is V4
                    && range.spec_contains(x->V4_0)),
    {
        self.ranges.push(range);
        proof {
            assert(all_ranges_wf(self.ranges@)) by {
                assert(forall|i: int|
                    0 <= i < self.ranges@.len() - 1 ==> self.ranges@[i] == #[trigger] old(
                        self,
                    ).ranges@[i]);
            }
            assert forall|x: IpAddress| self.spec_contains(x) <==> old(self).spec_contains(x) || (
            x is V4 && range.spec_contains(x->V4_0)) by {
                lemma_covers_prefix_push(self.ranges@, self.ranges@.len() - 1, x->V4_0);
                assert(self.ranges@.subrange(0, self.ranges@.len() - 1) =~= old(self).ranges@);
                assert(self.ranges@.subrange(0, self.ranges@.len() as int) =~= self.ranges@);
            }
        }
    }

    /// Takes every interval and single of `other` in.
    pub fn extend(&mut self, other: IpCollection)
        requires
            old(self).wf(),
            other.wf(),
        ensures
            final(self).wf(),
            forall|x: IpAddress|
                final(self).spec_contains(x) <==> old(self).spec_contains(x)
                    || other.spec_contains(x),
    {
        let n = other.ranges.len();
        let mut i: usize = 0;
        while i < n
            invariant
                0 <= i <= n == other.ranges@.len(),
                self.wf(),
                other.wf(),
                self.singles@ == old(self).singles@,
                forall|x: IpAddress|
                    self.spec_contains(x) <==> old(self).spec_contains(x) || (x is V4 && covers(
                        other.ranges@.subrange(0, i as int),
                        x->V4_0,
                    )),
            decreases n - i,
        {
            let r = other.ranges[i];
            self.add_range(r);
            proof {
                assert forall|x: IpAddress| self.spec_contains(x) <==> old(self).spec_contains(x)
                    || (x is V4 && covers(other.ranges@.subrange(0, (i + 1) as int), x->V4_0)) by {
                    lemma_covers_prefix_push(other.ranges@.subrange(0, (i + 1) as int), i as int, x->V4_0);
                    assert(other.ranges@.subrange(0, (i + 1) as int).subrange(0, i as int) =~= other
                        .ranges@.subrange(0, i as int));
                    assert(other.ranges@.subrange(0, (i + 1) as int).subrange(
                        0,
                        (i + 1) as int,
                    ) =~= other.ranges@.subrange(0, (i + 1) as int));
                    assert(other.ranges@.subrange(0, (i + 1) as int)[i as int] == r);
                }
            }
            i = i + 1;
        }
        proof {
            assert(other.ranges@.subrange(0, n as int) =~= other.ranges@);
        }
        let m = other.singles.len();
        let mut j: usize = 0;
        while j < m
            invariant
                0 <= j <= m == other.singles@.len(),
                self.wf(),
                forall|x: IpAddress|
                    self.spec_contains(x) <==> old(self).spec_contains(x) || (x is V4 && covers(
                        other.ranges@,
                        x->V4_0,
                    )) || other.singles@.subrange(0, j as int).contains(x),
            decreases m - j,
        {
            let ip = other.singles.get(j);
            self.add_single(ip);
            proof {
                let sub1 = other.singles@.subrange(0, (j + 1) as int);
                assert(forall|k: int|
                    0 <= k < j ==> sub1[k] == #[trigger] other.singles@.subrange(0, j as int)[k]);
                assert(sub1[j as int] == ip);
                assert forall|x: IpAddress| sub1.contains(x) implies other.singles@.subrange(
                    0,
                    j as int,
                ).contains(x) || x == ip by {
                    let w = choose|w: int| 0 <= w < sub1.len() && #[trigger] sub1[w] == x;
                    if w < j {
                        assert(other.singles@.subrange(0, j as int)[w] == x);
                    }
                }
                assert(forall|x: IpAddress|
                    (other.singles@.subrange(0, j as int).contains(x) || x == ip)
                        ==> sub1.contains(x)) by {
                    assert(forall|w: int|
                        0 <= w < j ==> other.singles@.subrange(0, j as int)[w]
                            == #[trigger] sub1[w]);
                }
            }
            j = j + 1;
        }
        proof {
            assert(other.singles@.subrange(0, m as int) =~= other.singles@);
            assert forall|x: IpAddress| final(self).spec_contains(x) <==> old(
                self,
            ).spec_contains(x) || other.spec_contains(x) by {
            }
        }
    }

    pub fn len(&self) -> (r: u64)
        ensures
            r == cap_u64(self.size()),
    {
        let n = self.ranges.len();
        let mut acc: u64 = 0;
        let mut i: usize = 0;
        proof {
            assert(self.ranges@.subrange(0, 0) =~= Seq::<Ipv4Range>::empty());
        }
        while i < n
            invariant
                0 <= i <= n == self.ranges@.len(),
                acc == cap_u64(ranges_size_sum(self.ranges@.subrange(0, i as int))),
            decreases n - i,
        {
            let rl: u64 = self.ranges[i].len();
            proof {
                let a = self.ranges@.subrange(0, i as int);
                let b = self.ranges@.subrange(0, (i + 1) as int);
                assert(b.drop_last() =~= a);
                assert(b.last() == self.ranges@[i as int]);
                lemma_ranges_size_sum_nonneg(a);
            }
            if rl > u64::MAX - acc {
                acc = u64::MAX;
            } else {
                acc = acc + rl;
            }
            i = i + 1;
        }
        proof {
            assert(self.ranges@.subrange(0, n as int) =~= self.ranges@);
            lemma_ranges_size_sum_nonneg(self.ranges@);
        }
        let s: usize = self.singles.len();
        if (s as u64) > u64::MAX - acc {
            u64::MAX
        } else {
            acc + (s as u64)
        }
    }

    pub fn is_empty(&self) -> (r: bool)
        ensures
            r == (self.ranges@.len() == 0 && self.singles@.len() == 0),
    {
        self.ranges.len() == 0 && self.singles.len() == 0
    }

    pub fn contains(&self, ip: &IpAddress) -> (r: bool)
        ensures
            r == self.spec_contains(*ip),
    {
        if self.singles.contains(ip) {
            return true;
        }
        match *ip {
            IpAddress::V4(v) => {
                let n = self.ranges.len();
                let mut i: usize = 0;
                while i < n
                    invariant
                        0 <= i <= n == self.ranges@.len(),
                        *ip == IpAddress::V4(v),
                        forall|k: int|
                            0 <= k < i ==> !(#[trigger] self.ranges@[k]).spec_contains(v),
                    decreases n - i,
                {
                    if self.ranges[i].contains(v) {
                        proof {
                            assert(covers(self.ranges@, v)) by {
                                assert(self.ranges@[i as int].spec_contains(v));
                            }
                            assert((*ip)->V4_0 == v);
                        }
                        return true;
                    }
                    i = i + 1;
                }
                proof {
                    if covers(self.ranges@, v) {
                        let w = choose|w: int|
                            0 <= w < self.ranges@.len() && (
                            #[trigger] self.ranges@[w]).spec_contains(v);
                    }
                }
                false
            },
            IpAddress::V6(_) => false,
        }
    }

    /// One interval written out in ascending order.
    pub open spec fn spec_expand(r: Ipv4Range) -> Seq<IpAddress> {
        Seq::new(r.spec_len() as nat, |i: int| IpAddress::V4((r.start_addr + i) as u32))
    }

    /// Every interval of the list written out, in order.
    pub open spec fn spec_expand_all(rs: Seq<Ipv4Range>) -> Seq<IpAddress>
        decreases rs.len(),
    {
        if rs.len() == 0 {
            Seq::empty()
        } else {
            Self::spec_expand_all(rs.drop_last()) + Self::spec_expand(rs.last())
        }
    }

    /// The singles kept beside the intervals: those no interval
    /// covers, in order.
    pub open spec fn spec_kept_singles(singles: Seq<IpAddress>, rs: Seq<Ipv4Range>) -> Seq<
        IpAddress,
    >
        decreases singles.len(),
    {
        if singles.len() == 0 {
            Seq::empty()
        } else {
            let rest = Self::spec_kept_singles(singles.drop_last(), rs);
            let ip = singles.last();
            if ip is V4 && covers(rs, ip->V4_0) {
                rest
            } else {
                rest.push(ip)
            }
        }
    }

    proof fn lemma_expand_all_step(rs: Seq<Ipv4Range>, k: int)
        requires
            0 <= k < rs.len(),
        ensures
            Self::spec_expand_all(rs.subrange(0, k + 1)) == Self::spec_expand_all(
                rs.subrange(0, k),
            ) + Self::spec_expand(rs[k]),
    {
        let b = rs.subrange(0, k + 1);
        assert(b.drop_last() =~= rs.subrange(0, k));
        assert(b.last() == rs[k]);
    }

    proof fn lemma_kept_step(singles: Seq<IpAddress>, rs: Seq<Ipv4Range>, j: int)
        requires
            0 <= j < singles.len(),
        ensures
            Self::spec_kept_singles(singles.subrange(0, j + 1), rs) == ({
                let rest = Self::spec_kept_singles(singles.subrange(0, j), rs);
                if singles[j] is V4 && covers(rs, singles[j]->V4_0) {
                    rest
                } else {
                    rest.push(singles[j])
                }
            }),
    {
        let b = singles.subrange(0, j + 1);
        assert(b.drop_last() =~= singles.subrange(0, j));
        assert(b.last() == singles[j]);
    }

    /// Every targeted address, one element per address when the
    /// intervals are separated: the intervals expanded in order, then
    /// the singles that no interval already covers.
    #[verifier::rlimit(60)]
    pub fn addresses(&self) -> (r: Vec<IpAddress>)
        requires
            self.wf(),
            self.size() <= 0x1_0000_0000,
        ensures
            forall|x: IpAddress| r@.contains(x) <==> self.spec_contains(x),
            ranges_separated(self.ranges@) ==> r@.no_duplicates(),
            r@ == Self::spec_expand_all(self.ranges@) + Self::spec_kept_singles(
                self.singles@,
                self.ranges@,
            ),
    {
        let mut out: Vec<IpAddress> = Vec::new();
        let rn = self.ranges.len();
        let mut k: usize = 0;
        while k < rn
            invariant
                0 <= k <= rn == self.ranges@.len(),
                self.wf(),
                forall|x: IpAddress|
                    #[trigger] out@.contains(x) <==> x is V4 && covers(
                        self.ranges@.subrange(0, k as int),
                        x->V4_0,
                    ),
                ranges_separated(self.ranges@) ==> out@.no_duplicates(),
                out@ == Self::spec_expand_all(self.ranges@.subrange(0, k as int)),
            decreases rn - k,
        {
            let range = self.ranges[k];
            proof {
                assert(self.ranges@[k as int].wf());
            }
            let total = range.len();
            let mut off: u64 = 0;
            proof {
                assert(out@ =~= Self::spec_expand_all(self.ranges@.subrange(0, k as int))
                    + Self::spec_expand(range).subrange(0, 0));
            }
            while off < total
                invariant
                    0 <= off <= total == range.spec_len(),
                    range.wf(),
                    0 <= k < rn == self.ranges@.len(),
                    range == self.ranges@[k as int],
                    self.wf(),
                    forall|x: IpAddress|
                        #[trigger] out@.contains(x) <==> (x is V4 && covers(
                            self.ranges@.subrange(0, k as int),
                            x->V4_0,
                        )) || (x is V4 && range.start_addr <= x->V4_0 < range.start_addr + off),
                    ranges_separated(self.ranges@) ==> out@.no_duplicates(),
                    out@ == Self::spec_expand_all(self.ranges@.subrange(0, k as int))
                        + Self::spec_expand(range).subrange(0, off as int),
                decreases total - off,
            {
                let v = range.nth(off);
                let ghost pre = out@;
                proof {
                    if ranges_separated(self.ranges@) {
                        // every earlier interval ends before this one
                        // begins, so the address is new to the list
                        assert(!pre.contains(IpAddress::V4(v))) by {
                            if pre.contains(IpAddress::V4(v)) {
                                if covers(self.ranges@.subrange(0, k as int), v) {
                                    let w = choose|w: int|
                                        0 <= w < k && (#[trigger] self.ranges@.subrange(
                                            0,
                                            k as int,
                                        )[w]).spec_contains(v);
                                    lemma_separated_pairwise(self.ranges@, w, k as int);
                                }
                            }
                        }
                    }
                }
                out.push(IpAddress::V4(v));
                proof {
                    lemma_push_contains_ip(pre, IpAddress::V4(v), out@);
                    if ranges_separated(self.ranges@) {
                        lemma_no_dup_push(pre, IpAddress::V4(v), out@);
                    }
                    let ex = Self::spec_expand(range);
                    assert(ex[off as int] == IpAddress::V4(v));
                    assert(ex.subrange(0, (off + 1) as int) =~= ex.subrange(
                        0,
                        off as int,
                    ).push(IpAddress::V4(v)));
                    assert(out@ =~= Self::spec_expand_all(self.ranges@.subrange(0, k as int))
                        + ex.subrange(0, (off + 1) as int));
                }
                off = off + 1;
            }
            proof {
                let a = self.ranges@.subrange(0, k as int);
                let b = self.ranges@.subrange(0, (k + 1) as int);
                assert forall|x: IpAddress| #[trigger] out@.contains(x) <==> x is V4 && covers(
                    b,
                    x->V4_0,
                ) by {
                    lemma_covers_prefix_push(b, k as int, x->V4_0);
                    assert(b.subrange(0, k as int) =~= a);
                    assert(b.subrange(0, (k + 1) as int) =~= b);
                    assert(b[k as int] == range);
                }
                let ex = Self::spec_expand(range);
                assert(ex.subrange(0, total as int) =~= ex);
                Self::lemma_expand_all_step(self.ranges@, k as int);
            }
            k = k + 1;
        }
        proof {
            assert(self.ranges@.subrange(0, rn as int) =~= self.ranges@);
        }
        let sn = self.singles.len();
        let mut j: usize = 0;
        proof {
            assert(out@ =~= Self::spec_expand_all(self.ranges@) + Self::spec_kept_singles(
                self.singles@.subrange(0, 0),
                self.ranges@,
            ));
        }
        while j < sn
            invariant
                0 <= j <= sn == self.singles@.len(),
                self.wf(),
                forall|x: IpAddress|
                    #[trigger] out@.contains(x) <==> (x is V4 && covers(self.ranges@, x->V4_0))
                        || self.singles@.subrange(0, j as int).contains(x),
                ranges_separated(self.ranges@) ==> out@.no_duplicates(),
                out@ == Self::spec_expand_all(self.ranges@) + Self::spec_kept_singles(
                    self.singles@.subrange(0, j as int),
                    self.ranges@,
                ),
            decreases sn - j,
        {
            let ip = self.singles.get(j);
            let ghost sub0 = self.singles@.subrange(0, j as int);
            let ghost sub1 = self.singles@.subrange(0, (j + 1) as int);
            proof {
                assert(forall|k2: int| 0 <= k2 < j ==> sub1[k2] == #[trigger] sub0[k2]);
                assert(sub1[j as int] == ip);
                assert forall|x: IpAddress| #[trigger] sub1.contains(x) <==> sub0.contains(x) || x
                    == ip by {
                    if sub1.contains(x) {
                        let w = choose|w: int| 0 <= w < sub1.len() && #[trigger] sub1[w] == x;
                        if w < j {
                            assert(sub0[w] == x);
                        }
                    }
                    if sub0.contains(x) {
                        let w = choose|w: int| 0 <= w < sub0.len() && #[trigger] sub0[w] == x;
                        assert(sub1[w] == x);
                    }
                    if x == ip {
                        assert(sub1[j as int] == x);
                    }
                }
            }
            // a single already inside an interval would repeat: skip it
            let mut covered = false;
            if let IpAddress::V4(v) = ip {
                let n2 = self.ranges.len();
                let mut i2: usize = 0;
                while i2 < n2
                    invariant
                        0 <= i2 <= n2 == self.ranges@.len(),
                        ip == IpAddress::V4(v),
                        covered ==> covers(self.ranges@, v),
                        !covered ==> forall|k2: int|
                            0 <= k2 < i2 ==> !(#[trigger] self.ranges@[k2]).spec_contains(v),
                    decreases n2 - i2,
                {
                    if self.ranges[i2].contains(v) {
                        covered = true;
                        i2 = n2;
                    } else {
                        i2 = i2 + 1;
                    }
                }
                proof {
                    if !covered && covers(self.ranges@, v) {
                        let w = choose|w: int|
                            0 <= w < self.ranges@.len() && (
                            #[trigger] self.ranges@[w]).spec_contains(v);
                    }
                }
            }
            let ghost kept0 = Self::spec_kept_singles(
                self.singles@.subrange(0, j as int),
                self.ranges@,
            );
            proof {
                Self::lemma_kept_step(self.singles@, self.ranges@, j as int);
            }
            if !covered {
                let ghost pre = out@;
                proof {
                    if ranges_separated(self.ranges@) {
                        // the single is neither covered nor an earlier
                        // single: the set is strictly sorted
                        assert(!pre.contains(ip)) by {
                            if pre.contains(ip) {
                                if self.singles@.subrange(0, j as int).contains(ip) {
                                    let w = choose|w: int|
                                        0 <= w < j && #[trigger] self.singles@.subrange(
                                            0,
                                            j as int,
                                        )[w] == ip;
                                    crate::ipset::lemma_ip_seq_sorted_lt(
                                        self.singles@,
                                        w,
                                        j as int,
                                    );
                                    crate::net::lemma_ip_lt_total(ip, ip);
                                }
                            }
                        }
                    }
                }
                out.push(ip);
                proof {
                    lemma_push_contains_ip(pre, ip, out@);
                    if ranges_separated(self.ranges@) {
                        lemma_no_dup_push(pre, ip, out@);
                    }
                    assert(!(ip is V4 && covers(self.ranges@, ip->V4_0)));
                    assert(out@ =~= Self::spec_expand_all(self.ranges@) + kept0.push(ip));
                }
            } else {
                proof {
                    assert(ip is V4 && covers(self.ranges@, ip->V4_0));
                }
            }
            j = j + 1;
        }
        proof {
            assert(self.singles@.subrange(0, sn as int) =~= self.singles@);
        }
        out
    }

    /// Merges overlapping and abutting intervals, sorts them, and folds
    /// every IPv4 single into the intervals. Membership is unchanged;
    /// afterwards the intervals are separated and only IPv6 singles
    /// remain.
    #[verifier::rlimit(100)]
    pub fn compact(&mut self)
        requires
            old(self).wf(),
        ensures
            final(self).wf(),
            ranges_separated(final(self).ranges@),
            forall|i: int|
                0 <= i < final(self).singles@.len() ==> (#[trigger] final(self).singles@[i]) is V6,
            forall|x: IpAddress| final(self).spec_contains(x) <==> old(self).spec_contains(x),
    {
        let ghost r0 = self.ranges@;
        let ghost s0 = self.singles@;
        let mut acc: Vec<Ipv4Range> = Vec::new();
        let n = self.ranges.len();
        let mut i: usize = 0;
        proof {
            assert(r0.subrange(0, 0) =~= Seq::<Ipv4Range>::empty());
        }
        while i < n
            invariant
                0 <= i <= n == r0.len(),
                self.ranges@ == r0,
                all_ranges_wf(r0),
                ranges_separated(acc@),
                forall|v: u32| covers(acc@, v) <==> covers(r0.subrange(0, i as int), v),
            decreases n - i,
        {
            let r = self.ranges[i];
            let ghost acc_before = acc@;
            insert_range(&mut acc, r);
            proof {
                assert forall|v: u32| covers(acc@, v) <==> covers(
                    r0.subrange(0, (i + 1) as int),
                    v,
                ) by {
                    assert(covers(acc@, v) <==> covers(acc_before, v) || r.spec_contains(v));
                    assert(covers(acc_before, v) <==> covers(r0.subrange(0, i as int), v));
                    lemma_covers_prefix_push(r0.subrange(0, (i + 1) as int), i as int, v);
                    assert(r0.subrange(0, (i + 1) as int).subrange(0, i as int) =~= r0.subrange(
                        0,
                        i as int,
                    ));
                    assert(r0.subrange(0, (i + 1) as int).subrange(0, (i + 1) as int) =~= r0
                        .subrange(0, (i + 1) as int));
                    assert(r0.subrange(0, (i + 1) as int)[i as int] == r);
                }
            }
            i = i + 1;
        }
        proof {
            assert(r0.subrange(0, n as int) =~= r0);
        }
        // Fold IPv4 singles into the intervals; keep IPv6 singles.
        let mut kept = IpSet::new();
        let m = self.singles.len();
        let mut j: usize = 0;
        while j < m
            invariant
                0 <= j <= m == s0.len(),
                self.singles@ == s0,
                self.singles.wf(),
                kept.wf(),
                ranges_separated(acc@),
                forall|v: u32| #[trigger]
                    covers(acc@, v) <==> covers(r0, v) || s0.subrange(0, j as int).contains(
                        IpAddress::V4(v),
                    ),
                forall|x: IpAddress| #[trigger]
                    kept@.contains(x) <==> x is V6 && s0.subrange(0, j as int).contains(x),
            decreases m - j,
        {
            let ip = self.singles.get(j);
            let ghost acc_before = acc@;
            let ghost kept_before = kept@;
            match ip {
                IpAddress::V4(v) => {
                    insert_range(&mut acc, Ipv4Range { start_addr: v, end_addr: v });
                    proof {
                        assert forall|w: u32| #[trigger] covers(acc@, w) <==> covers(
                            acc_before,
                            w,
                        ) || w == s0[j as int]->V4_0 by {
                            let rv = Ipv4Range { start_addr: v, end_addr: v };
                            assert(rv.spec_contains(w) <==> w == v);
                            assert(covers(acc@, w) <==> covers(acc_before, w) || rv.spec_contains(
                                w,
                            ));
                        }
                    }
                },
                IpAddress::V6(_) => {
                    kept.insert(ip);
                },
            }
            proof {
                lemma_fold_step(r0, s0, j as int, acc_before, acc@, kept_before, kept@);
            }
            j = j + 1;
        }
        self.ranges = acc;
        self.singles = kept;
        proof {
            assert(s0.subrange(0, m as int) =~= s0);
            assert forall|x: IpAddress| final(self).spec_contains(x) <==> old(
                self,
            ).spec_contains(x) by {
                match x {
                    IpAddress::V4(v) => {
                        assert(s0.subrange(0, m as int).contains(IpAddress::V4(v)) == s0.contains(
                            x,
                        ));
                        assert(covers(final(self).ranges@, v) <==> covers(r0, v) || s0.subrange(
                            0,
                            m as int,
                        ).contains(IpAddress::V4(v)));
                        assert(!final(self).singles@.contains(x));
                    },
                    IpAddress::V6(_) => {
                        assert(final(self).singles@.contains(x) <==> x is V6 && s0.subrange(
                            0,
                            m as int,
                        ).contains(x));
                    },
                }
            }
            assert forall|i2: int| 0 <= i2 < final(self).singles@.len() implies (
            #[trigger] final(self).singles@[i2]) is V6 by {
                assert(final(self).singles@.contains(final(self).singles@[i2]));
            }
        }
    }
}

/// Pushing a new element keeps a duplicate-free list duplicate-free.
proof fn lemma_no_dup_push(pre: Seq<IpAddress>, t: IpAddress, post: Seq<IpAddress>)
    requires
        pre.no_duplicates(),
        !pre.contains(t),
        post == pre.push(t),
    ensures
        post.no_duplicates(),
{
    assert forall|i: int, j: int|
        0 <= i < post.len() && 0 <= j < post.len() && i != j implies post[i] != post[j] by {
        if i < pre.len() && j < pre.len() {
            assert(post[i] == pre[i] && post[j] == pre[j]);
        } else if i < pre.len() {
            assert(post[j] == t && post[i] == pre[i]);
            if pre[i] == t {
                assert(pre.contains(t));
            }
        } else {
            assert(post[i] == t && post[j] == pre[j]);
            if pre[j] == t {
                assert(pre.contains(t));
            }
        }
    }
}

proof fn lemma_push_contains_ip(pre: Seq<IpAddress>, t: IpAddress, post: Seq<IpAddress>)
    requires
        post == pre.push(t),
    ensures
        forall|x: IpAddress| (#[trigger] post.contains(x)) <==> pre.contains(x) || x == t,
{
    assert forall|x: IpAddress| (#[trigger] post.contains(x)) <==> pre.contains(x) || x == t by {
        if post.contains(x) {
            let w = choose|w: int| 0 <= w < post.len() && #[trigger] post[w] == x;
            if w < pre.len() {
                assert(pre[w] == x);
            }
        }
        if pre.contains(x) {
            let w = choose|w: int| 0 <= w < pre.len() && #[trigger] pre[w] == x;
            assert(post[w] == x);
        }
        if x == t {
            assert(post[pre.len() as int] == x);
        }
    }
}

} // verus!
