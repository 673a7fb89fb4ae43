use vstd::prelude::*;

use crate::net::{ip_lt, lemma_ip_lt_total, lemma_ip_lt_trans, ip_less, IpAddress};

verus! {

/// Strictly increasing under the address order: sorted and free of
/// duplicates.
pub open spec fn ip_seq_sorted(s: Seq<IpAddress>) -> bool {
    forall|i: int| 0 <= i < s.len() - 1 ==> ip_lt(#[trigger] s[i], s[i + 1])
}

/// In a sorted sequence every earlier element is below every later one.
pub proof fn lemma_ip_seq_sorted_lt(s: Seq<IpAddress>, i: int, j: int)
    requires
        ip_seq_sorted(s),
        0 <= i < j < s.len(),
    ensures
        ip_lt(s[i], s[j]),
    decreases j - i,
{
    if i + 1 == j {
        assert(ip_lt(s[i], s[i + 1]));
    } else {
        lemma_ip_seq_sorted_lt(s, i, j - 1);
        assert(ip_lt(s[j - 1], s[j]));
        lemma_ip_lt_trans(s[i], s[j - 1], s[j]);
    }
}

/// An ordered set of IP addresses, kept as a strictly sorted vector.
/// Iteration order is the address order, IPv4 first.
#[derive(Debug)]
pub struct IpSet {
    items: Vec<IpAddress>,
}

impl View for IpSet {
    type V = Seq<IpAddress>;

    closed spec fn view(&self) -> Seq<IpAddress> {
        self.items@
    }
}

impl IpSet {
    pub open spec fn wf(&self) -> bool {
        ip_seq_sorted(self@)
    }

    pub fn new() -> (r: IpSet)
        ensures
            r@ =~= Seq::<IpAddress>::empty(),
            r.wf(),
    {
        IpSet { items: Vec::new() }
    }

    pub fn len(&self) -> (r: usize)
        ensures
            r == self@.len(),
    {
        self.items.len()
    }

    pub fn is_empty(&self) -> (r: bool)
        ensures
            r == (self@.len() == 0),
    {
        self.items.len() == 0
    }

    pub fn get(&self, i: usize) -> (r: IpAddress)
        requires
            i < self@.len(),
        ensures
            r == self@[i as int],
    {
        self.items[i]
    }

    /// The least member, when there is one.
    pub fn first(&self) -> (r: Option<IpAddress>)
        ensures
            r is Some <==> self@.len() > 0,
            r is Some ==> r->0 == self@[0],
    {
        if self.items.len() > 0 {
            Some(self.items[0])
        } else {
            None
        }
    }

    pub fn contains(&self, ip: &IpAddress) -> (r: bool)
        ensures
            r == self@.contains(*ip),
    {
        let n = self.items.len();
        let mut i: usize = 0;
        while i < n
            invariant
                0 <= i <= n == self@.len(),
                forall|k: int| 0 <= k < i ==> self@[k] != *ip,
            decreases n - i,
        {
            if self.items[i] == *ip {
                return true;
            }
            i = i + 1;
        }
        proof {
            if self@.contains(*ip) {
                let w = choose|w: int| 0 <= w < self@.len() && self@[w] == *ip;
                assert(self@[w] != *ip);
            }
        }
        false
    }

    /// Adds an address, keeping order; reports whether it was new.
    pub fn insert(&mut self, ip: IpAddress) -> (added: bool)
        requires
            old(self).wf(),
        ensures
            final(self).wf(),
            added == !old(self)@.contains(ip),
            forall|x: IpAddress|
                final(self)@.contains(x) <==> old(self)@.contains(x) || x == ip,
            final(self)@.contains(ip),
            added ==> final(self)@.len() == old(self)@.len() + 1,
            !added ==> final(self)@ == old(self)@,
    {
        let n = self.items.len();
        let mut idx: usize = 0;
        while idx < n && ip_less(&self.items[idx], &ip)
            invariant
                0 <= idx <= n == self@.len(),
                self@ == old(self)@,
                forall|k: int| 0 <= k < idx ==> ip_lt(#[trigger] self@[k], ip),
            decreases n - idx,
        {
            idx = idx + 1;
        }
        if idx < n && self.items[idx] == ip {
            proof {
                assert(self@.contains(ip)) by {
                    assert(self@[idx as int] == ip);
                }
            }
            return false;
        }
        proof {
            // ip is absent: everything before idx is below it, everything
            // from idx on is above it.
            lemma_ip_lt_total(self@[idx as int], ip);
            assert(forall|k: int| idx <= k < n ==> #[trigger] ip_lt(ip, self@[k])) by {
                assert forall|k: int| idx <= k < n implies #[trigger] ip_lt(ip, self@[k]) by {
                    if k > idx {
                        lemma_ip_seq_sorted_lt(self@, idx as int, k);
                        lemma_ip_lt_trans(ip, self@[idx as int], self@[k]);
                    }
                }
            }
            if old(self)@.contains(ip) {
                let w = choose|w: int| 0 <= w < old(self)@.len() && old(self)@[w] == ip;
                if w < idx {
                    lemma_ip_lt_total(ip, ip);
                } else {
                    assert(ip_lt(ip, self@[w]));
                    lemma_ip_lt_total(ip, ip);
                }
            }
        }
        let ghost pre = self@;
        self.items.insert(idx, ip);
        proof {
            assert(self@ == pre.insert(idx as int, ip));
            assert(forall|k: int| 0 <= k < idx ==> self@[k] == #[trigger] pre[k]);
            assert(self@[idx as int] == ip);
            assert(forall|k: int| idx < k < self@.len() ==> self@[k] == #[trigger] pre[k - 1]);
            assert(self.wf()) by {
                assert forall|k: int| 0 <= k < self@.len() - 1 implies ip_lt(
                    #[trigger] self@[k],
                    self@[k + 1],
                ) by {
                    if k + 1 < idx {
                        assert(ip_lt(pre[k], pre[k + 1]));
                    } else if k + 1 == idx {
                        assert(ip_lt(pre[k], ip));
                    } else if k == idx {
                        assert(ip_lt(ip, pre[k]));
                    } else {
                        assert(ip_lt(pre[k - 1], pre[k]));
                    }
                }
            }
            assert(forall|x: IpAddress| self@.contains(x) <==> pre.contains(x) || x == ip) by {
                assert forall|x: IpAddress| self@.contains(x) implies pre.contains(x) || x == ip by {
                    let w = choose|w: int| 0 <= w < self@.len() && self@[w] == x;
                    if w < idx {
                        assert(pre[w] == x);
                    } else if w > idx {
                        assert(pre[w - 1] == x);
                    }
                }
                assert forall|x: IpAddress| pre.contains(x) || x == ip implies self@.contains(
                    x,
                ) by {
                    if x == ip {
                        assert(self@[idx as int] == x);
                    } else {
                        let w = choose|w: int| 0 <= w < pre.len() && pre[w] == x;
                        if w < idx {
                            assert(self@[w] == x);
                        } else {
                            assert(self@[w + 1] == x);
                        }
                    }
                }
            }
        }
        true
    }

    /// The members as a vector, in order.
    pub fn to_vec(&self) -> (r: Vec<IpAddress>)
        ensures
            r@ == self@,
    {
        let n = self.items.len();
        let mut out: Vec<IpAddress> = Vec::new();
        let mut i: usize = 0;
        while i < n
            invariant
                0 <= i <= n == self@.len(),
                out@ =~= self@.subrange(0, i as int),
            decreases n - i,
        {
            let v = self.items[i];
            out.push(v);
            proof {
                assert(out@ =~= self@.subrange(0, (i + 1) as int));
            }
            i = i + 1;
        }
        proof {
            assert(out@ =~= self@);
        }
        out
    }

    /// Every member of `other`, added in turn.
    pub fn extend_from(&mut self, other: &IpSet)
        requires
            old(self).wf(),
        ensures
            final(self).wf(),
            forall|x: IpAddress|
                (#[trigger] final(self)@.contains(x)) <==> old(self)@.contains(x)
                    || other@.contains(x),
    {
        let n = other.len();
        let mut i: usize = 0;
        while i < n
            invariant
                0 <= i <= n == other@.len(),
                self.wf(),
                forall|x: IpAddress|
                    self@.contains(x) <==> old(self)@.contains(x) || other@.subrange(
                        0,
                        i as int,
                    ).contains(x),
            decreases n - i,
        {
            let ip = other.get(i);
            self.insert(ip);
            proof {
                assert(forall|k: int|
                    0 <= k < i ==> other@.subrange(0, (i + 1) as int)[k] == #[trigger] other
                        @.subrange(0, i as int)[k]);
                assert(other@.subrange(0, (i + 1) as int)[i as int] == ip);
                assert forall|x: IpAddress| self@.contains(x) implies old(self)@.contains(x)
                    || other@.subrange(0, (i + 1) as int).contains(x) by {
                    if !old(self)@.contains(x) {
                        if x == ip {
                            assert(other@.subrange(0, (i + 1) as int)[i as int] == x);
                        } else {
                            let w = choose|w: int|
                                0 <= w < i && other@.subrange(0, i as int)[w] == x;
                            assert(other@.subrange(0, (i + 1) as int)[w] == x);
                        }
                    }
                }
                assert forall|x: IpAddress| old(self)@.contains(x) || other@.subrange(
                    0,
                    (i + 1) as int,
                ).contains(x) implies self@.contains(x) by {
                    if other@.subrange(0, (i + 1) as int).contains(x) && !old(self)@.contains(x) {
                        let sub = other@.subrange(0, (i + 1) as int);
                        let w = choose|w: int| 0 <= w < sub.len() && #[trigger] sub[w] == x;
                        if w < i {
                            assert(other@.subrange(0, i as int)[w] == x);
                        }
                    }
                }
            }
            i = i + 1;
        }
        proof {
            assert(other@.subrange(0, n as int) =~= other@);
        }
    }
}

} // verus!
