use vstd::prelude::*;

use crate::config::Config;
use crate::iface::InterfaceBuckets;

verus! {

/// One scanner the orchestrator should run.
#[derive(Clone, Copy, PartialEq, Eq, Structural, Debug)]
pub enum ScanTask {
    /// Layer-two discovery on the interface at this index.
    Local(usize),
    /// SYN discovery on the interface at this index.
    Routed(usize),
    /// The unprivileged connect fallback, over the unmapped targets.
    Fallback,
}

/// What a discovery run should spawn.
#[derive(Debug)]
pub struct DiscoveryPlan {
    /// Whether raw-socket scanners run at all.
    pub privileged: bool,
    /// Whether the resolver pipeline runs beside the scanners.
    pub with_resolver: bool,
    pub tasks: Vec<ScanTask>,
}

/// Decides what to spawn. Without privileges everything goes to the
/// fallback prober; with them, each interface with a non-empty local
/// bucket gets a local scanner and each with a non-empty routed bucket
/// a routed one, the unmapped remainder goes to the fallback, and the
/// resolver runs unless DNS is off.
pub fn plan_discovery(
    privileged: bool,
    cfg: &Config,
    buckets: &InterfaceBuckets,
    unmapped_empty: bool,
) -> (r: DiscoveryPlan)
    requires
        buckets.local@.len() == buckets.routed@.len(),
    ensures
        r.privileged == privileged,
        r.with_resolver == (privileged && !cfg.no_dns),
        !privileged ==> r.tasks@ =~= seq![ScanTask::Fallback],
        privileged ==> {
            &&& (forall|k: int|
                0 <= k < buckets.local@.len() && !((#[trigger] buckets.local@[k]).ranges@.len()
                    == 0 && buckets.local@[k].singles@.len() == 0) ==> r.tasks@.contains(
                    ScanTask::Local(k as usize),
                ))
            &&& (forall|k: int|
                0 <= k < buckets.routed@.len() && !((#[trigger] buckets.routed@[k]).ranges@.len()
                    == 0 && buckets.routed@[k].singles@.len() == 0) ==> r.tasks@.contains(
                    ScanTask::Routed(k as usize),
                ))
            &&& (!unmapped_empty ==> r.tasks@.contains(ScanTask::Fallback))
            &&& (forall|t: ScanTask|
                #[trigger] r.tasks@.contains(t) ==> match t {
                    ScanTask::Local(k) => k < buckets.local@.len() && !(buckets.local@[k as int]
                        .ranges@.len() == 0 && buckets.local@[k as int].singles@.len() == 0),
                    ScanTask::Routed(k) => k < buckets.routed@.len() && !(buckets.routed@[k as int]
                        .ranges@.len() == 0 && buckets.routed@[k as int].singles@.len() == 0),
                    ScanTask::Fallback => !unmapped_empty,
                })
        },
{
    if !privileged {
        let mut tasks: Vec<ScanTask> = Vec::new();
        tasks.push(ScanTask::Fallback);
        return DiscoveryPlan { privileged, with_resolver: false, tasks };
    }
    let mut tasks: Vec<ScanTask> = Vec::new();
    let n = buckets.local.len();
    let mut k: usize = 0;
    while k < n
        invariant
            0 <= k <= n == buckets.local@.len(),
            n == buckets.routed@.len(),
            forall|k2: int|
                0 <= k2 < k && !((#[trigger] buckets.local@[k2]).ranges@.len() == 0
                    && buckets.local@[k2].singles@.len() == 0) ==> tasks@.contains(
                    ScanTask::Local(k2 as usize),
                ),
            forall|k2: int|
                0 <= k2 < k && !((#[trigger] buckets.routed@[k2]).ranges@.len() == 0
                    && buckets.routed@[k2].singles@.len() == 0) ==> tasks@.contains(
                    ScanTask::Routed(k2 as usize),
                ),
            forall|t: ScanTask|
                #[trigger] tasks@.contains(t) ==> match t {
                    ScanTask::Local(k2) => k2 < k && !(buckets.local@[k2 as int].ranges@.len() == 0
                        && buckets.local@[k2 as int].singles@.len() == 0),
                    ScanTask::Routed(k2) => k2 < k && !(buckets.routed@[k2 as int].ranges@.len()
                        == 0 && buckets.routed@[k2 as int].singles@.len() == 0),
                    ScanTask::Fallback => false,
                },
        decreases n - k,
    {
        if !self_bucket_empty(&buckets.local[k]) {
            let ghost pre = tasks@;
            tasks.push(ScanTask::Local(k));
            proof {
                lemma_push_task(pre, ScanTask::Local(k as usize), tasks@);
            }
        }
        if !self_bucket_empty(&buckets.routed[k]) {
            let ghost pre = tasks@;
            tasks.push(ScanTask::Routed(k));
            proof {
                lemma_push_task(pre, ScanTask::Routed(k as usize), tasks@);
            }
        }
        k = k + 1;
    }
    if !unmapped_empty {
        let ghost pre = tasks@;
        tasks.push(ScanTask::Fallback);
        proof {
            lemma_push_task(pre, ScanTask::Fallback, tasks@);
        }
    }
    DiscoveryPlan { privileged, with_resolver: !cfg.no_dns, tasks }
}

fn self_bucket_empty(c: &crate::range::IpCollection) -> (r: bool)
    ensures
        r == (c.ranges@.len() == 0 && c.singles@.len() == 0),
{
    c.is_empty()
}

proof fn lemma_push_task(pre: Seq<ScanTask>, t: ScanTask, post: Seq<ScanTask>)
    requires
        post == pre.push(t),
    ensures
        forall|x: ScanTask| (#[trigger] post.contains(x)) <==> pre.contains(x) || x == t,
{
    assert forall|x: ScanTask| (#[trigger] post.contains(x)) <==> pre.contains(x) || x == t by {
        if post.contains(x) {
            let w = choose|w: int| 0 <= w < post.len() && #[trigger] post[w] == x;
            if w < pre.len() {
                assert(pre[w] == x);
            }
        }
        if pre.contains(x) {
            let w = choose|w: int| 0 <= w < pre.len() && #[trigger] pre[w] == x;
            assert(post[w] == x);
        }
        if x == t {
            assert(post[pre.len() as int] == x);
        }
    }
}

} // verus!
