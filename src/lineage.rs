//! Reachability in the commit graph, and what holds of every traversal log.

use vstd::prelude::*;

use crate::store::NodeStore;
use crate::traversal::{available, candidate, emits_newest, is_traversal};

verus! {

/// Node `x` is reached from `seeds` along at most `n` parent edges, through
/// nodes that resolve.
pub open spec fn reach_within(store: &NodeStore, seeds: Set<usize>, n: nat, x: usize) -> bool
    decreases n,
{
    if n == 0 {
        store.resolvable(x) && seeds.contains(x)
    } else {
        reach_within(store, seeds, (n - 1) as nat, x) || (store.resolvable(x) && exists|p: usize|
            #![trigger store.parents_of(p).contains(x)]
            reach_within(store, seeds, (n - 1) as nat, p) && store.parents_of(p).contains(x))
    }
}

/// Node `x` is a resolvable ancestor of a resolvable seed (a seed counts as
/// its own ancestor).
pub open spec fn reachable(store: &NodeStore, seeds: Set<usize>, x: usize) -> bool {
    exists|n: nat| #[trigger] reach_within(store, seeds, n, x)
}

/// All the nodes reachable from `seeds`.
pub open spec fn reachable_set(store: &NodeStore, seeds: Set<usize>) -> Set<usize> {
    Set::new(|x: usize| reachable(store, seeds, x))
}

proof fn lemma_reach_resolvable(store: &NodeStore, seeds: Set<usize>, n: nat, x: usize)
    requires
        reach_within(store, seeds, n, x),
    ensures
        store.resolvable(x),
    decreases n,
{
    if n > 0 && reach_within(store, seeds, (n - 1) as nat, x) {
        lemma_reach_resolvable(store, seeds, (n - 1) as nat, x);
    }
}

proof fn lemma_reach_step(store: &NodeStore, seeds: Set<usize>, n: nat, p: usize, x: usize)
    requires
        reach_within(store, seeds, n, p),
        store.resolvable(x),
        store.parents_of(p).contains(x),
    ensures
        reach_within(store, seeds, n + 1, x),
{
    assert(reach_within(store, seeds, ((n + 1) - 1) as nat, p));
}

proof fn lemma_reach_seeds_subset(store: &NodeStore, small: Set<usize>, large: Set<usize>, n: nat, x: usize)
    requires
        small.subset_of(large),
        reach_within(store, small, n, x),
    ensures
        reach_within(store, large, n, x),
    decreases n,
{
    if n > 0 {
        if reach_within(store, small, (n - 1) as nat, x) {
            lemma_reach_seeds_subset(store, small, large, (n - 1) as nat, x);
        } else {
            let p = choose|p: usize|
                #![trigger store.parents_of(p).contains(x)]
                reach_within(store, small, (n - 1) as nat, p) && store.parents_of(p).contains(x);
            lemma_reach_seeds_subset(store, small, large, (n - 1) as nat, p);
        }
    }
}

/// Every entry of a log is reachable from the seeds.
proof fn lemma_entry_reachable(store: &NodeStore, seeds: Set<usize>, bound: nat, r: Seq<usize>, i: int)
    requires
        is_traversal(store, seeds, bound, r),
        0 <= i < r.len(),
    ensures
        reachable(store, seeds, r[i]),
    decreases i,
{
    assert(emits_newest(store, seeds, r, i));
    let pre = r.take(i);
    if seeds.contains(r[i]) {
        assert(reach_within(store, seeds, 0, r[i]));
    } else {
        let j = choose|j: int| 0 <= j < pre.len() && #[trigger] store.parents_of(pre[j]).contains(r[i]);
        assert(pre[j] == r[j]);
        lemma_entry_reachable(store, seeds, bound, r, j);
        let n = choose|n: nat| #[trigger] reach_within(store, seeds, n, r[j]);
        lemma_reach_step(store, seeds, n, r[j], r[i]);
    }
}

/// A log that left no candidate holds every reachable node.
proof fn lemma_closed_holds_reachable(store: &NodeStore, seeds: Set<usize>, r: Seq<usize>, n: nat, x: usize)
    requires
        forall|y: usize| !#[trigger] candidate(store, seeds, r, y),
        reach_within(store, seeds, n, x),
    ensures
        r.contains(x),
    decreases n,
{
    assert(!candidate(store, seeds, r, x));
    if n > 0 && !reach_within(store, seeds, (n - 1) as nat, x) {
        let p = choose|p: usize|
            #![trigger store.parents_of(p).contains(x)]
            reach_within(store, seeds, (n - 1) as nat, p) && store.parents_of(p).contains(x);
        lemma_closed_holds_reachable(store, seeds, r, (n - 1) as nat, p);
        let j = choose|j: int| 0 <= j < r.len() && r[j] == p;
        assert(store.parents_of(r[j]).contains(x));
        assert(available(store, seeds, r, x));
    } else if n > 0 {
        lemma_closed_holds_reachable(store, seeds, r, (n - 1) as nat, x);
    }
}

/// No node appears twice in a log.
pub proof fn lemma_log_no_duplicates(store: &NodeStore, seeds: Set<usize>, bound: nat, r: Seq<usize>)
    requires
        is_traversal(store, seeds, bound, r),
    ensures
        r.no_duplicates(),
{
    assert forall|i: int, j: int| 0 <= i < j < r.len() implies r[i] != r[j] by {
        assert(emits_newest(store, seeds, r, j));
        assert(r.take(j)[i] == r[i]);
    }
}

/// A log holds `bound` nodes, or every reachable node if there are fewer.
pub proof fn lemma_log_length(store: &NodeStore, seeds: Set<usize>, bound: nat, r: Seq<usize>)
    requires
        is_traversal(store, seeds, bound, r),
    ensures
        reachable_set(store, seeds).finite(),
        r.len() == if bound <= reachable_set(store, seeds).len() {
            bound
        } else {
            reachable_set(store, seeds).len()
        },
{
    let reach = reachable_set(store, seeds);
    let ids = Seq::new(store.nodes@.len(), |i: int| i as usize);
    assert forall|x: usize| reach.contains(x) implies ids.to_set().contains(x) by {
        let n = choose|n: nat| #[trigger] reach_within(store, seeds, n, x);
        lemma_reach_resolvable(store, seeds, n, x);
        assert(ids[x as int] == x);
    }
    vstd::set_lib::lemma_len_subset(reach, ids.to_set());
    lemma_log_no_duplicates(store, seeds, bound, r);
    r.unique_seq_to_set();
    assert forall|x: usize| r.to_set().contains(x) implies reach.contains(x) by {
        let i = choose|i: int| 0 <= i < r.len() && r[i] == x;
        lemma_entry_reachable(store, seeds, bound, r, i);
    }
    vstd::set_lib::lemma_len_subset(r.to_set(), reach);
    if r.len() < bound {
        assert forall|x: usize| reach.contains(x) implies r.to_set().contains(x) by {
            let n = choose|n: nat| #[trigger] reach_within(store, seeds, n, x);
            lemma_closed_holds_reachable(store, seeds, r, n, x);
        }
        assert(reach =~= r.to_set());
    }
}

/// Where no parent is more recent than its child, each node of a log is at
/// least as recent as the next.
pub proof fn lemma_log_time_ordered(store: &NodeStore, seeds: Set<usize>, bound: nat, r: Seq<usize>)
    requires
        store.time_consistent(),
        is_traversal(store, seeds, bound, r),
    ensures
        forall|i: int| 0 <= i < r.len() - 1 ==> store.timestamp_of(#[trigger] r[i]) >= store.timestamp_of(r[i + 1]),
{
    assert forall|i: int| 0 <= i < r.len() - 1 implies store.timestamp_of(#[trigger] r[i]) >= store.timestamp_of(r[i + 1]) by {
        assert(emits_newest(store, seeds, r, i));
        assert(emits_newest(store, seeds, r, i + 1));
        let a = r[i];
        let b = r[i + 1];
        let pre = r.take(i);
        let pre1 = r.take(i + 1);
        assert(pre1 == pre.push(a));
        if !seeds.contains(b) {
            let j = choose|j: int| 0 <= j < pre1.len() && #[trigger] store.parents_of(pre1[j]).contains(b);
            if j < i {
                assert(pre1[j] == pre[j]);
                assert(available(store, seeds, pre, b));
            } else {
                assert(store.resolvable(a));
                assert(store.parents_of(a).contains(b));
            }
        }
        if available(store, seeds, pre, b) {
            if pre.contains(b) {
                let k = choose|k: int| 0 <= k < pre.len() && pre[k] == b;
                assert(pre1[k] == b);
            }
            assert(candidate(store, seeds, pre, b));
        }
    }
}

/// A resolvable seed is left out of a log only when the log is full of nodes
/// that all come before it.
pub proof fn lemma_log_keeps_seed(store: &NodeStore, seeds: Set<usize>, bound: nat, r: Seq<usize>, s: usize)
    requires
        is_traversal(store, seeds, bound, r),
        seeds.contains(s),
        store.resolvable(s),
    ensures
        r.contains(s) || (r.len() == bound && forall|i: int| 0 <= i < r.len() ==> store.newer(#[trigger] r[i], s)),
{
    if !r.contains(s) {
        assert(candidate(store, seeds, r, s));
        assert forall|i: int| 0 <= i < r.len() implies store.newer(#[trigger] r[i], s) by {
            assert(emits_newest(store, seeds, r, i));
            if r.take(i).contains(s) {
                let k = choose|k: int| 0 <= k < r.take(i).len() && r.take(i)[k] == s;
                assert(r[k] == s);
            }
            assert(candidate(store, seeds, r.take(i), s));
            assert(r[i] != s);
        }
    }
}

/// Dropping seeds adds no node to a log that the bound did not cut.
pub proof fn lemma_log_fewer_seeds(
    store: &NodeStore,
    seeds: Set<usize>,
    fewer: Set<usize>,
    bound: nat,
    r: Seq<usize>,
    q: Seq<usize>,
)
    requires
        fewer.subset_of(seeds),
        is_traversal(store, seeds, bound, r),
        is_traversal(store, fewer, bound, q),
        r.len() < bound,
    ensures
        forall|x: usize| q.contains(x) ==> r.contains(x),
{
    assert forall|x: usize| q.contains(x) implies r.contains(x) by {
        let i = choose|i: int| 0 <= i < q.len() && q[i] == x;
        lemma_entry_reachable(store, fewer, bound, q, i);
        let n = choose|n: nat| #[trigger] reach_within(store, fewer, n, x);
        lemma_reach_seeds_subset(store, fewer, seeds, n, x);
        lemma_closed_holds_reachable(store, seeds, r, n, x);
    }
}

proof fn lemma_logs_agree_upto(store: &NodeStore, seeds: Set<usize>, bound: nat, r: Seq<usize>, q: Seq<usize>, i: int)
    requires
        is_traversal(store, seeds, bound, r),
        is_traversal(store, seeds, bound, q),
        0 <= i <= r.len(),
        i <= q.len(),
    ensures
        r.take(i) == q.take(i),
    decreases i,
{
    if i > 0 {
        let k = i - 1;
        lemma_logs_agree_upto(store, seeds, bound, r, q, k);
        assert(emits_newest(store, seeds, r, k));
        assert(emits_newest(store, seeds, q, k));
        assert(r[k] == q[k]) by {
            if r[k] != q[k] {
                assert(!store.newer(q[k], r[k]));
                assert(!store.newer(r[k], q[k]));
            }
        }
        assert(r.take(i) == r.take(k).push(r[k]));
        assert(q.take(i) == q.take(k).push(q[k]));
    }
}

/// The log is determined by the store, the seeds and the bound.
pub proof fn lemma_log_unique(store: &NodeStore, seeds: Set<usize>, bound: nat, r: Seq<usize>, q: Seq<usize>)
    requires
        is_traversal(store, seeds, bound, r),
        is_traversal(store, seeds, bound, q),
    ensures
        r == q,
{
    let m: int = if r.len() <= q.len() { r.len() as int } else { q.len() as int };
    lemma_logs_agree_upto(store, seeds, bound, r, q, m);
    if r.len() < q.len() {
        assert(r.take(m) == r);
        assert(emits_newest(store, seeds, q, m));
    } else if q.len() < r.len() {
        assert(q.take(m) == q);
        assert(emits_newest(store, seeds, r, m));
    } else {
        assert(r.take(m) == r);
        assert(q.take(m) == q);
    }
}

} // verus!
