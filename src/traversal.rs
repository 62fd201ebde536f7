//! The frontier traversal: a k-way merge over the ancestors of a set of seeds,
//! newest first, each node at most once, cut at a bound.

use vstd::prelude::*;

use crate::lineage::{lemma_log_length, lemma_log_no_duplicates, reachable_set};
use crate::store::NodeStore;

verus! {

/// Node `x` is made available once the nodes of `emitted` have been emitted:
/// it resolves, and it is a seed or a parent of an emitted node.
pub open spec fn available(store: &NodeStore, seeds: Set<usize>, emitted: Seq<usize>, x: usize) -> bool {
    store.resolvable(x) && (seeds.contains(x) || exists|j: int|
        0 <= j < emitted.len() && #[trigger] store.parents_of(emitted[j]).contains(x))
}

/// Node `x` waits in the frontier after `emitted`: available, not yet emitted.
pub open spec fn candidate(store: &NodeStore, seeds: Set<usize>, emitted: Seq<usize>, x: usize) -> bool {
    available(store, seeds, emitted, x) && !emitted.contains(x)
}

/// Node `r[i]` is the newest candidate left after the first `i` nodes of `r`.
pub open spec fn emits_newest(store: &NodeStore, seeds: Set<usize>, r: Seq<usize>, i: int) -> bool {
    &&& candidate(store, seeds, r.take(i), r[i])
    &&& forall|y: usize| #[trigger]
        candidate(store, seeds, r.take(i), y) ==> !store.newer(y, r[i])
}

/// `r` is the log of the ancestors of `seeds`, cut at `bound`: each node is
/// the newest candidate at its turn, and the log stops only at the bound or
/// when no candidate is left.
pub open spec fn is_traversal(store: &NodeStore, seeds: Set<usize>, bound: nat, r: Seq<usize>) -> bool {
    &&& r.len() <= bound
    &&& r.len() < bound ==> forall|y: usize| !#[trigger] candidate(store, seeds, r, y)
    &&& forall|i: int| 0 <= i < r.len() ==> #[trigger] emits_newest(store, seeds, r, i)
}

proof fn lemma_push_contains(s: Seq<usize>, v: usize, x: usize)
    ensures
        s.push(v).contains(x) <==> s.contains(x) || x == v,
{
    let s2 = s.push(v);
    if s2.contains(x) {
        let j = choose|j: int| 0 <= j < s2.len() && s2[j] == x;
        if j < s.len() {
            assert(s[j] == x);
        }
    }
    if s.contains(x) {
        let j = choose|j: int| 0 <= j < s.len() && s[j] == x;
        assert(s2[j] == x);
    }
    assert(s2[s.len() as int] == v);
}

proof fn lemma_available_push(store: &NodeStore, seeds: Set<usize>, r: Seq<usize>, c: usize, x: usize)
    ensures
        available(store, seeds, r.push(c), x) <==> available(store, seeds, r, x) || (
        store.resolvable(x) && store.parents_of(c).contains(x)),
{
    let r2 = r.push(c);
    if available(store, seeds, r2, x) && !seeds.contains(x) {
        let j = choose|j: int| 0 <= j < r2.len() && #[trigger] store.parents_of(r2[j]).contains(x);
        if j < r.len() {
            assert(store.parents_of(r[j]).contains(x));
        }
    }
    if available(store, seeds, r, x) && !seeds.contains(x) {
        let j = choose|j: int| 0 <= j < r.len() && #[trigger] store.parents_of(r[j]).contains(x);
        assert(r2[j] == r[j]);
    }
    if store.resolvable(x) && store.parents_of(c).contains(x) {
        assert(r2[r.len() as int] == c);
    }
}

/// Builds the log of the ancestors of `seeds`, newest first, without
/// repetition, stopping after `bound` nodes. A seed or a parent that does not
/// resolve is skipped.
pub fn traverse(store: &NodeStore, seeds: &Vec<usize>, bound: usize) -> (r: Vec<usize>)
    ensures
        is_traversal(store, seeds@.to_set(), bound as nat, r@),
        r@.no_duplicates(),
        r@.len() == if bound <= reachable_set(store, seeds@.to_set()).len() {
            bound as nat
        } else {
            reachable_set(store, seeds@.to_set()).len()
        },
{
    let ghost sd = seeds@.to_set();
    let n = store.len();
    let mut visited: Vec<bool> = Vec::new();
    let mut k: usize = 0;
    while k < n
        invariant
            k <= n,
            n == store.nodes@.len(),
            visited@.len() == k,
            forall|x: int| 0 <= x < k ==> !visited@[x],
        decreases n - k,
    {
        visited.push(false);
        k = k + 1;
    }
    let mut frontier: Vec<usize> = Vec::new();
    let mut result: Vec<usize> = Vec::new();
    let mut s: usize = 0;
    while s < seeds.len()
        invariant
            s <= seeds@.len(),
            n == store.nodes@.len(),
            visited@.len() == n,
            result@.len() == 0,
            frontier@.no_duplicates(),
            forall|x: usize| x < n ==> (#[trigger] visited@[x as int] <==> store.resolvable(x)
                && seeds@.take(s as int).contains(x)),
            forall|x: usize| frontier@.contains(x) <==> (x < n && visited@[x as int]),
        decreases seeds@.len() - s,
    {
        let id = seeds[s];
        let ghost old_f = frontier@;
        let ghost old_v = visited@;
        assert(seeds@.take(s + 1) == seeds@.take(s as int).push(id));
        if store.contains(id) && !visited[id] {
            visited.set(id, true);
            frontier.push(id);
        }
        assert forall|x: usize| x < n implies (visited@[x as int] <==> store.resolvable(x)
            && seeds@.take(s + 1).contains(x)) by {
            lemma_push_contains(seeds@.take(s as int), id, x);
            assert(old_v[x as int] <==> store.resolvable(x) && seeds@.take(s as int).contains(x));
            if x != id {
                assert(visited@[x as int] == old_v[x as int]);
            }
        }
        assert forall|x: usize| frontier@.contains(x) <==> (x < n && visited@[x as int]) by {
            lemma_push_contains(old_f, id, x);
        }
        s = s + 1;
    }
    assert(seeds@.take(seeds@.len() as int) == seeds@);
    assert forall|x: usize| x < n implies (visited@[x as int] <==> available(store, sd, result@, x)) by {
        if seeds@.contains(x) {
            let j = choose|j: int| 0 <= j < seeds@.len() && seeds@[j] == x;
            assert(sd.contains(seeds@[j]));
        }
    }
    while result.len() < bound && frontier.len() > 0
        invariant
            n == store.nodes@.len(),
            visited@.len() == n,
            result@.len() <= bound,
            frontier@.no_duplicates(),
            forall|x: usize| x < n ==> (visited@[x as int] <==> available(store, sd, result@, x)),
            forall|x: usize| frontier@.contains(x) <==> candidate(store, sd, result@, x),
            forall|x: usize| result@.contains(x) ==> x < n && visited@[x as int],
            forall|i: int| 0 <= i < result@.len() ==> #[trigger] emits_newest(store, sd, result@, i),
        decreases bound - result@.len(),
    {
        // The newest node of the frontier.
        assert(frontier@.contains(frontier@[0]));
        let mut best: usize = 0;
        let mut j: usize = 1;
        while j < frontier.len()
            invariant
                1 <= j <= frontier@.len(),
                best < frontier@.len(),
                forall|x: usize| frontier@.contains(x) ==> store.resolvable(x),
                forall|m: int| 0 <= m < j ==> !store.newer(#[trigger] frontier@[m], frontier@[best as int]),
            decreases frontier@.len() - j,
        {
            assert(frontier@.contains(frontier@[j as int]));
            assert(frontier@.contains(frontier@[best as int]));
            if store.is_newer(frontier[j], frontier[best]) {
                best = j;
            }
            j = j + 1;
        }
        let ghost old_result = result@;
        let ghost old_frontier = frontier@;
        let cur = frontier.remove(best);
        assert(old_frontier.contains(cur));
        assert forall|y: usize| #[trigger] candidate(store, sd, old_result, y) implies !store.newer(y, cur) by {
            assert(old_frontier.contains(y));
            let m = choose|m: int| 0 <= m < old_frontier.len() && old_frontier[m] == y;
        }
        assert forall|x: usize| #[trigger] frontier@.contains(x) <==> (old_frontier.contains(x) && x != cur) by {
            if frontier@.contains(x) {
                let m = choose|m: int| 0 <= m < frontier@.len() && frontier@[m] == x;
                if m < best {
                    assert(old_frontier[m] == x);
                } else {
                    assert(old_frontier[m + 1] == x);
                }
            }
            if old_frontier.contains(x) && x != cur {
                let m = choose|m: int| 0 <= m < old_frontier.len() && old_frontier[m] == x;
                if m < best {
                    assert(frontier@[m] == x);
                } else {
                    assert(frontier@[m - 1] == x);
                }
            }
        }
        result.push(cur);
        assert(result@.take(old_result.len() as int) == old_result);
        assert forall|i: int| 0 <= i < result@.len() implies #[trigger] emits_newest(store, sd, result@, i) by {
            assert(result@.take(i) == old_result.take(i));
            if i < old_result.len() {
                assert(emits_newest(store, sd, old_result, i));
            }
        }
        assert forall|x: usize| frontier@.contains(x) <==> (x < n && visited@[x as int] && !result@.contains(x)) by {
            lemma_push_contains(old_result, cur, x);
        }
        assert forall|x: usize| result@.contains(x) implies x < n && visited@[x as int] by {
            lemma_push_contains(old_result, cur, x);
        }
        let node = store.resolve(cur).unwrap();
        let mut p: usize = 0;
        while p < node.parents.len()
            invariant
                p <= node.parents@.len(),
                node.parents@ == store.parents_of(cur),
                store.resolvable(cur),
                n == store.nodes@.len(),
                visited@.len() == n,
                result@ == old_result.push(cur),
                frontier@.no_duplicates(),
                forall|x: usize| x < n ==> (visited@[x as int] <==> (available(store, sd, old_result, x)
                    || (store.resolvable(x) && node.parents@.take(p as int).contains(x)))),
                forall|x: usize| frontier@.contains(x) <==> (x < n && visited@[x as int] && !result@.contains(x)),
                forall|x: usize| result@.contains(x) ==> x < n && visited@[x as int],
            decreases node.parents@.len() - p,
        {
            let q = node.parents[p];
            assert(node.parents@.take(p + 1) == node.parents@.take(p as int).push(q));
            let ghost old_f = frontier@;
            let ghost old_v = visited@;
            if store.contains(q) && !visited[q] {
                visited.set(q, true);
                frontier.push(q);
            }
            assert forall|x: usize| x < n implies (visited@[x as int] <==> (available(store, sd, old_result, x)
                || (store.resolvable(x) && node.parents@.take(p + 1).contains(x)))) by {
                lemma_push_contains(node.parents@.take(p as int), q, x);
                if x != q {
                    assert(visited@[x as int] == old_v[x as int]);
                }
            }
            assert forall|x: usize| frontier@.contains(x) <==> (x < n && visited@[x as int] && !result@.contains(x)) by {
                lemma_push_contains(old_f, q, x);
                if x != q && x < n {
                    assert(visited@[x as int] == old_v[x as int]);
                }
            }
            assert forall|x: usize| result@.contains(x) implies x < n && visited@[x as int] by {
                assert(x < n && old_v[x as int]);
                if x != q {
                    assert(visited@[x as int] == old_v[x as int]);
                }
            }
            p = p + 1;
        }
        assert(node.parents@.take(node.parents@.len() as int) == node.parents@);
        assert forall|x: usize| x < n implies (visited@[x as int] <==> available(store, sd, result@, x)) by {
            lemma_available_push(store, sd, old_result, cur, x);
        }
    }
    assert forall|y: usize| result@.len() < bound implies !#[trigger] candidate(store, sd, result@, y) by {
        if candidate(store, sd, result@, y) {
            assert(frontier@.contains(y));
        }
    }
    proof {
        lemma_log_no_duplicates(store, sd, bound as nat, result@);
        lemma_log_length(store, sd, bound as nat, result@);
    }
    result
}

} // verus!
