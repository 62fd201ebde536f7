//! The selection-driven log view: branch tips, a selection flag for each, and
//! the log of the ancestors of the selected tips.

use vstd::prelude::*;

use crate::lineage::{lemma_log_fewer_seeds, lemma_log_unique};
use crate::store::NodeStore;
use crate::traversal::{is_traversal, traverse};

verus! {

/// A change made to one branch.
pub enum BranchMessage {
    Selected(bool),
}

/// A branch tip: its name, the node it points at, whether it is the current
/// head, and whether its lineage is shown in the log.
pub struct Branch {
    pub name: String,
    pub target: usize,
    pub head: bool,
    pub selected: bool,
}

impl Branch {
    /// A branch that is not the head, selected.
    pub fn new(name: String, target: usize) -> (b: Branch)
        ensures
            b.name == name,
            b.target == target,
            !b.head,
            b.selected,
    {
        Branch { name, target, head: false, selected: true }
    }

    /// Applies a change to this branch.
    pub fn update(&mut self, message: BranchMessage)
        ensures
            final(self).name == old(self).name,
            final(self).target == old(self).target,
            final(self).head == old(self).head,
            final(self).selected == match message {
                BranchMessage::Selected(s) => s,
            },
    {
        match message {
            BranchMessage::Selected(selected) => self.selected = selected,
        }
    }
}

/// The failures that a change of selection reports.
pub enum LogError {
    /// No tip has the given name.
    UnknownTip,
}

/// Some selected tip points at `x`.
pub open spec fn selects(tips: Seq<Branch>, x: usize) -> bool {
    exists|i: int| 0 <= i < tips.len() && #[trigger] tips[i].selected && tips[i].target == x
}

/// The targets of the selected tips: the seeds of the log.
pub open spec fn selected_targets(tips: Seq<Branch>) -> Set<usize> {
    Set::new(|x: usize| selects(tips, x))
}

/// `after` is `before` with some tips deselected and nothing else changed.
pub open spec fn deselects(before: Seq<Branch>, after: Seq<Branch>) -> bool {
    &&& after.len() == before.len()
    &&& forall|i: int| 0 <= i < after.len() ==> (#[trigger] after[i]).target == before[i].target
        && (after[i].selected ==> before[i].selected)
}

/// Deselecting tips adds no node to a log that the bound did not cut.
pub proof fn lemma_deselect_adds_nothing(
    store: &NodeStore,
    before: Seq<Branch>,
    after: Seq<Branch>,
    bound: nat,
    r: Seq<usize>,
    q: Seq<usize>,
)
    requires
        deselects(before, after),
        is_traversal(store, selected_targets(before), bound, r),
        is_traversal(store, selected_targets(after), bound, q),
        r.len() < bound,
    ensures
        forall|x: usize| q.contains(x) ==> r.contains(x),
{
    assert forall|x: usize| selected_targets(after).contains(x) implies selected_targets(before).contains(x) by {
        let i = choose|i: int| 0 <= i < after.len() && #[trigger] after[i].selected && after[i].target == x;
        assert(before[i].selected);
    }
    lemma_log_fewer_seeds(store, selected_targets(before), selected_targets(after), bound, r, q);
}

/// The seeds of the log: the targets of the selected tips, in tip order.
fn selected_seeds(tips: &Vec<Branch>) -> (r: Vec<usize>)
    ensures
        r@.to_set() == selected_targets(tips@),
{
    let mut seeds: Vec<usize> = Vec::new();
    let mut i: usize = 0;
    while i < tips.len()
        invariant
            i <= tips@.len(),
            forall|x: usize| seeds@.contains(x) <==> exists|j: int| 0 <= j < i && #[trigger] tips@[j].selected
                && tips@[j].target == x,
        decreases tips@.len() - i,
    {
        let ghost old_seeds = seeds@;
        if tips[i].selected {
            seeds.push(tips[i].target);
        }
        assert forall|x: usize| seeds@.contains(x) <==> exists|j: int| 0 <= j < i + 1 && #[trigger] tips@[j].selected
            && tips@[j].target == x by {
            if seeds@.contains(x) && !old_seeds.contains(x) {
                let k = choose|k: int| 0 <= k < seeds@.len() && seeds@[k] == x;
                assert(k == old_seeds.len());
            }
            if exists|j: int| 0 <= j < i + 1 && #[trigger] tips@[j].selected && tips@[j].target == x {
                if !exists|j: int| 0 <= j < i && #[trigger] tips@[j].selected && tips@[j].target == x {
                    assert(seeds@[old_seeds.len() as int] == x);
                }
                if old_seeds.contains(x) {
                    let k = choose|k: int| 0 <= k < old_seeds.len() && old_seeds[k] == x;
                    assert(seeds@[k] == x);
                }
            }
        }
        i = i + 1;
    }
    assert(seeds@.to_set() =~= selected_targets(tips@));
    seeds
}

/// The branch tips, their selection, and the log of the selected lineages.
pub struct LogView {
    tips: Vec<Branch>,
    log: Vec<usize>,
    bound: usize,
}

impl LogView {
    pub closed spec fn spec_tips(&self) -> Seq<Branch> {
        self.tips@
    }

    pub closed spec fn spec_log(&self) -> Seq<usize> {
        self.log@
    }

    pub closed spec fn spec_bound(&self) -> usize {
        self.bound
    }

    /// A view of `tips`, every one selected, with its log computed from `store`
    /// and cut at `bound`.
    pub fn initialize(tips: Vec<Branch>, store: &NodeStore, bound: usize) -> (v: LogView)
        ensures
            v.spec_tips().len() == tips@.len(),
            forall|i: int| 0 <= i < tips@.len() ==> {
                &&& (#[trigger] v.spec_tips()[i]).name == tips@[i].name
                &&& v.spec_tips()[i].target == tips@[i].target
                &&& v.spec_tips()[i].head == tips@[i].head
                &&& v.spec_tips()[i].selected
            },
            v.spec_bound() == bound,
            is_traversal(store, selected_targets(v.spec_tips()), bound as nat, v.spec_log()),
    {
        let mut tips = tips;
        let ghost given = tips@;
        let mut i: usize = 0;
        while i < tips.len()
            invariant
                i <= tips@.len(),
                tips@.len() == given.len(),
                forall|j: int| 0 <= j < tips@.len() ==> {
                    &&& (#[trigger] tips@[j]).name == given[j].name
                    &&& tips@[j].target == given[j].target
                    &&& tips@[j].head == given[j].head
                    &&& (j < i ==> tips@[j].selected)
                },
            decreases tips@.len() - i,
        {
            tips[i].selected = true;
            i = i + 1;
        }
        let seeds = selected_seeds(&tips);
        let log = traverse(store, &seeds, bound);
        LogView { tips, log, bound }
    }

    /// Computes the log again from `store`, cut at `bound`. With the same
    /// store and bound as the last computation, the log stays as it was.
    pub fn recompute(&mut self, store: &NodeStore, bound: usize)
        ensures
            final(self).spec_tips() == old(self).spec_tips(),
            final(self).spec_bound() == bound,
            is_traversal(store, selected_targets(final(self).spec_tips()), bound as nat, final(self).spec_log()),
            is_traversal(store, selected_targets(old(self).spec_tips()), bound as nat, old(self).spec_log())
                ==> final(self).spec_log() == old(self).spec_log(),
    {
        let seeds = selected_seeds(&self.tips);
        let log = traverse(store, &seeds, bound);
        proof {
            if is_traversal(store, selected_targets(self.tips@), bound as nat, self.log@) {
                lemma_log_unique(store, selected_targets(self.tips@), bound as nat, log@, self.log@);
            }
        }
        self.log = log;
        self.bound = bound;
    }

    /// The last computed log, newest node first.
    pub fn current_log(&self) -> (r: &Vec<usize>)
        ensures
            r@ == self.spec_log(),
    {
        &self.log
    }

    /// The branch tips with their selection.
    pub fn branches(&self) -> (r: &Vec<Branch>)
        ensures
            r@ == self.spec_tips(),
    {
        &self.tips
    }

    /// The bound the log was last cut at.
    pub fn bound(&self) -> (r: usize)
        ensures
            r == self.spec_bound(),
    {
        self.bound
    }

    /// Selects or deselects every tip named `name` and computes the log again.
    /// Fails with `UnknownTip`, changing nothing, where no tip has that name.
    pub fn set_selected(&mut self, name: &String, selected: bool, store: &NodeStore) -> (r: Result<(), LogError>)
        ensures
            r is Ok <==> exists|i: int| 0 <= i < old(self).spec_tips().len() && #[trigger] old(self).spec_tips()[i].name@
                == name@,
            r is Err ==> final(self).spec_tips() == old(self).spec_tips() && final(self).spec_log() == old(self).spec_log()
                && final(self).spec_bound() == old(self).spec_bound(),
            r is Ok ==> {
                &&& final(self).spec_tips().len() == old(self).spec_tips().len()
                &&& forall|i: int| 0 <= i < old(self).spec_tips().len() ==> {
                    &&& (#[trigger] final(self).spec_tips()[i]).name == old(self).spec_tips()[i].name
                    &&& final(self).spec_tips()[i].target == old(self).spec_tips()[i].target
                    &&& final(self).spec_tips()[i].head == old(self).spec_tips()[i].head
                    &&& final(self).spec_tips()[i].selected == if old(self).spec_tips()[i].name@ == name@ {
                        selected
                    } else {
                        old(self).spec_tips()[i].selected
                    }
                }
                &&& final(self).spec_bound() == old(self).spec_bound()
                &&& is_traversal(store, selected_targets(final(self).spec_tips()), final(self).spec_bound() as nat,
                    final(self).spec_log())
            },
    {
        let ghost before = self.tips@;
        let mut found = false;
        let mut i: usize = 0;
        while i < self.tips.len()
            invariant
                i <= self.tips@.len(),
                self.tips@.len() == before.len(),
                self.log@ == old(self).log@,
                self.bound == old(self).bound,
                found <==> exists|j: int| 0 <= j < i && #[trigger] before[j].name@ == name@,
                forall|j: int| 0 <= j < before.len() ==> {
                    &&& (#[trigger] self.tips@[j]).name == before[j].name
                    &&& self.tips@[j].target == before[j].target
                    &&& self.tips@[j].head == before[j].head
                    &&& self.tips@[j].selected == if j < i && before[j].name@ == name@ {
                        selected
                    } else {
                        before[j].selected
                    }
                },
            decreases self.tips@.len() - i,
        {
            if self.tips[i].name == *name {
                self.tips[i].selected = selected;
                found = true;
            }
            i = i + 1;
        }
        assert(before == old(self).spec_tips());
        if !found {
            assert forall|j: int| 0 <= j < before.len() implies self.tips@[j] == before[j] by {
                assert(!(before[j].name@ == name@));
            }
            assert(self.tips@ =~= before);
            return Err(LogError::UnknownTip);
        }
        let bound = self.bound;
        self.recompute(store, bound);
        Ok(())
    }

    /// Applies a change to the tip at `index`, where there is one, and computes
    /// the log again.
    pub fn update_branch(&mut self, index: usize, message: BranchMessage, store: &NodeStore)
        ensures
            final(self).spec_tips().len() == old(self).spec_tips().len(),
            forall|i: int| 0 <= i < old(self).spec_tips().len() ==> {
                &&& (#[trigger] final(self).spec_tips()[i]).name == old(self).spec_tips()[i].name
                &&& final(self).spec_tips()[i].target == old(self).spec_tips()[i].target
                &&& final(self).spec_tips()[i].head == old(self).spec_tips()[i].head
                &&& final(self).spec_tips()[i].selected == if i == index {
                    match message {
                        BranchMessage::Selected(s) => s,
                    }
                } else {
                    old(self).spec_tips()[i].selected
                }
            },
            final(self).spec_bound() == old(self).spec_bound(),
            is_traversal(store, selected_targets(final(self).spec_tips()), final(self).spec_bound() as nat,
                final(self).spec_log()),
    {
        if index < self.tips.len() {
            self.tips[index].update(message);
        }
        let bound = self.bound;
        self.recompute(store, bound);
    }
}

} // verus!
