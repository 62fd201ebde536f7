//! An arena of immutable commit records, indexed by node identifier.

use vstd::prelude::*;

verus! {

/// One commit record: its timestamp, its parent identifiers in order, and the
/// text shown for it.
pub struct Node {
    pub timestamp: i64,
    pub parents: Vec<usize>,
    pub summary: String,
    pub author: String,
    pub message: String,
}

/// A snapshot of the object store. The identifier of a node is its index in
/// `nodes`; an identifier past the end, or at an empty slot, does not resolve
/// (a node missing from a partial history).
pub struct NodeStore {
    pub nodes: Vec<Option<Node>>,
}

impl NodeStore {
    /// Whether `id` names a node of this store.
    pub open spec fn resolvable(&self, id: usize) -> bool {
        id < self.nodes@.len() && self.nodes@[id as int] is Some
    }

    /// The record of a resolvable node.
    pub open spec fn node(&self, id: usize) -> Node
        recommends
            self.resolvable(id),
    {
        self.nodes@[id as int]->Some_0
    }

    pub open spec fn timestamp_of(&self, id: usize) -> i64 {
        self.node(id).timestamp
    }

    /// The parent identifiers of a node; none for a node that does not resolve.
    pub open spec fn parents_of(&self, id: usize) -> Seq<usize> {
        if self.resolvable(id) {
            self.node(id).parents@
        } else {
            Seq::empty()
        }
    }

    /// The traversal order: `a` comes before `b` when it is more recent, and
    /// among nodes of equal timestamp, when its identifier is larger.
    pub open spec fn newer(&self, a: usize, b: usize) -> bool {
        self.timestamp_of(a) > self.timestamp_of(b) || (self.timestamp_of(a)
            == self.timestamp_of(b) && a > b)
    }

    /// The store holds no node whose parent is more recent than itself.
    pub open spec fn time_consistent(&self) -> bool {
        forall|c: usize, p: usize|
            #![trigger self.parents_of(c).contains(p), self.resolvable(p)]
            self.resolvable(c) && self.resolvable(p) && self.parents_of(c).contains(p)
                ==> self.timestamp_of(p) <= self.timestamp_of(c)
    }

    /// An empty store.
    pub fn new() -> (r: NodeStore)
        ensures
            r.nodes@.len() == 0,
    {
        NodeStore { nodes: Vec::new() }
    }

    /// Adds a node under the next free identifier, which is returned.
    pub fn insert(&mut self, node: Node) -> (id: usize)
        requires
            old(self).nodes@.len() < usize::MAX,
        ensures
            id == old(self).nodes@.len(),
            final(self).nodes@ == old(self).nodes@.push(Some(node)),
    {
        let id = self.nodes.len();
        self.nodes.push(Some(node));
        id
    }

    /// Reserves the next identifier for a node that the history references but
    /// does not hold; it never resolves.
    pub fn insert_missing(&mut self) -> (id: usize)
        requires
            old(self).nodes@.len() < usize::MAX,
        ensures
            id == old(self).nodes@.len(),
            final(self).nodes@ == old(self).nodes@.push(None),
    {
        let id = self.nodes.len();
        self.nodes.push(None);
        id
    }

    /// The number of identifiers handed out.
    pub fn len(&self) -> (r: usize)
        ensures
            r == self.nodes@.len(),
    {
        self.nodes.len()
    }

    /// Resolves an identifier to its record, or `None` where it does not resolve.
    pub fn resolve(&self, id: usize) -> (r: Option<&Node>)
        ensures
            r is Some <==> self.resolvable(id),
            r is Some ==> *r->Some_0 == self.node(id),
    {
        if id < self.nodes.len() {
            match &self.nodes[id] {
                Some(n) => Some(n),
                None => None,
            }
        } else {
            None
        }
    }

    /// Whether `id` resolves.
    pub fn contains(&self, id: usize) -> (r: bool)
        ensures
            r == self.resolvable(id),
    {
        id < self.nodes.len() && self.nodes[id].is_some()
    }

    /// Whether resolvable node `a` comes before resolvable node `b`.
    pub fn is_newer(&self, a: usize, b: usize) -> (r: bool)
        requires
            self.resolvable(a),
            self.resolvable(b),
        ensures
            r == self.newer(a, b),
    {
        let ta = self.nodes[a].as_ref().unwrap().timestamp;
        let tb = self.nodes[b].as_ref().unwrap().timestamp;
        ta > tb || (ta == tb && a > b)
    }
}

} // verus!
