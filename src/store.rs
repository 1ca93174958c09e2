//! The node and edge store: an append-only arena of values, each with an
//! ordered list of ancestors named by index.
use vstd::prelude::*;

use crate::paths::{descends_within, Edges};

verus! {

/// Why an operation on a graph-stack was refused.
#[derive(Debug, Clone, Copy, PartialEq, Eq, Structural)]
pub enum GraphError {
    /// An ancestor names no node of the store.
    InvalidAncestor,
    /// A node identity names no node of the store.
    InvalidNodeId,
    /// A descent from the start node can come back to a node it passed.
    CycleDetected,
}

/// A stack whose elements may each sit on several others.
pub struct GraphStack<T> {
    /// The values, indexed by node identity (the order of insertion).
    items: Vec<T>,
    /// For each node, in order, the identities of the nodes below it.
    ancestors: Vec<Vec<usize>>,
}

impl<T> GraphStack<T> {
    /// The stored values, by node identity.
    pub closed spec fn values(&self) -> Seq<T> {
        self.items@
    }

    /// The ancestor lists, by node identity.
    pub closed spec fn edges(&self) -> Edges {
        self.ancestors@.map_values(|l: Vec<usize>| l@)
    }

    /// Every node has an ancestor list, every ancestor names a node, and
    /// every node identity fits in a `usize`.
    pub open spec fn wf(&self) -> bool {
        &&& self.values().len() <= usize::MAX
        &&& self.edges().len() == self.values().len()
        &&& forall|v: int, i: int|
            0 <= v < self.edges().len() && 0 <= i < self.edges()[v].len()
                ==> #[trigger] self.edges()[v][i] < self.values().len()
    }

    /// An empty store.
    pub fn new() -> (r: Self)
        ensures
            r.wf(),
            r.values() == Seq::<T>::empty(),
            r.edges() == Edges::empty(),
    {
        let r = GraphStack { items: Vec::new(), ancestors: Vec::new() };
        assert(r.edges() =~= Edges::empty());
        r
    }

    /// The number of nodes.
    pub fn len(&self) -> (r: usize)
        ensures
            r == self.values().len(),
    {
        self.items.len()
    }

    /// The value of node `id`, or `None` where there is no such node.
    pub fn get(&self, id: usize) -> (r: Option<&T>)
        ensures
            id < self.values().len() ==> r == Some(&self.values()[id as int]),
            id >= self.values().len() ==> r is None,
    {
        if id < self.items.len() {
            Some(&self.items[id])
        } else {
            None
        }
    }

    /// The value of node `id`.
    pub(crate) fn value_at(&self, id: usize) -> (r: &T)
        requires
            id < self.values().len(),
        ensures
            *r == self.values()[id as int],
    {
        &self.items[id]
    }

    /// The ancestor list of node `id`.
    pub(crate) fn ancestors_at(&self, id: usize) -> (r: &Vec<usize>)
        requires
            self.wf(),
            id < self.values().len(),
        ensures
            r@ == self.edges()[id as int],
    {
        &self.ancestors[id]
    }

    /// Whether every descent from `start` reaches a root within as many
    /// steps as there are nodes, that is, whether no cycle can be reached
    /// from `start`.
    pub(crate) fn descent_bounded(&self, start: usize) -> (r: bool)
        requires
            self.wf(),
            start < self.values().len(),
        ensures
            r == descends_within(self.edges(), start as int, self.values().len()),
    {
        let n = self.items.len();
        let ghost anc = self.edges();
        // Round `k` holds, for each node, whether it descends within `k` steps.
        let mut within: Vec<bool> = Vec::new();
        let mut v: usize = 0;
        while v < n
            invariant
                v <= n,
                n == self.values().len(),
                self.wf(),
                anc == self.edges(),
                within@.len() == v,
                forall|u: int| 0 <= u < v ==> within@[u] == descends_within(anc, u, 0),
            decreases n - v,
        {
            within.push(self.ancestors[v].len() == 0);
            v = v + 1;
        }
        let mut k: usize = 0;
        while k < n
            invariant
                k <= n,
                n == self.values().len(),
                self.wf(),
                anc == self.edges(),
                within@.len() == n,
                forall|u: int| 0 <= u < n ==> within@[u] == descends_within(anc, u, k as nat),
            decreases n - k,
        {
            let mut next: Vec<bool> = Vec::new();
            let mut v: usize = 0;
            while v < n
                invariant
                    v <= n,
                    k < n,
                    n == self.values().len(),
                    self.wf(),
                    anc == self.edges(),
                    within@.len() == n,
                    forall|u: int| 0 <= u < n ==> within@[u] == descends_within(anc, u, k as nat),
                    next@.len() == v,
                    forall|u: int| 0 <= u < v ==> next@[u] == descends_within(anc, u, (k + 1) as nat),
                decreases n - v,
            {
                let list = &self.ancestors[v];
                let mut all = true;
                let mut i: usize = 0;
                while i < list.len()
                    invariant
                        i <= list@.len(),
                        v < n,
                        n == self.values().len(),
                        self.wf(),
                        anc == self.edges(),
                        list@ == anc[v as int],
                        within@.len() == n,
                        all == forall|j: int| 0 <= j < i ==> within@[list@[j] as int],
                    decreases list@.len() - i,
                {
                    assert(anc[v as int][i as int] < n);
                    if !within[list[i]] {
                        all = false;
                    }
                    i = i + 1;
                }
                proof {
                    assert(all == forall|j: int|
                        #![trigger anc[v as int][j]]
                        0 <= j < anc[v as int].len() ==> descends_within(
                            anc,
                            anc[v as int][j] as int,
                            k as nat,
                        ));
                }
                next.push(list.len() == 0 || all);
                v = v + 1;
            }
            within = next;
            k = k + 1;
        }
        within[start]
    }

    /// Adds a node holding `value` whose ancestors are `ancestors`, in that
    /// order, and returns its identity. Refused with `InvalidAncestor`, and
    /// the store left as it was, when an ancestor names no existing node.
    pub fn push(&mut self, value: T, ancestors: &[usize]) -> (r: Result<usize, GraphError>)
        requires
            old(self).wf(),
        ensures
            final(self).wf(),
            r is Ok <==> forall|i: int|
                0 <= i < ancestors@.len() ==> ancestors@[i] < old(self).values().len(),
            r is Err ==> r == Err::<usize, GraphError>(GraphError::InvalidAncestor) && *final(self)
                == *old(self),
            r is Ok ==> {
                &&& r == Ok::<usize, GraphError>(old(self).values().len() as usize)
                &&& final(self).values() == old(self).values().push(value)
                &&& final(self).edges() == old(self).edges().push(ancestors@)
            },
    {
        let n = self.items.len();
        let mut list: Vec<usize> = Vec::new();
        let mut i: usize = 0;
        while i < ancestors.len()
            invariant
                i <= ancestors@.len(),
                n == self.values().len(),
                *self == *old(self),
                self.wf(),
                list@ == ancestors@.subrange(0, i as int),
                forall|j: int| 0 <= j < i ==> ancestors@[j] < n,
            decreases ancestors@.len() - i,
        {
            if ancestors[i] >= n {
                return Err(GraphError::InvalidAncestor);
            }
            list.push(ancestors[i]);
            i = i + 1;
        }
        assert(list@ =~= ancestors@);
        self.items.push(value);
        self.ancestors.push(list);
        assert(self.edges() =~= old(self).edges().push(ancestors@));
        let id = self.items.len() - 1;
        Ok(id)
    }

    /// Appends `ancestors` to the ancestor list of node `id`, after the
    /// entries it already has. Refused, and the store left as it was, with
    /// `InvalidNodeId` when `id` names no node, else with `InvalidAncestor`
    /// when an ancestor names no node.
    pub fn add_ancestors(&mut self, id: usize, ancestors: &[usize]) -> (r: Result<(), GraphError>)
        requires
            old(self).wf(),
        ensures
            final(self).wf(),
            final(self).values() == old(self).values(),
            id >= old(self).values().len() ==> r == Err::<(), GraphError>(
                GraphError::InvalidNodeId,
            ),
            id < old(self).values().len() && (exists|i: int|
                0 <= i < ancestors@.len() && ancestors@[i] >= old(self).values().len()) ==> r == Err::<
                (),
                GraphError,
            >(GraphError::InvalidAncestor),
            id < old(self).values().len() && (forall|i: int|
                0 <= i < ancestors@.len() ==> ancestors@[i] < old(self).values().len()) ==> r is Ok,
            r is Err ==> *final(self) == *old(self),
            r is Ok ==> final(self).edges() == old(self).edges().update(
                id as int,
                old(self).edges()[id as int] + ancestors@,
            ),
    {
        let n = self.items.len();
        if id >= n {
            return Err(GraphError::InvalidNodeId);
        }
        let mut i: usize = 0;
        while i < ancestors.len()
            invariant
                i <= ancestors@.len(),
                id < n,
                *self == *old(self),
                self.wf(),
                n == self.values().len(),
                forall|j: int| 0 <= j < i ==> ancestors@[j] < n,
            decreases ancestors@.len() - i,
        {
            if ancestors[i] >= n {
                return Err(GraphError::InvalidAncestor);
            }
            i = i + 1;
        }
        let ghost before = self.edges();
        let mut k: usize = 0;
        while k < ancestors.len()
            invariant
                k <= ancestors@.len(),
                id < n,
                n == self.values().len(),
                n == self.ancestors@.len(),
                before.len() == n,
                self.wf(),
                self.values() == old(self).values(),
                forall|j: int| 0 <= j < ancestors@.len() ==> ancestors@[j] < n,
                self.edges() == before.update(
                    id as int,
                    before[id as int] + ancestors@.subrange(0, k as int),
                ),
            decreases ancestors@.len() - k,
        {
            let a = ancestors[k];
            let ghost prev = self.edges();
            self.ancestors[id].push(a);
            assert(self.edges() =~= prev.update(id as int, prev[id as int].push(a)));
            assert(before[id as int] + ancestors@.subrange(0, k + 1) =~= (before[id as int]
                + ancestors@.subrange(0, k as int)).push(a));
            k = k + 1;
            assert(self.edges() =~= before.update(
                id as int,
                before[id as int] + ancestors@.subrange(0, k as int),
            ));
        }
        assert(ancestors@.subrange(0, ancestors@.len() as int) =~= ancestors@);
        Ok(())
    }
}

} // verus!
