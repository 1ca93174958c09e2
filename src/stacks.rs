//! The lazy path enumerator: a depth-first walk over ancestor choices, kept
//! as an explicit stack of cursors so that each call yields one path.
use vstd::prelude::*;

use crate::paths::{
    branch_paths,
    descends_within,
    edges_valid,
    is_full_descent,
    lemma_full_descents_are_paths,
    lemma_paths_are_full_descents,
    lemma_paths_stay_reachable,
    lemma_prefixed_add,
    lemma_prefixed_empty,
    lemma_prefixed_push,
    lemma_reachable_cycle_unbounded,
    lemma_unbounded_reaches_cycle,
    on_cycle,
    paths_from,
    prefixed,
    reachable,
    Edges,
};
use crate::store::{GraphError, GraphStack};

verus! {

/// One level of the walk: a node, and which of its ancestors is explored.
struct Cursor {
    item: usize,
    ancestor: usize,
}

/// The enumerator of the paths from one node of a graph-stack down to roots.
pub struct Stacks<'a, T> {
    /// One cursor per level of the current path, the start node first.
    cursors: Vec<Cursor>,
    /// The values of the cursors' nodes, level by level.
    unstack: Vec<&'a T>,
    /// The store being walked.
    gs: &'a GraphStack<T>,
}

/// `out` holds, in order, the values of the nodes of `path`.
pub open spec fn shows_path<T>(out: Seq<&T>, values: Seq<T>, path: Seq<usize>) -> bool {
    &&& out.len() == path.len()
    &&& forall|i: int| 0 <= i < path.len() ==> *out[i] == values[path[i] as int]
}

/// The paths that the enumerator started at `start` yields, in order.
pub open spec fn all_paths<T>(gs: GraphStack<T>, start: int) -> Seq<Seq<usize>> {
    paths_from(gs.edges(), start, gs.values().len())
}

spec fn ids(cs: Seq<Cursor>) -> Seq<usize> {
    cs.map_values(|c: Cursor| c.item)
}

/// The paths still to come below cursor `c` when it is the deepest one and
/// may descend `fuel` more steps.
spec fn from_cursor(anc: Edges, c: Cursor, fuel: nat) -> Seq<Seq<usize>> {
    if anc[c.item as int].len() == 0 {
        seq![seq![c.item]]
    } else if fuel == 0 {
        seq![]
    } else {
        branch_paths(anc, c.item as int, c.ancestor as int, (fuel - 1) as nat)
    }
}

/// The paths still to come through the later ancestors of each cursor of
/// `cs`, the deepest first.
spec fn pending(anc: Edges, cs: Seq<Cursor>) -> Seq<Seq<usize>>
    decreases cs.len(),
{
    if cs.len() == 0 {
        seq![]
    } else {
        let k = cs.len() - 1;
        let c = cs[k];
        prefixed(
            ids(cs.drop_last()),
            branch_paths(anc, c.item as int, c.ancestor + 1, (anc.len() - k - 1) as nat),
        ) + pending(anc, cs.drop_last())
    }
}

/// All the paths still to come from the cursor stack `cs`.
spec fn rem(anc: Edges, cs: Seq<Cursor>) -> Seq<Seq<usize>> {
    if cs.len() == 0 {
        seq![]
    } else {
        let k = cs.len() - 1;
        prefixed(ids(cs.drop_last()), from_cursor(anc, cs[k], (anc.len() - k) as nat)) + pending(
            anc,
            cs.drop_last(),
        )
    }
}

proof fn lemma_ids_push(cs: Seq<Cursor>, c: Cursor)
    ensures
        ids(cs.push(c)) == ids(cs).push(c.item),
        cs.push(c).drop_last() == cs,
{
    assert(ids(cs.push(c)) =~= ids(cs).push(c.item));
    assert(cs.push(c).drop_last() =~= cs);
}

proof fn lemma_from_fresh_cursor(anc: Edges, c: Cursor, fuel: nat)
    requires
        c.ancestor == 0,
    ensures
        from_cursor(anc, c, fuel) == paths_from(anc, c.item as int, fuel),
{
}


/// Descending into the explored ancestor of the deepest cursor leaves the
/// paths still to come unchanged.
proof fn lemma_descend(anc: Edges, cs: Seq<Cursor>, u: usize)
    requires
        cs.len() > 0,
        cs.len() - 1 < anc.len(),
        0 <= cs.last().item < anc.len(),
        anc[cs.last().item as int].len() > 0,
        cs.last().ancestor < anc[cs.last().item as int].len(),
        u == anc[cs.last().item as int][cs.last().ancestor as int],
    ensures
        rem(anc, cs.push(Cursor { item: u, ancestor: 0 })) == rem(anc, cs),
{
    let k = cs.len() - 1;
    let c = cs[k];
    let v = c.item;
    let f = (anc.len() - k) as nat;
    let lower = cs.drop_last();
    let p = ids(lower);
    let child = Cursor { item: u, ancestor: 0 };
    let below = paths_from(anc, u as int, (f - 1) as nat);
    let later = branch_paths(anc, v as int, c.ancestor + 1, (f - 1) as nat);
    assert(lower.push(c) =~= cs);
    lemma_ids_push(lower, c);
    lemma_ids_push(cs, child);
    lemma_from_fresh_cursor(anc, child, (f - 1) as nat);
    assert(from_cursor(anc, c, f) == prefixed(seq![v], below) + later);
    lemma_prefixed_push(p, v, below);
    lemma_prefixed_add(p, prefixed(seq![v], below), later);
    assert(rem(anc, cs.push(child)) == prefixed(ids(cs), below) + pending(anc, cs));
    assert(pending(anc, cs) == prefixed(p, later) + pending(anc, lower));
    assert((prefixed(p, prefixed(seq![v], below)) + prefixed(p, later)) + pending(anc, lower)
        =~= prefixed(p, prefixed(seq![v], below)) + (prefixed(p, later) + pending(anc, lower)));
}

/// A deepest cursor with no later ancestor adds nothing to what is pending.
proof fn lemma_pop(anc: Edges, cs: Seq<Cursor>)
    requires
        cs.len() > 0,
        cs.last().ancestor + 1 >= anc[cs.last().item as int].len(),
    ensures
        pending(anc, cs) == pending(anc, cs.drop_last()),
{
    let k = cs.len() - 1;
    let c = cs[k];
    let none = branch_paths(anc, c.item as int, c.ancestor + 1, (anc.len() - k - 1) as nat);
    assert(none =~= Seq::<Seq<usize>>::empty());
    assert(prefixed(ids(cs.drop_last()), none) =~= Seq::<Seq<usize>>::empty());
    assert(Seq::<Seq<usize>>::empty() + pending(anc, cs.drop_last()) =~= pending(
        anc,
        cs.drop_last(),
    ));
}

/// Moving the deepest cursor to its next ancestor makes what was pending
/// the paths to come.
proof fn lemma_advance(anc: Edges, cs: Seq<Cursor>)
    requires
        cs.len() > 0,
        cs.len() - 1 < anc.len(),
        cs.last().ancestor + 1 < anc[cs.last().item as int].len(),
        descends_within(anc, cs.last().item as int, (anc.len() - (cs.len() - 1)) as nat),
        cs.last().ancestor + 1 <= usize::MAX,
    ensures
        rem(
            anc,
            cs.update(
                cs.len() - 1,
                Cursor { item: cs.last().item, ancestor: (cs.last().ancestor + 1) as usize },
            ),
        ) == pending(anc, cs),
{
    let k = cs.len() - 1;
    let c = cs[k];
    let moved = cs.update(k, Cursor { item: c.item, ancestor: (c.ancestor + 1) as usize });
    assert(moved.drop_last() =~= cs.drop_last());
    assert(moved[k].ancestor == c.ancestor + 1);
    assert(from_cursor(anc, moved[k], (anc.len() - k) as nat) == branch_paths(
        anc,
        c.item as int,
        c.ancestor + 1,
        (anc.len() - k - 1) as nat,
    ));
}

/// A deepest cursor at a root closes the path formed by all cursors.
proof fn lemma_emit(anc: Edges, cs: Seq<Cursor>)
    requires
        cs.len() > 0,
        anc[cs.last().item as int].len() == 0,
    ensures
        rem(anc, cs).len() > 0,
        rem(anc, cs)[0] == ids(cs),
        rem(anc, cs).drop_first() == pending(anc, cs),
{
    let k = cs.len() - 1;
    let c = cs[k];
    let lower = cs.drop_last();
    assert(lower.push(c) =~= cs);
    lemma_ids_push(lower, c);
    lemma_pop(anc, cs);
    assert(prefixed(ids(lower), seq![seq![c.item]])[0] =~= ids(cs));
    assert(rem(anc, cs).drop_first() =~= pending(anc, lower));
}

/// The enumerator started at a root yields that root alone, once.
pub proof fn lemma_root_yields_itself<T>(gs: GraphStack<T>, start: int)
    requires
        gs.wf(),
        0 <= start < gs.values().len(),
        gs.edges()[start].len() == 0,
    ensures
        descends_within(gs.edges(), start, gs.values().len()),
        all_paths(gs, start) == seq![seq![start as usize]],
{
}

/// Every path that the enumerator started at `start` yields begins at
/// `start`, descends through ancestor links, ends at a root, and holds only
/// nodes reachable from `start`.
pub proof fn lemma_yielded_paths_descend<T>(gs: GraphStack<T>, start: int)
    requires
        gs.wf(),
        0 <= start < gs.values().len(),
    ensures
        forall|k: int|
            0 <= k < all_paths(gs, start).len() ==> {
                &&& is_full_descent(gs.edges(), start, #[trigger] all_paths(gs, start)[k])
                &&& all_paths(gs, start)[k][0] == start
                &&& gs.edges()[all_paths(gs, start)[k].last() as int].len() == 0
            },
        forall|k: int, i: int|
            0 <= k < all_paths(gs, start).len() && 0 <= i < all_paths(gs, start)[k].len()
                ==> reachable(gs.edges(), start, #[trigger] all_paths(gs, start)[k][i] as int),
{
    let anc = gs.edges();
    assert(edges_valid(anc));
    lemma_paths_are_full_descents(anc, start, gs.values().len());
    lemma_paths_stay_reachable(anc, start, gs.values().len());
}

/// The enumerator started at `start` yields every descent from `start` that
/// stops at a root.
pub proof fn lemma_every_descent_is_yielded<T>(gs: GraphStack<T>, start: int, p: Seq<usize>)
    requires
        gs.wf(),
        descends_within(gs.edges(), start, gs.values().len()),
        is_full_descent(gs.edges(), start, p),
    ensures
        all_paths(gs, start).contains(p),
{
    assert(edges_valid(gs.edges()));
    lemma_full_descents_are_paths(gs.edges(), start, gs.values().len(), p);
}

/// Starting an enumerator at `start` is refused with `CycleDetected`
/// exactly when a cycle can be reached from `start`.
pub proof fn lemma_cycle_detected_iff_reachable_cycle<T>(gs: GraphStack<T>, start: int)
    requires
        gs.wf(),
        0 <= start < gs.values().len(),
    ensures
        !descends_within(gs.edges(), start, gs.values().len()) <==> exists|w: int|
            reachable(gs.edges(), start, w) && on_cycle(gs.edges(), w),
{
    let anc = gs.edges();
    assert(edges_valid(anc));
    if !descends_within(anc, start, gs.values().len()) {
        let w = lemma_unbounded_reaches_cycle(anc, start);
    }
    if exists|w: int| reachable(anc, start, w) && on_cycle(anc, w) {
        let w = choose|w: int| reachable(anc, start, w) && on_cycle(anc, w);
        lemma_reachable_cycle_unbounded(anc, start, w, gs.values().len());
    }
}

/// Two enumerators started at the same node of the same store have the
/// same paths to yield, in the same order.
pub proof fn lemma_restart_yields_same<T>(a: Stacks<T>, b: Stacks<T>, start: int)
    requires
        a.remaining() == all_paths(a.store(), start),
        b.remaining() == all_paths(b.store(), start),
        a.store() == b.store(),
    ensures
        a.remaining() == b.remaining(),
{
}

impl<'a, T> Stacks<'a, T> {
    /// The store being walked.
    pub closed spec fn store(&self) -> GraphStack<T> {
        *self.gs
    }

    /// The paths that the enumerator has still to yield, in order.
    pub closed spec fn remaining(&self) -> Seq<Seq<usize>> {
        rem(self.gs.edges(), self.cursors@)
    }

    /// The cursors form a descent through the store, every node on it
    /// reaches a root within the steps that remain, and the value buffer
    /// mirrors the cursors.
    pub closed spec fn wf(&self) -> bool {
        let anc = self.gs.edges();
        let n = anc.len();
        let cs = self.cursors@;
        &&& self.gs.wf()
        &&& cs.len() <= n + 1
        &&& self.unstack@.len() == cs.len()
        &&& forall|j: int|
            0 <= j < cs.len() ==> {
                &&& (#[trigger] cs[j]).item < n
                &&& descends_within(anc, cs[j].item as int, (n - j) as nat)
                &&& *self.unstack@[j] == self.gs.values()[cs[j].item as int]
            }
        &&& forall|j: int|
            0 <= j < cs.len() - 1 ==> {
                &&& (#[trigger] cs[j]).ancestor < anc[cs[j].item as int].len()
                &&& cs[j + 1].item == anc[cs[j].item as int][cs[j].ancestor as int]
            }
        &&& cs.len() > 0 && anc[cs.last().item as int].len() > 0 ==> cs.last().ancestor
            < anc[cs.last().item as int].len()
    }
    /// A fresh enumerator of the paths from `start_item`. Refused with
    /// `InvalidNodeId` when there is no such node, else with `CycleDetected`
    /// when a cycle can be reached from it.
    fn new(gs: &'a GraphStack<T>, start_item: usize) -> (r: Result<Self, GraphError>)
        requires
            gs.wf(),
        ensures
            start_item >= gs.values().len() ==> r == Err::<Self, GraphError>(
                GraphError::InvalidNodeId,
            ),
            start_item < gs.values().len() && !descends_within(
                gs.edges(),
                start_item as int,
                gs.values().len(),
            ) ==> r == Err::<Self, GraphError>(GraphError::CycleDetected),
            start_item < gs.values().len() && descends_within(
                gs.edges(),
                start_item as int,
                gs.values().len(),
            ) ==> r is Ok,
            r is Ok ==> {
                &&& r->Ok_0.wf()
                &&& r->Ok_0.store() == *gs
                &&& r->Ok_0.remaining() == all_paths(*gs, start_item as int)
            },
    {
        if start_item >= gs.len() {
            return Err(GraphError::InvalidNodeId);
        }
        if !gs.descent_bounded(start_item) {
            return Err(GraphError::CycleDetected);
        }
        let mut cursors: Vec<Cursor> = Vec::new();
        cursors.push(Cursor { item: start_item, ancestor: 0 });
        let mut unstack: Vec<&'a T> = Vec::new();
        unstack.push(gs.value_at(start_item));
        let r = Stacks { cursors, unstack, gs };
        proof {
            let anc = gs.edges();
            let c = Cursor { item: start_item, ancestor: 0 };
            let none = Seq::<Cursor>::empty();
            lemma_ids_push(none, c);
            assert(r.cursors@ =~= none.push(c));
            assert(ids(none) =~= Seq::<usize>::empty());
            lemma_from_fresh_cursor(anc, c, anc.len());
            lemma_prefixed_empty(paths_from(anc, start_item as int, anc.len()));
            assert(rem(anc, r.cursors@) =~= paths_from(anc, start_item as int, anc.len()));
        }
        Ok(r)
    }

    /// Yields the next path, as the values of its nodes from the start node
    /// down to a root, or `None` once every path has been yielded.
    pub fn next(&mut self) -> (r: Option<Vec<&'a T>>)
        requires
            old(self).wf(),
        ensures
            final(self).wf(),
            final(self).store() == old(self).store(),
            old(self).remaining().len() == 0 ==> r is None && final(self).remaining() == old(
                self,
            ).remaining(),
            old(self).remaining().len() > 0 ==> {
                &&& r is Some
                &&& shows_path(r.unwrap()@, old(self).store().values(), old(self).remaining()[0])
                &&& final(self).remaining() == old(self).remaining().drop_first()
            },
    {
        if self.cursors.len() == 0 {
            return None;
        }
        let gs: &'a GraphStack<T> = self.gs;
        let ghost anc = gs.edges();
        let ghost target = self.remaining();
        // Descend through the explored ancestors down to a root.
        loop
            invariant
                self.wf(),
                self.gs == gs,
                anc == gs.edges(),
                self.cursors@.len() > 0,
                self.remaining() == target,
            ensures
                self.wf(),
                self.gs == gs,
                self.cursors@.len() > 0,
                self.remaining() == target,
                anc[self.cursors@.last().item as int].len() == 0,
            decreases anc.len() + 1 - self.cursors@.len(),
        {
            let top = self.cursors.len() - 1;
            let item = self.cursors[top].item;
            let choice = self.cursors[top].ancestor;
            let list = gs.ancestors_at(item);
            if list.len() == 0 {
                break;
            }
            let prev = list[choice];
            proof {
                let cs = self.cursors@;
                assert(cs[top as int].item < anc.len());
                assert(descends_within(anc, item as int, (anc.len() - top) as nat));
                assert(descends_within(anc, prev as int, (anc.len() - top - 1) as nat));
                lemma_descend(anc, cs, prev);
            }
            let ghost before = self.cursors@;
            self.unstack.push(gs.value_at(prev));
            self.cursors.push(Cursor { item: prev, ancestor: 0 });
            proof {
                let cs = self.cursors@;
                assert(cs == before.push(Cursor { item: prev, ancestor: 0 }));
                assert forall|j: int| 0 <= j < cs.len() - 1 implies {
                    &&& (#[trigger] cs[j]).ancestor < anc[cs[j].item as int].len()
                    &&& cs[j + 1].item == anc[cs[j].item as int][cs[j].ancestor as int]
                } by {
                    if j < top {
                        assert(cs[j] == before[j]);
                    }
                }
            }
        }
        let snapshot = self.unstack.clone();
        let ghost path = ids(self.cursors@);
        proof {
            lemma_emit(anc, self.cursors@);
            assert forall|i: int| 0 <= i < path.len() implies *snapshot@[i] == gs.values()[path[i] as int] by {
                assert(self.cursors@[i].item == path[i]);
            }
        }
        let ghost rest = target.drop_first();
        // Back up to the deepest cursor with an ancestor left to explore.
        loop
            invariant_except_break
                self.wf(),
                self.gs == gs,
                anc == gs.edges(),
                pending(anc, self.cursors@) == rest,
            ensures
                self.wf(),
                self.gs == gs,
                self.remaining() == rest,
            decreases self.cursors@.len(),
        {
            if self.cursors.len() == 0 {
                break;
            }
            let top = self.cursors.len() - 1;
            let item = self.cursors[top].item;
            let count = gs.ancestors_at(item).len();
            if count > 0 && self.cursors[top].ancestor < count - 1 {
                let ghost before = self.cursors@;
                proof {
                    assert(before[top as int].item < anc.len());
                    lemma_advance(anc, before);
                }
                self.cursors[top].ancestor = self.cursors[top].ancestor + 1;
                proof {
                    let cs = self.cursors@;
                    assert(cs =~= before.update(
                        top as int,
                        Cursor { item, ancestor: cs[top as int].ancestor },
                    ));
                }
                break;
            }
            proof {
                lemma_pop(anc, self.cursors@);
            }
            self.cursors.pop();
            self.unstack.pop();
        }
        Some(snapshot)
    }
}

impl<T> GraphStack<T> {
    /// A fresh enumerator of the paths from `start_item` down to the roots.
    /// Refused with `InvalidNodeId` when there is no such node, else with
    /// `CycleDetected` when a cycle can be reached from it.
    pub fn stacks(&self, start_item: usize) -> (r: Result<Stacks<'_, T>, GraphError>)
        requires
            self.wf(),
        ensures
            start_item >= self.values().len() ==> r == Err::<Stacks<'_, T>, GraphError>(
                GraphError::InvalidNodeId,
            ),
            start_item < self.values().len() && !descends_within(
                self.edges(),
                start_item as int,
                self.values().len(),
            ) ==> r == Err::<Stacks<'_, T>, GraphError>(GraphError::CycleDetected),
            start_item < self.values().len() && descends_within(
                self.edges(),
                start_item as int,
                self.values().len(),
            ) ==> r is Ok,
            r is Ok ==> {
                &&& r->Ok_0.wf()
                &&& r->Ok_0.store() == *self
                &&& r->Ok_0.remaining() == all_paths(*self, start_item as int)
            },
    {
        Stacks::new(self, start_item)
    }
}

} // verus!
