//! The mathematical model of a graph-stack's edges and of the paths that
//! descend through them.
use vstd::prelude::*;
use vstd::set_lib::{lemma_int_range, lemma_len_subset, set_int_range};

verus! {

/// `anc[v]` lists, in order, the ancestors of node `v`.
pub type Edges = Seq<Seq<usize>>;

/// Node `v` exists and has no ancestors.
pub open spec fn is_root(anc: Edges, v: int) -> bool {
    0 <= v < anc.len() && anc[v].len() == 0
}

/// Every descent from `v` reaches a root after at most `fuel` steps, through
/// existing nodes only. With `fuel` the number of nodes, this fails exactly
/// when a cycle can be reached from `v` (see
/// `lemma_reachable_cycle_unbounded` and `lemma_unbounded_reaches_cycle`).
pub open spec fn descends_within(anc: Edges, v: int, fuel: nat) -> bool
    decreases fuel,
{
    0 <= v < anc.len() && (anc[v].len() == 0 || (fuel > 0 && forall|i: int|
        #![trigger anc[v][i]]
        0 <= i < anc[v].len() ==> descends_within(anc, anc[v][i] as int, (fuel - 1) as nat)))
}

/// Each path of `ps` with `p` put in front of it.
pub open spec fn prefixed(p: Seq<usize>, ps: Seq<Seq<usize>>) -> Seq<Seq<usize>> {
    ps.map_values(|q: Seq<usize>| p + q)
}

/// The paths from `v` down to a root, of at most `fuel` steps, in the order
/// in which the enumerator yields them: by the first ancestor choice, then by
/// the next, and so on.
pub open spec fn paths_from(anc: Edges, v: int, fuel: nat) -> Seq<Seq<usize>>
    decreases fuel, 0int,
{
    if anc[v].len() == 0 {
        seq![seq![v as usize]]
    } else if fuel == 0 {
        seq![]
    } else {
        branch_paths(anc, v, 0, (fuel - 1) as nat)
    }
}

/// The paths from `v` that descend into its ancestors at positions `a` and
/// beyond, in that order, each of at most `fuel + 1` steps.
pub open spec fn branch_paths(anc: Edges, v: int, a: int, fuel: nat) -> Seq<Seq<usize>>
    decreases fuel, anc[v].len() - a,
{
    if a < 0 || a >= anc[v].len() {
        seq![]
    } else {
        prefixed(seq![v as usize], paths_from(anc, anc[v][a] as int, fuel)) + branch_paths(
            anc,
            v,
            a + 1,
            fuel,
        )
    }
}

/// `p` starts at `s` and each next node is an ancestor of the one before.
pub open spec fn is_descent(anc: Edges, s: int, p: Seq<usize>) -> bool {
    &&& p.len() > 0
    &&& p[0] == s
    &&& forall|i: int| 0 <= i < p.len() - 1 ==> #[trigger] anc[p[i] as int].contains(p[i + 1])
}

/// Some descent from `s` arrives at `v`.
pub open spec fn reachable(anc: Edges, s: int, v: int) -> bool {
    exists|p: Seq<usize>| is_descent(anc, s, p) && p.last() == v
}

pub proof fn lemma_prefixed_add(p: Seq<usize>, xs: Seq<Seq<usize>>, ys: Seq<Seq<usize>>)
    ensures
        prefixed(p, xs + ys) == prefixed(p, xs) + prefixed(p, ys),
{
    assert(prefixed(p, xs + ys) =~= prefixed(p, xs) + prefixed(p, ys));
}

pub proof fn lemma_prefixed_push(p: Seq<usize>, v: usize, xs: Seq<Seq<usize>>)
    ensures
        prefixed(p.push(v), xs) == prefixed(p, prefixed(seq![v], xs)),
{
    assert forall|i: int| 0 <= i < xs.len() implies #[trigger] prefixed(p.push(v), xs)[i] == prefixed(
        p,
        prefixed(seq![v], xs),
    )[i] by {
        assert(p.push(v) + xs[i] =~= p + (seq![v] + xs[i]));
    }
    assert(prefixed(p.push(v), xs) =~= prefixed(p, prefixed(seq![v], xs)));
}

pub proof fn lemma_prefixed_empty(xs: Seq<Seq<usize>>)
    ensures
        prefixed(seq![], xs) == xs,
{
    assert forall|i: int| 0 <= i < xs.len() implies #[trigger] prefixed(seq![], xs)[i] == xs[i] by {
        assert(Seq::<usize>::empty() + xs[i] =~= xs[i]);
    }
    assert(prefixed(seq![], xs) =~= xs);
}

/// Every ancestor named in `anc` is a node of `anc`, and every node has an
/// identity that a `usize` holds.
pub open spec fn edges_valid(anc: Edges) -> bool {
    &&& anc.len() <= usize::MAX
    &&& forall|v: int, i: int|
        0 <= v < anc.len() && 0 <= i < anc[v].len() ==> 0 <= #[trigger] anc[v][i] < anc.len()
}

/// `p` is a descent from `s` that stops at a root.
pub open spec fn is_full_descent(anc: Edges, s: int, p: Seq<usize>) -> bool {
    is_descent(anc, s, p) && is_root(anc, p.last() as int)
}

/// `anc2` holds the same nodes as `anc`, each ancestor list of `anc2`
/// starting with the corresponding list of `anc`.
pub open spec fn extends(anc: Edges, anc2: Edges) -> bool {
    &&& anc2.len() == anc.len()
    &&& forall|v: int|
        0 <= v < anc.len() ==> (#[trigger] anc[v]).len() <= anc2[v].len() && anc2[v].subrange(
            0,
            anc[v].len() as int,
        ) == anc[v]
}

/// A root has exactly one path: itself alone.
pub proof fn lemma_root_single_path(anc: Edges, v: int, fuel: nat)
    requires
        is_root(anc, v),
    ensures
        paths_from(anc, v, fuel) == seq![seq![v as usize]],
{
}

/// Each path from `v` starts at `v`, follows ancestor links, stops at a
/// root, and takes at most `fuel` steps.
pub proof fn lemma_paths_are_full_descents(anc: Edges, v: int, fuel: nat)
    requires
        edges_valid(anc),
        0 <= v < anc.len(),
    ensures
        forall|k: int|
            0 <= k < paths_from(anc, v, fuel).len() ==> {
                &&& is_full_descent(anc, v, #[trigger] paths_from(anc, v, fuel)[k])
                &&& paths_from(anc, v, fuel)[k].len() <= fuel + 1
            },
    decreases fuel, 0int,
{
    if anc[v].len() == 0 {
        let p = seq![v as usize];
        assert(paths_from(anc, v, fuel)[0] == p);
        assert(p.last() == v);
    } else if fuel > 0 {
        lemma_branch_paths_are_full_descents(anc, v, 0, (fuel - 1) as nat);
        assert(paths_from(anc, v, fuel) == branch_paths(anc, v, 0, (fuel - 1) as nat));
    }
}

/// Each path of `branch_paths(anc, v, a, fuel)` starts at `v`, follows
/// ancestor links, stops at a root, and takes at most `fuel + 1` steps.
pub proof fn lemma_branch_paths_are_full_descents(anc: Edges, v: int, a: int, fuel: nat)
    requires
        edges_valid(anc),
        0 <= v < anc.len(),
    ensures
        forall|k: int|
            0 <= k < branch_paths(anc, v, a, fuel).len() ==> {
                &&& is_full_descent(anc, v, #[trigger] branch_paths(anc, v, a, fuel)[k])
                &&& branch_paths(anc, v, a, fuel)[k].len() <= fuel + 2
            },
    decreases fuel, anc[v].len() - a,
{
    if 0 <= a < anc[v].len() {
        let u = anc[v][a];
        let below = paths_from(anc, u as int, fuel);
        let left = prefixed(seq![v as usize], below);
        let right = branch_paths(anc, v, a + 1, fuel);
        lemma_paths_are_full_descents(anc, u as int, fuel);
        lemma_branch_paths_are_full_descents(anc, v, a + 1, fuel);
        assert(branch_paths(anc, v, a, fuel) == left + right);
        assert forall|k: int| 0 <= k < (left + right).len() implies {
            &&& is_full_descent(anc, v, #[trigger] (left + right)[k])
            &&& (left + right)[k].len() <= fuel + 2
        } by {
            if k < left.len() {
                let q = below[k];
                let p = seq![v as usize] + q;
                assert((left + right)[k] == p);
                assert(is_full_descent(anc, u as int, q));
                assert(anc[v][a] == u);
                lemma_descent_cons(anc, v as usize, u as int, q);
            } else {
                assert((left + right)[k] == right[k - left.len()]);
            }
        }
    }
}

/// Putting `v` in front of a descent from one of its ancestors gives a
/// descent from `v`.
pub proof fn lemma_descent_cons(anc: Edges, v: usize, u: int, q: Seq<usize>)
    requires
        is_descent(anc, u, q),
        anc[v as int].contains(u as usize),
        0 <= u <= usize::MAX,
    ensures
        is_descent(anc, v as int, seq![v] + q),
        (seq![v] + q).last() == q.last(),
{
    let p = seq![v] + q;
    assert forall|i: int| 0 <= i < p.len() - 1 implies #[trigger] anc[p[i] as int].contains(
        p[i + 1],
    ) by {
        if i == 0 {
            assert(p[0] == v && p[1] == q[0]);
        } else {
            assert(p[i] == q[i - 1] && p[i + 1] == q[i]);
            assert(anc[q[i - 1] as int].contains(q[(i - 1) + 1]));
        }
    }
}

/// `branch_paths(anc, v, a, fuel)` holds, with `v` in front, every path from
/// the ancestor of `v` at any position `i` from `a` on.
pub proof fn lemma_branch_paths_contain(
    anc: Edges,
    v: int,
    a: int,
    i: int,
    fuel: nat,
    q: Seq<usize>,
)
    requires
        0 <= a <= i < anc[v].len(),
        paths_from(anc, anc[v][i] as int, fuel).contains(q),
    ensures
        branch_paths(anc, v, a, fuel).contains(seq![v as usize] + q),
    decreases i - a,
{
    let left = prefixed(seq![v as usize], paths_from(anc, anc[v][a] as int, fuel));
    let right = branch_paths(anc, v, a + 1, fuel);
    assert(branch_paths(anc, v, a, fuel) == left + right);
    if a == i {
        let k = choose|k: int|
            0 <= k < paths_from(anc, anc[v][i] as int, fuel).len() && paths_from(
                anc,
                anc[v][i] as int,
                fuel,
            )[k] == q;
        assert((left + right)[k] == seq![v as usize] + q);
    } else {
        lemma_branch_paths_contain(anc, v, a + 1, i, fuel, q);
        let k = choose|k: int| 0 <= k < right.len() && right[k] == seq![v as usize] + q;
        assert((left + right)[left.len() + k] == seq![v as usize] + q);
    }
}

proof fn lemma_descent_step(anc: Edges, s: int, p: Seq<usize>, i: int)
    requires
        is_descent(anc, s, p),
        0 <= i < p.len() - 1,
    ensures
        anc[p[i] as int].contains(p[i + 1]),
{
}

/// Each node of a descent from an existing node exists.
proof fn lemma_descent_node_exists(anc: Edges, s: int, p: Seq<usize>, i: int)
    requires
        edges_valid(anc),
        0 <= s < anc.len(),
        is_descent(anc, s, p),
        0 <= i < p.len(),
    ensures
        p[i] < anc.len(),
    decreases i,
{
    if i > 0 {
        lemma_descent_node_exists(anc, s, p, i - 1);
        lemma_descent_step(anc, s, p, i - 1);
        let x = p[i - 1] as int;
        let t = choose|t: int| 0 <= t < anc[x].len() && anc[x][t] == p[(i - 1) + 1];
        assert(anc[x][t] < anc.len());
    }
}

/// Every descent from `v` that stops at a root is among the paths from `v`,
/// when all descents from `v` reach a root within `fuel` steps.
pub proof fn lemma_full_descents_are_paths(anc: Edges, v: int, fuel: nat, p: Seq<usize>)
    requires
        edges_valid(anc),
        descends_within(anc, v, fuel),
        is_full_descent(anc, v, p),
    ensures
        paths_from(anc, v, fuel).contains(p),
    decreases fuel,
{
    if anc[v].len() == 0 {
        if p.len() > 1 {
            lemma_descent_step(anc, v, p, 0);
        }
        assert(p =~= seq![v as usize]);
        assert(paths_from(anc, v, fuel)[0] == p);
    } else {
        if p.len() == 1 {
            assert(p.last() == v);
        }
        lemma_descent_step(anc, v, p, 0);
        let i = choose|i: int| 0 <= i < anc[v].len() && anc[v][i] == p[1];
        let u = p[1];
        let q = p.drop_first();
        assert(descends_within(anc, anc[v][i] as int, (fuel - 1) as nat));
        assert forall|j: int| 0 <= j < q.len() - 1 implies #[trigger] anc[q[j] as int].contains(
            q[j + 1],
        ) by {
            lemma_descent_step(anc, v, p, j + 1);
        }
        assert(is_full_descent(anc, u as int, q));
        lemma_full_descents_are_paths(anc, u as int, (fuel - 1) as nat, q);
        lemma_branch_paths_contain(anc, v, 0, i, (fuel - 1) as nat, q);
        assert(seq![v as usize] + q =~= p);
    }
}

/// No path from `s` holds a node that cannot be reached from `s`.
pub proof fn lemma_paths_stay_reachable(anc: Edges, s: int, fuel: nat)
    requires
        edges_valid(anc),
        0 <= s < anc.len(),
    ensures
        forall|k: int, i: int|
            0 <= k < paths_from(anc, s, fuel).len() && 0 <= i < paths_from(anc, s, fuel)[k].len()
                ==> reachable(anc, s, #[trigger] paths_from(anc, s, fuel)[k][i] as int),
{
    lemma_paths_are_full_descents(anc, s, fuel);
    assert forall|k: int, i: int|
        0 <= k < paths_from(anc, s, fuel).len() && 0 <= i < paths_from(
            anc,
            s,
            fuel,
        )[k].len() implies reachable(anc, s, #[trigger] paths_from(anc, s, fuel)[k][i] as int) by {
        let p = paths_from(anc, s, fuel)[k];
        let w = p.subrange(0, i + 1);
        assert(is_full_descent(anc, s, p));
        assert forall|j: int| 0 <= j < w.len() - 1 implies #[trigger] anc[w[j] as int].contains(
            w[j + 1],
        ) by {
            assert(w[j] == p[j] && w[j + 1] == p[j + 1]);
        }
        assert(is_descent(anc, s, w) && w.last() == p[i]);
    }
}

/// Giving nodes more ancestors can only narrow where descents stay short.
pub proof fn lemma_descends_within_shrink(anc: Edges, anc2: Edges, v: int, fuel: nat)
    requires
        extends(anc, anc2),
        descends_within(anc2, v, fuel),
    ensures
        descends_within(anc, v, fuel),
    decreases fuel,
{
    if anc[v].len() > 0 {
        assert(anc2[v].subrange(0, anc[v].len() as int) == anc[v]);
        assert forall|i: int| #![trigger anc[v][i]] 0 <= i < anc[v].len() implies descends_within(
            anc,
            anc[v][i] as int,
            (fuel - 1) as nat,
        ) by {
            assert(anc2[v][i] == anc[v][i]);
            lemma_descends_within_shrink(anc, anc2, anc[v][i] as int, (fuel - 1) as nat);
        }
    }
}

/// A node whose descents all reach a root has at least one path.
pub proof fn lemma_bounded_has_path(anc: Edges, v: int, fuel: nat)
    requires
        descends_within(anc, v, fuel),
    ensures
        paths_from(anc, v, fuel).len() >= 1,
    decreases fuel,
{
    if anc[v].len() > 0 {
        let u = anc[v][0];
        lemma_bounded_has_path(anc, u as int, (fuel - 1) as nat);
        assert(branch_paths(anc, v, 0, (fuel - 1) as nat) == prefixed(
            seq![v as usize],
            paths_from(anc, u as int, (fuel - 1) as nat),
        ) + branch_paths(anc, v, 1, (fuel - 1) as nat));
    }
}

/// Under more ancestors, a node has at least as many paths.
pub proof fn lemma_extends_path_count(anc: Edges, anc2: Edges, v: int, fuel: nat)
    requires
        extends(anc, anc2),
        descends_within(anc2, v, fuel),
    ensures
        paths_from(anc2, v, fuel).len() >= paths_from(anc, v, fuel).len(),
    decreases fuel, 0int,
{
    if anc[v].len() == 0 {
        lemma_bounded_has_path(anc2, v, fuel);
    } else {
        lemma_extends_branch_count(anc, anc2, v, 0, (fuel - 1) as nat);
    }
}

/// Under more ancestors, the paths through the ancestors from position `a`
/// on are at least as many.
pub proof fn lemma_extends_branch_count(anc: Edges, anc2: Edges, v: int, a: int, fuel: nat)
    requires
        extends(anc, anc2),
        0 <= v < anc.len(),
        0 <= a,
        forall|i: int|
            #![trigger anc2[v][i]]
            0 <= i < anc2[v].len() ==> descends_within(anc2, anc2[v][i] as int, fuel),
    ensures
        branch_paths(anc2, v, a, fuel).len() >= branch_paths(anc, v, a, fuel).len(),
    decreases fuel, anc[v].len() - a,
{
    if a < anc[v].len() {
        assert(anc2[v].subrange(0, anc[v].len() as int) == anc[v]);
        let u = anc[v][a];
        assert(anc2[v][a] == u);
        lemma_extends_path_count(anc, anc2, u as int, fuel);
        lemma_extends_branch_count(anc, anc2, v, a + 1, fuel);
    }
}

/// Appending ancestors to node `id` never lowers the number of paths from
/// any node `s`, and leaves the descents from `s` bounded if they are
/// bounded afterwards.
pub proof fn lemma_add_ancestors_keeps_path_count(anc: Edges, id: int, added: Seq<usize>, s: int)
    requires
        0 <= id < anc.len(),
        descends_within(anc.update(id, anc[id] + added), s, anc.len()),
    ensures
        descends_within(anc, s, anc.len()),
        paths_from(anc.update(id, anc[id] + added), s, anc.len()).len() >= paths_from(
            anc,
            s,
            anc.len(),
        ).len(),
{
    let anc2 = anc.update(id, anc[id] + added);
    assert forall|v: int| 0 <= v < anc.len() implies (#[trigger] anc[v]).len() <= anc2[v].len()
        && anc2[v].subrange(0, anc[v].len() as int) == anc[v] by {
        if v == id {
            assert((anc[id] + added).subrange(0, anc[id].len() as int) =~= anc[id]);
        } else {
            assert(anc2[v].subrange(0, anc[v].len() as int) =~= anc[v]);
        }
    }
    lemma_descends_within_shrink(anc, anc2, s, anc.len());
    lemma_extends_path_count(anc, anc2, s, anc.len());
}


/// Appending ancestors to a node `id` that already has some keeps every
/// path from any node `s`: each is still yielded afterwards.
pub proof fn lemma_add_ancestors_keeps_paths(anc: Edges, id: int, added: Seq<usize>, s: int)
    requires
        edges_valid(anc),
        edges_valid(anc.update(id, anc[id] + added)),
        0 <= id < anc.len(),
        anc[id].len() > 0,
        0 <= s < anc.len(),
        descends_within(anc.update(id, anc[id] + added), s, anc.len()),
    ensures
        forall|k: int|
            0 <= k < paths_from(anc, s, anc.len()).len() ==> paths_from(
                anc.update(id, anc[id] + added),
                s,
                anc.len(),
            ).contains(#[trigger] paths_from(anc, s, anc.len())[k]),
{
    let anc2 = anc.update(id, anc[id] + added);
    let n = anc.len();
    lemma_paths_are_full_descents(anc, s, n);
    assert forall|k: int| 0 <= k < paths_from(anc, s, n).len() implies paths_from(
        anc2,
        s,
        n,
    ).contains(#[trigger] paths_from(anc, s, n)[k]) by {
        let p = paths_from(anc, s, n)[k];
        assert(is_full_descent(anc, s, p));
        assert forall|j: int| 0 <= j < p.len() - 1 implies #[trigger] anc2[p[j] as int].contains(
            p[j + 1],
        ) by {
            lemma_descent_step(anc, s, p, j);
            lemma_descent_node_exists(anc, s, p, j);
            let x = p[j] as int;
            let t = choose|t: int| 0 <= t < anc[x].len() && anc[x][t] == p[j + 1];
            if x == id {
                assert(anc2[x][t] == p[j + 1]);
            }
        }
        lemma_descent_node_exists(anc, s, p, p.len() - 1);
        assert(p.last() != id);
        lemma_full_descents_are_paths(anc2, s, n, p);
    }
}

/// Some descent of at least one step leads from `w` back to `w`.
pub open spec fn on_cycle(anc: Edges, w: int) -> bool {
    exists|c: Seq<usize>| is_descent(anc, w, c) && c.len() > 1 && c.last() == w
}

/// Where every descent from `s` reaches a root within `fuel` steps, no
/// descent from `s` is longer.
proof fn lemma_descent_length(anc: Edges, s: int, fuel: nat, p: Seq<usize>)
    requires
        descends_within(anc, s, fuel),
        is_descent(anc, s, p),
    ensures
        p.len() <= fuel + 1,
    decreases fuel,
{
    if p.len() > 1 {
        lemma_descent_step(anc, s, p, 0);
        let i = choose|i: int| 0 <= i < anc[s].len() && anc[s][i] == p[0int + 1];
        let q = p.drop_first();
        assert forall|j: int| 0 <= j < q.len() - 1 implies #[trigger] anc[q[j] as int].contains(
            q[j + 1],
        ) by {
            lemma_descent_step(anc, s, p, j + 1);
        }
        assert(descends_within(anc, anc[s][i] as int, (fuel - 1) as nat));
        lemma_descent_length(anc, p[1] as int, (fuel - 1) as nat, q);
    }
}

/// A descent to `p.last()` followed by a descent from there is a descent.
proof fn lemma_descent_join(anc: Edges, s: int, p: Seq<usize>, q: Seq<usize>)
    requires
        is_descent(anc, s, p),
        is_descent(anc, p.last() as int, q),
    ensures
        is_descent(anc, s, p + q.drop_first()),
        (p + q.drop_first()).len() == p.len() + q.len() - 1,
        (p + q.drop_first()).last() == q.last(),
{
    let r = p + q.drop_first();
    let m = p.len();
    assert forall|i: int| 0 <= i < r.len() - 1 implies #[trigger] anc[r[i] as int].contains(
        r[i + 1],
    ) by {
        if i < m - 1 {
            lemma_descent_step(anc, s, p, i);
        } else {
            let j = i - (m - 1);
            lemma_descent_step(anc, p.last() as int, q, j);
            assert(r[i] == q[j] && r[i + 1] == q[j + 1]);
        }
    }
}

/// Going round a cycle through `w` again and again gives descents from `w`
/// back to `w` as long as wanted.
proof fn lemma_cycle_pump(anc: Edges, w: int, c: Seq<usize>, m: nat) -> (r: Seq<usize>)
    requires
        is_descent(anc, w, c),
        c.len() > 1,
        c.last() == w,
    ensures
        is_descent(anc, w, r),
        r.last() == w,
        r.len() > m,
    decreases m,
{
    if m == 0 {
        c
    } else {
        let r0 = lemma_cycle_pump(anc, w, c, (m - 1) as nat);
        lemma_descent_join(anc, w, r0, c);
        r0 + c.drop_first()
    }
}

/// Where a cycle can be reached from `s`, some descent from `s` never
/// reaches a root, whatever the number of steps allowed.
pub proof fn lemma_reachable_cycle_unbounded(anc: Edges, s: int, w: int, fuel: nat)
    requires
        reachable(anc, s, w),
        on_cycle(anc, w),
    ensures
        !descends_within(anc, s, fuel),
{
    let p = choose|p: Seq<usize>| is_descent(anc, s, p) && p.last() == w;
    let c = choose|c: Seq<usize>| is_descent(anc, w, c) && c.len() > 1 && c.last() == w;
    let r = lemma_cycle_pump(anc, w, c, fuel + 1);
    lemma_descent_join(anc, s, p, r);
    if descends_within(anc, s, fuel) {
        lemma_descent_length(anc, s, fuel, p + r.drop_first());
    }
}

/// A stretch of a descent is a descent.
proof fn lemma_descent_subrange(anc: Edges, s: int, p: Seq<usize>, a: int, b: int)
    requires
        is_descent(anc, s, p),
        0 <= a < b <= p.len(),
    ensures
        is_descent(anc, p[a] as int, p.subrange(a, b)),
{
    let r = p.subrange(a, b);
    assert forall|i: int| 0 <= i < r.len() - 1 implies #[trigger] anc[r[i] as int].contains(
        r[i + 1],
    ) by {
        lemma_descent_step(anc, s, p, a + i);
        assert(r[i] == p[a + i] && r[i + 1] == p[a + i + 1]);
    }
}

/// Where not every descent from `s` reaches a root within `fuel` steps,
/// some descent from `s` takes `fuel + 1` steps.
proof fn lemma_long_descent(anc: Edges, s: int, fuel: nat) -> (p: Seq<usize>)
    requires
        edges_valid(anc),
        0 <= s < anc.len(),
        !descends_within(anc, s, fuel),
    ensures
        is_descent(anc, s, p),
        p.len() == fuel + 2,
    decreases fuel,
{
    let i = if fuel == 0 {
        0
    } else {
        choose|i: int|
            #![trigger anc[s][i]]
            0 <= i < anc[s].len() && !descends_within(anc, anc[s][i] as int, (fuel - 1) as nat)
    };
    let u = anc[s][i];
    assert(anc[s].contains(u));
    let q = if fuel == 0 {
        seq![u]
    } else {
        lemma_long_descent(anc, u as int, (fuel - 1) as nat)
    };
    lemma_descent_cons(anc, s as usize, u as int, q);
    seq![s as usize] + q
}

/// Among more values than there are numbers below `n`, two are equal.
proof fn lemma_repeat(p: Seq<usize>, n: nat) -> (r: (int, int))
    requires
        p.len() > n,
        forall|i: int| 0 <= i < p.len() ==> p[i] < n,
    ensures
        0 <= r.0 < r.1 < p.len(),
        p[r.0] == p[r.1],
{
    let q = p.map_values(|x: usize| x as int);
    if q.no_duplicates() {
        q.unique_seq_to_set();
        lemma_int_range(0, n as int);
        assert(q.to_set().subset_of(set_int_range(0, n as int)));
        lemma_len_subset(q.to_set(), set_int_range(0, n as int));
    }
    let (i, j) = choose|i: int, j: int|
        0 <= i < q.len() && 0 <= j < q.len() && i != j && q[i] == q[j];
    if i < j {
        (i, j)
    } else {
        (j, i)
    }
}

/// Where not every descent from `s` reaches a root within as many steps as
/// there are nodes, a cycle can be reached from `s`.
pub proof fn lemma_unbounded_reaches_cycle(anc: Edges, s: int) -> (w: int)
    requires
        edges_valid(anc),
        0 <= s < anc.len(),
        !descends_within(anc, s, anc.len()),
    ensures
        reachable(anc, s, w),
        on_cycle(anc, w),
{
    let p = lemma_long_descent(anc, s, anc.len());
    assert forall|i: int| 0 <= i < p.len() implies p[i] < anc.len() by {
        lemma_descent_node_exists(anc, s, p, i);
    }
    let (i, j) = lemma_repeat(p, anc.len());
    let w = p[i] as int;
    lemma_descent_subrange(anc, s, p, 0, i + 1);
    lemma_descent_subrange(anc, s, p, i, j + 1);
    assert(p.subrange(0, i + 1).last() == w);
    assert(p.subrange(i, j + 1).last() == w);
    w
}

} // verus!
