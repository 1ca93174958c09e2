use std::collections::HashMap;

use graph_stack::{GraphError, GraphStack};

#[test]
fn check_iterator() {
    // a - b - c - e - f - g - h
    //      \ d -/------/
    let mut gs = GraphStack::new();
    let idmap: HashMap<_, _> = ["a", "b", "c", "d", "e", "f", "g", "h"]
        .iter()
        .cloned()
        .map(|value| (value, gs.push(value, &[]).unwrap()))
        .collect();

    gs.add_ancestors(idmap["b"], &[idmap["a"]]).unwrap();
    gs.add_ancestors(idmap["c"], &[idmap["b"]]).unwrap();
    gs.add_ancestors(idmap["d"], &[idmap["b"]]).unwrap();
    gs.add_ancestors(idmap["e"], &[idmap["c"], idmap["d"]]).unwrap();
    gs.add_ancestors(idmap["f"], &[idmap["e"]]).unwrap();
    gs.add_ancestors(idmap["g"], &[idmap["d"], idmap["f"]]).unwrap();
    gs.add_ancestors(idmap["h"], &[idmap["g"]]).unwrap();
    let mut it = gs.stacks(idmap["h"]).unwrap();
    assert_eq!(it.next().unwrap(), vec![&"h", &"g", &"d", &"b", &"a"]);
    assert_eq!(
        it.next().unwrap(),
        vec![&"h", &"g", &"f", &"e", &"c", &"b", &"a"]
    );
    assert_eq!(
        it.next().unwrap(),
        vec![&"h", &"g", &"f", &"e", &"d", &"b", &"a"]
    );
    assert!(it.next().is_none());
}

#[test]
fn disjoint_stacks() {
    // a - b - c
    // d - e
    let mut gs = GraphStack::new();
    let idmap: HashMap<_, _> = ["a", "b", "c", "d", "e"]
        .iter()
        .cloned()
        .map(|value| (value, gs.push(value, &[]).unwrap()))
        .collect();

    gs.add_ancestors(idmap["b"], &[idmap["a"]]).unwrap();
    gs.add_ancestors(idmap["c"], &[idmap["b"]]).unwrap();
    // disjoint stack
    gs.add_ancestors(idmap["e"], &[idmap["d"]]).unwrap();

    let mut it = gs.stacks(idmap["e"]).unwrap();
    assert_eq!(it.next().unwrap(), vec![&"e", &"d"]);
    assert!(it.next().is_none());

    let mut it = gs.stacks(idmap["c"]).unwrap();
    assert_eq!(it.next().unwrap(), vec![&"c", &"b", &"a"]);
    assert!(it.next().is_none());
}

#[test]
fn x_stack() {
    // a - b - c
    // d /  \ e
    let mut gs = GraphStack::new();
    let idmap: HashMap<_, _> = ["a", "b", "c", "d", "e"]
        .iter()
        .cloned()
        .map(|value| (value, gs.push(value, &[]).unwrap()))
        .collect();

    gs.add_ancestors(idmap["b"], &[idmap["a"], idmap["d"]]).unwrap();
    gs.add_ancestors(idmap["c"], &[idmap["b"]]).unwrap();
    gs.add_ancestors(idmap["e"], &[idmap["b"]]).unwrap();

    let mut it = gs.stacks(idmap["e"]).unwrap();
    assert_eq!(it.next().unwrap(), vec![&"e", &"b", &"a"]);
    assert_eq!(it.next().unwrap(), vec![&"e", &"b", &"d"]);
    assert!(it.next().is_none());

    let mut it = gs.stacks(idmap["c"]).unwrap();
    assert_eq!(it.next().unwrap(), vec![&"c", &"b", &"a"]);
    assert_eq!(it.next().unwrap(), vec![&"c", &"b", &"d"]);
    assert!(it.next().is_none());

    let mut it = gs.stacks(idmap["b"]).unwrap();
    assert_eq!(it.next().unwrap(), vec![&"b", &"a"]);
    assert_eq!(it.next().unwrap(), vec![&"b", &"d"]);
    assert!(it.next().is_none());
}

fn collect_paths<'a>(gs: &'a GraphStack<&'static str>, start: usize) -> Vec<Vec<&'a &'static str>> {
    let mut it = gs.stacks(start).unwrap();
    let mut out = Vec::new();
    while let Some(p) = it.next() {
        out.push(p);
    }
    out
}

#[test]
fn push_assigns_sequential_ids() {
    let mut gs = GraphStack::new();
    assert_eq!(gs.push("a", &[]), Ok(0));
    assert_eq!(gs.push("b", &[0]), Ok(1));
    assert_eq!(gs.push("c", &[0, 1]), Ok(2));
    assert_eq!(gs.len(), 3);
    assert_eq!(gs.get(1), Some(&"b"));
    assert_eq!(gs.get(3), None);
}

#[test]
fn root_yields_single_path() {
    let mut gs = GraphStack::new();
    let a = gs.push("a", &[]).unwrap();
    let _b = gs.push("b", &[a]).unwrap();
    let mut it = gs.stacks(a).unwrap();
    assert_eq!(it.next().unwrap(), vec![&"a"]);
    assert!(it.next().is_none());
    assert!(it.next().is_none());
}

#[test]
fn paths_start_at_start_and_end_at_roots() {
    let mut gs = GraphStack::new();
    let a = gs.push("a", &[]).unwrap();
    let b = gs.push("b", &[]).unwrap();
    let c = gs.push("c", &[a, b]).unwrap();
    let d = gs.push("d", &[c, a]).unwrap();
    let paths = collect_paths(&gs, d);
    assert_eq!(
        paths,
        vec![
            vec![&"d", &"c", &"a"],
            vec![&"d", &"c", &"b"],
            vec![&"d", &"a"],
        ]
    );
    for p in &paths {
        assert_eq!(*p[0], "d");
        let last = **p.last().unwrap();
        assert!(last == "a" || last == "b");
    }
}

#[test]
fn unreachable_nodes_never_appear() {
    let mut gs = GraphStack::new();
    let a = gs.push("a", &[]).unwrap();
    let b = gs.push("b", &[a]).unwrap();
    let x = gs.push("x", &[]).unwrap();
    let _y = gs.push("y", &[x, b]).unwrap();
    let paths = collect_paths(&gs, b);
    assert_eq!(paths, vec![vec![&"b", &"a"]]);
}

#[test]
fn restarting_reproduces_the_same_paths() {
    let mut gs = GraphStack::new();
    let a = gs.push("a", &[]).unwrap();
    let b = gs.push("b", &[]).unwrap();
    let c = gs.push("c", &[a, b]).unwrap();
    let d = gs.push("d", &[c, b, c]).unwrap();
    let first = collect_paths(&gs, d);
    let second = collect_paths(&gs, d);
    assert_eq!(first.len(), 5);
    assert_eq!(first, second);
}

#[test]
fn duplicate_ancestors_give_duplicate_paths() {
    let mut gs = GraphStack::new();
    let a = gs.push("a", &[]).unwrap();
    let b = gs.push("b", &[a, a]).unwrap();
    assert_eq!(collect_paths(&gs, b), vec![vec![&"b", &"a"], vec![&"b", &"a"]]);
}

#[test]
fn extending_ancestors_does_not_lose_paths() {
    let mut gs = GraphStack::new();
    let a = gs.push("a", &[]).unwrap();
    let b = gs.push("b", &[]).unwrap();
    let c = gs.push("c", &[a]).unwrap();
    let d = gs.push("d", &[c]).unwrap();
    assert_eq!(collect_paths(&gs, d).len(), 1);
    gs.add_ancestors(c, &[b]).unwrap();
    assert_eq!(
        collect_paths(&gs, d),
        vec![vec![&"d", &"c", &"a"], vec![&"d", &"c", &"b"]]
    );
    // A root that gains an ancestor keeps at least as many paths.
    assert_eq!(collect_paths(&gs, a).len(), 1);
    gs.add_ancestors(a, &[b]).unwrap();
    assert_eq!(collect_paths(&gs, a), vec![vec![&"a", &"b"]]);
    assert_eq!(collect_paths(&gs, d).len(), 2);
}

#[test]
fn push_with_unknown_ancestor_fails() {
    let mut gs = GraphStack::new();
    gs.push("a", &[]).unwrap();
    assert_eq!(gs.push("x", &[999]), Err(GraphError::InvalidAncestor));
    assert_eq!(gs.push("x", &[0, 1]), Err(GraphError::InvalidAncestor));
    assert_eq!(gs.len(), 1);
}

#[test]
fn add_ancestors_to_unknown_node_fails() {
    let mut gs = GraphStack::new();
    gs.push("a", &[]).unwrap();
    assert_eq!(gs.add_ancestors(999, &[0]), Err(GraphError::InvalidNodeId));
}

#[test]
fn add_unknown_ancestor_fails() {
    let mut gs = GraphStack::new();
    let a = gs.push("a", &[]).unwrap();
    assert_eq!(gs.add_ancestors(a, &[5]), Err(GraphError::InvalidAncestor));
    assert_eq!(collect_paths(&gs, a), vec![vec![&"a"]]);
}

#[test]
fn stacks_from_unknown_node_fails() {
    let mut gs: GraphStack<&str> = GraphStack::new();
    assert!(matches!(gs.stacks(0), Err(GraphError::InvalidNodeId)));
    gs.push("a", &[]).unwrap();
    assert!(matches!(gs.stacks(1), Err(GraphError::InvalidNodeId)));
}

#[test]
fn reachable_cycle_is_detected() {
    let mut gs = GraphStack::new();
    let a = gs.push("a", &[]).unwrap();
    let b = gs.push("b", &[a]).unwrap();
    let c = gs.push("c", &[b]).unwrap();
    let r = gs.push("r", &[]).unwrap();
    gs.add_ancestors(a, &[r, b]).unwrap();
    assert!(matches!(gs.stacks(c), Err(GraphError::CycleDetected)));
    assert!(matches!(gs.stacks(a), Err(GraphError::CycleDetected)));
    // The cycle cannot be reached from the root below it.
    assert_eq!(collect_paths(&gs, r), vec![vec![&"r"]]);
    let s = gs.push("s", &[]).unwrap();
    gs.add_ancestors(s, &[s]).unwrap();
    assert!(matches!(gs.stacks(s), Err(GraphError::CycleDetected)));
}
