//! End-to-end walks through one workspace's graph, following the borrow,
//! take, drop and delete behaviour step by step.

use stackture::graph::Engine;
use stackture::ops::NodeOperationError;

fn edge(e: &Engine, child: u64, parent: u64) -> bool {
    e.edges.contains(&(child, parent))
}

/// create A, add B and C under it, then borrow B under C. The chain above C
/// is [A], so the borrow detaches B from A and leaves B reachable through C
/// alone.
#[test]
fn borrow_links_branch_under_node() {
    let mut e = Engine::new();
    assert_eq!(e.create_node(1, "A".to_string(), "root".to_string()), Ok(1));
    assert_eq!(e.add_node(1, 1, "B".to_string(), "b".to_string()), Ok(2));
    assert_eq!(e.add_node(1, 1, "C".to_string(), "c".to_string()), Ok(3));
    e.borrow_node(3, 2).unwrap();
    assert!(edge(&e, 3, 1));
    assert!(edge(&e, 2, 3));
    assert!(!edge(&e, 2, 1));
    assert_eq!(e.edges.len(), 2);
}

/// On the edge set {B->A, C->A, B->C}, take C B wipes both previous parents
/// of B and leaves exactly {C->A, B->C}.
#[test]
fn take_wipes_previous_parents() {
    let mut e = Engine::new();
    e.create_node(1, "A".to_string(), "root".to_string()).unwrap();
    e.add_node(1, 1, "B".to_string(), "b".to_string()).unwrap();
    e.add_node(1, 1, "C".to_string(), "c".to_string()).unwrap();
    e.borrow_node(3, 2).unwrap(); // {C->A, B->C}
    e.borrow_node(1, 2).unwrap(); // B also back under A: {C->A, B->C, B->A}
    assert!(edge(&e, 2, 1) && edge(&e, 2, 3) && edge(&e, 3, 1));
    e.take_node(3, 2).unwrap();
    assert!(!edge(&e, 2, 1));
    assert!(edge(&e, 3, 1));
    assert!(edge(&e, 2, 3));
    assert_eq!(e.edges.len(), 2);
}

/// Continuing from {C->A, B->C}: drop C B removes B's only parent link, so B
/// has zero parents, is not the root, and cascading deletion removes it.
#[test]
fn drop_last_parent_removes_branch() {
    let mut e = Engine::new();
    e.create_node(1, "A".to_string(), "root".to_string()).unwrap();
    e.add_node(1, 1, "B".to_string(), "b".to_string()).unwrap();
    e.add_node(1, 1, "C".to_string(), "c".to_string()).unwrap();
    e.borrow_node(3, 2).unwrap();
    e.take_node(3, 2).unwrap(); // {C->A, B->C}
    e.drop_node(3, 2).unwrap();
    let ids: Vec<u64> = e.nodes.iter().map(|n| n.id).collect();
    assert_eq!(ids, vec![1, 3]);
    assert_eq!(e.edges, vec![(3, 1)]);
}

/// drop of an absent link is a successful no-op, byte for byte.
#[test]
fn drop_without_edge_changes_nothing() {
    let mut e = Engine::new();
    e.create_node(1, "A".to_string(), "root".to_string()).unwrap();
    e.add_node(1, 1, "B".to_string(), "b".to_string()).unwrap();
    let before = e.clone();
    assert_eq!(e.drop_node(2, 1), Ok(())); // no edge 1 -> 2
    assert_eq!(e, before);
    assert_eq!(e.drop_node(5, 9), Ok(())); // neither node exists
    assert_eq!(e, before);
}

/// borrow B A where B is a descendant of A must fail with CyclicReference
/// and leave the graph byte for byte unchanged.
#[test]
fn borrow_of_ancestor_rejected_unchanged() {
    let mut e = Engine::new();
    e.create_node(1, "A".to_string(), "root".to_string()).unwrap();
    e.add_node(1, 1, "B".to_string(), "b".to_string()).unwrap();
    let before = e.clone();
    assert_eq!(e.borrow_node(2, 1), Err(NodeOperationError::CyclicReference));
    assert_eq!(e, before);
}

/// No sequence of borrows and takes ever makes a node reachable from itself.
#[test]
fn no_cycle_arises_from_borrow_and_take() {
    let mut e = Engine::new();
    e.create_node(1, "A".to_string(), "root".to_string()).unwrap();
    for i in 0..5u64 {
        e.add_node(1, i + 1, format!("N{}", i), "n".to_string()).unwrap();
    }
    let ops: Vec<(u64, u64)> = vec![(3, 5), (2, 4), (6, 2), (1, 6), (4, 6), (5, 3), (2, 2)];
    for (node, branch) in ops {
        let _ = e.borrow_node(node, branch);
        let _ = e.take_node(node, branch);
    }
    // walk downward from every node: it must never come back
    for n in &e.nodes {
        let mut frontier = vec![n.id];
        let mut seen: Vec<u64> = vec![];
        while let Some(cur) = frontier.pop() {
            for &(c, p) in &e.edges {
                if p == cur && !seen.contains(&c) {
                    assert_ne!(c, n.id, "node {} reached itself", n.id);
                    seen.push(c);
                    frontier.push(c);
                }
            }
        }
    }
}
