use stackture::graph::Engine;
use stackture::ops::NodeOperationError;

fn edge(e: &Engine, child: u64, parent: u64) -> bool {
    e.edges.contains(&(child, parent))
}

#[test]
fn create_assigns_first_id() {
    let mut e = Engine::new();
    let id = e.create_node(1, "A".to_string(), "root".to_string()).unwrap();
    assert_eq!(id, 1);
    assert_eq!(e.nodes.len(), 1);
    assert_eq!(e.nodes[0].id, 1);
    assert_eq!(e.nodes[0].workspace_id, 1);
    assert_eq!(e.nodes[0].name, "A");
    assert_eq!(e.nodes[0].summary, "root");
    assert!(!e.nodes[0].optional);
    assert!(!e.nodes[0].resolved);
    assert_eq!(e.nodes[0].icon, None);
    assert!(e.edges.is_empty());
}

#[test]
fn second_create_rejected() {
    let mut e = Engine::new();
    e.create_node(1, "A".to_string(), "root".to_string()).unwrap();
    let before = e.clone();
    let r = e.create_node(1, "B".to_string(), "again".to_string());
    assert_eq!(r, Err(NodeOperationError::RootAlreadyExists));
    assert_eq!(e, before);
}

#[test]
fn create_in_second_workspace_succeeds() {
    let mut e = Engine::new();
    assert_eq!(e.create_node(1, "A".to_string(), "a".to_string()), Ok(1));
    assert_eq!(e.create_node(2, "B".to_string(), "b".to_string()), Ok(2));
}

#[test]
fn create_again_after_root_deleted() {
    let mut e = Engine::new();
    assert_eq!(e.create_node(1, "A".to_string(), "a".to_string()), Ok(1));
    e.delete_node(1).unwrap();
    assert_eq!(e.create_node(1, "B".to_string(), "b".to_string()), Ok(2));
}

#[test]
fn add_makes_node_and_edge() {
    let mut e = Engine::new();
    e.create_node(1, "A".to_string(), "root".to_string()).unwrap();
    let id = e.add_node(1, 1, "B".to_string(), "b".to_string()).unwrap();
    assert_eq!(id, 2);
    assert_eq!(e.nodes.len(), 2);
    assert_eq!(e.edges, vec![(2, 1)]);
}

#[test]
fn add_under_missing_parent_rejected() {
    let mut e = Engine::new();
    e.create_node(1, "A".to_string(), "root".to_string()).unwrap();
    let before = e.clone();
    let r = e.add_node(1, 99, "B".to_string(), "b".to_string());
    assert_eq!(r, Err(NodeOperationError::NonexistentNode));
    assert_eq!(e, before);
}

#[test]
fn add_under_parent_of_other_workspace_rejected() {
    let mut e = Engine::new();
    e.create_node(1, "A".to_string(), "root".to_string()).unwrap();
    let r = e.add_node(2, 1, "B".to_string(), "b".to_string());
    assert_eq!(r, Err(NodeOperationError::NonexistentNode));
}

#[test]
fn borrow_missing_node_rejected() {
    let mut e = Engine::new();
    e.create_node(1, "A".to_string(), "root".to_string()).unwrap();
    assert_eq!(e.borrow_node(1, 99), Err(NodeOperationError::NonexistentNode));
    assert_eq!(e.borrow_node(99, 1), Err(NodeOperationError::NonexistentNode));
}

#[test]
fn borrow_across_workspaces_rejected() {
    let mut e = Engine::new();
    e.create_node(1, "A".to_string(), "a".to_string()).unwrap();
    e.create_node(2, "B".to_string(), "b".to_string()).unwrap();
    let before = e.clone();
    assert_eq!(e.borrow_node(1, 2), Err(NodeOperationError::ForbiddenLink));
    assert_eq!(e, before);
}

#[test]
fn borrow_onto_itself_rejected() {
    let mut e = Engine::new();
    e.create_node(1, "A".to_string(), "a".to_string()).unwrap();
    assert_eq!(e.borrow_node(1, 1), Err(NodeOperationError::CyclicReference));
}

#[test]
fn take_of_ancestor_rejected() {
    let mut e = Engine::new();
    e.create_node(1, "A".to_string(), "a".to_string()).unwrap();
    e.add_node(1, 1, "B".to_string(), "b".to_string()).unwrap();
    let before = e.clone();
    assert_eq!(e.take_node(2, 1), Err(NodeOperationError::CyclicReference));
    assert_eq!(e, before);
}

#[test]
fn borrow_detaches_branch_from_ancestor_chain() {
    let mut e = Engine::new();
    e.create_node(1, "A".to_string(), "a".to_string()).unwrap();
    e.add_node(1, 1, "B".to_string(), "b".to_string()).unwrap(); // 2 under 1
    e.add_node(1, 2, "C".to_string(), "c".to_string()).unwrap(); // 3 under 2
    e.add_node(1, 1, "D".to_string(), "d".to_string()).unwrap(); // 4 under 1
    // the chain above 3 is [2, 1]; 4 hangs on 1, so the borrow detaches it
    e.borrow_node(3, 4).unwrap();
    assert!(edge(&e, 2, 1));
    assert!(edge(&e, 3, 2));
    assert!(edge(&e, 4, 3));
    assert!(!edge(&e, 4, 1));
    assert_eq!(e.edges.len(), 3);
    assert_eq!(e.nodes.len(), 4);
}

#[test]
fn take_evicts_every_previous_parent() {
    let mut e = Engine::new();
    e.create_node(1, "A".to_string(), "a".to_string()).unwrap();
    e.add_node(1, 1, "B".to_string(), "b".to_string()).unwrap(); // 2 under 1
    e.add_node(1, 1, "C".to_string(), "c".to_string()).unwrap(); // 3 under 1
    e.add_node(1, 2, "D".to_string(), "d".to_string()).unwrap(); // 4 under 2
    e.borrow_node(3, 4).unwrap(); // 4 under 2 and 3
    assert!(edge(&e, 4, 2) && edge(&e, 4, 3));
    e.take_node(1, 4).unwrap(); // now 1 is 4's only parent
    assert!(edge(&e, 4, 1));
    assert!(!edge(&e, 4, 2));
    assert!(!edge(&e, 4, 3));
}

#[test]
fn drop_cascades_to_orphaned_branch() {
    let mut e = Engine::new();
    e.create_node(1, "A".to_string(), "a".to_string()).unwrap();
    e.add_node(1, 1, "B".to_string(), "b".to_string()).unwrap(); // 2 under 1
    e.add_node(1, 2, "C".to_string(), "c".to_string()).unwrap(); // 3 under 2
    e.drop_node(1, 2).unwrap(); // 2 loses its only parent
    // 2 and its downward closure (3) are swept away
    assert_eq!(e.nodes.len(), 1);
    assert_eq!(e.nodes[0].id, 1);
    assert!(e.edges.is_empty());
}

#[test]
fn drop_keeps_branch_with_another_parent() {
    let mut e = Engine::new();
    e.create_node(1, "A".to_string(), "a".to_string()).unwrap();
    e.add_node(1, 1, "B".to_string(), "b".to_string()).unwrap(); // 2 under 1
    e.add_node(1, 1, "C".to_string(), "c".to_string()).unwrap(); // 3 under 1
    e.borrow_node(3, 2).unwrap(); // 2 under 3 (detached from 1, its chain)
    e.borrow_node(1, 2).unwrap(); // 2 under 1 and 3 again
    e.drop_node(3, 2).unwrap();
    assert_eq!(e.nodes.len(), 3);
    assert!(edge(&e, 2, 1));
    assert!(!edge(&e, 2, 3));
}

#[test]
fn delete_missing_node_rejected() {
    let mut e = Engine::new();
    let before = e.clone();
    assert_eq!(e.delete_node(7), Err(NodeOperationError::NonexistentNode));
    assert_eq!(e, before);
}

#[test]
fn delete_sweeps_whole_downward_closure() {
    let mut e = Engine::new();
    e.create_node(1, "A".to_string(), "a".to_string()).unwrap();
    e.add_node(1, 1, "B".to_string(), "b".to_string()).unwrap(); // 2 under 1
    e.add_node(1, 1, "C".to_string(), "c".to_string()).unwrap(); // 3 under 1
    e.add_node(1, 2, "D".to_string(), "d".to_string()).unwrap(); // 4 under 2
    e.borrow_node(3, 4).unwrap(); // 4 also under 3
    // the sweep from 2 takes 4 with it even though 3 still points at it
    e.delete_node(2).unwrap();
    let ids: Vec<u64> = e.nodes.iter().map(|n| n.id).collect();
    assert_eq!(ids, vec![1, 3]);
    assert_eq!(e.edges, vec![(3, 1)]);
}

#[test]
fn delete_root_clears_workspace() {
    let mut e = Engine::new();
    e.create_node(1, "A".to_string(), "a".to_string()).unwrap();
    e.add_node(1, 1, "B".to_string(), "b".to_string()).unwrap();
    e.add_node(1, 2, "C".to_string(), "c".to_string()).unwrap();
    e.create_node(2, "X".to_string(), "x".to_string()).unwrap(); // id 4, other workspace
    e.delete_node(1).unwrap();
    assert_eq!(e.nodes.len(), 1);
    assert_eq!(e.nodes[0].id, 4);
    assert!(e.edges.is_empty());
}

#[test]
fn borrow_twice_leaves_no_duplicate_edge() {
    let mut e = Engine::new();
    e.create_node(1, "A".to_string(), "a".to_string()).unwrap();
    e.add_node(1, 1, "B".to_string(), "b".to_string()).unwrap();
    e.add_node(1, 1, "C".to_string(), "c".to_string()).unwrap();
    e.borrow_node(3, 2).unwrap();
    let before = e.clone();
    e.borrow_node(3, 2).unwrap();
    assert_eq!(e, before);
    assert_eq!(e.edges.len(), 2);
}

#[test]
fn take_of_only_parent_is_stable() {
    let mut e = Engine::new();
    e.create_node(1, "A".to_string(), "a".to_string()).unwrap();
    e.add_node(1, 1, "B".to_string(), "b".to_string()).unwrap();
    e.take_node(1, 2).unwrap();
    assert_eq!(e.edges, vec![(2, 1)]);
    assert_eq!(e.nodes.len(), 2);
}

#[test]
fn edges_never_cross_workspaces() {
    let mut e = Engine::new();
    e.create_node(1, "A".to_string(), "a".to_string()).unwrap(); // 1 in ws 1
    e.create_node(2, "X".to_string(), "x".to_string()).unwrap(); // 2 in ws 2
    e.add_node(1, 1, "B".to_string(), "b".to_string()).unwrap(); // 3 in ws 1
    e.add_node(2, 2, "Y".to_string(), "y".to_string()).unwrap(); // 4 in ws 2
    assert_eq!(e.borrow_node(3, 4), Err(NodeOperationError::ForbiddenLink));
    assert_eq!(e.take_node(4, 3), Err(NodeOperationError::ForbiddenLink));
    e.borrow_node(1, 3).unwrap();
    e.take_node(2, 4).unwrap();
    let ws_of = |id: u64| e.nodes.iter().find(|n| n.id == id).unwrap().workspace_id;
    for &(c, p) in &e.edges {
        assert_eq!(ws_of(c), ws_of(p));
    }
}

#[test]
fn no_orphan_but_the_root_survives_any_operation() {
    // after every committed operation, a parentless node is its workspace's
    // only root
    let mut e = Engine::new();
    e.create_node(1, "A".to_string(), "a".to_string()).unwrap();
    e.add_node(1, 1, "B".to_string(), "b".to_string()).unwrap();
    e.add_node(1, 2, "C".to_string(), "c".to_string()).unwrap();
    e.borrow_node(1, 3).unwrap();
    e.take_node(2, 3).unwrap();
    e.drop_node(2, 3).unwrap();
    for n in &e.nodes {
        let parentless = !e.edges.iter().any(|&(c, _)| c == n.id);
        if parentless {
            // the unique parentless node of its workspace
            let others = e
                .nodes
                .iter()
                .filter(|m| {
                    m.workspace_id == n.workspace_id
                        && !e.edges.iter().any(|&(c, _)| c == m.id)
                })
                .count();
            assert_eq!(others, 1);
        }
    }
}
