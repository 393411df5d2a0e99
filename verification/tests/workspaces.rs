use stackture::api::{
    AddRequest, ApiError, BorrowRequest, CreateRequest, CreateResponse, DeleteRequest,
    DropRequest, TakeRequest, TokenData,
};
use stackture::graph::Engine;
use stackture::ops::NodeOperationError;
use stackture::workspace::{CreateWorkspaceRequest, WorkspaceStore};

#[test]
fn create_workspace_assigns_ids_in_order() {
    let mut s = WorkspaceStore::new();
    let caller = TokenData { user_id: 7, exp: 0 };
    let a = s.create_workspace(
        caller.user_id,
        CreateWorkspaceRequest { title: "maths".to_string(), description: None },
    );
    let b = s.create_workspace(
        caller.user_id,
        CreateWorkspaceRequest {
            title: "physics".to_string(),
            description: Some("waves".to_string()),
        },
    );
    assert_eq!(a.workspace_id, 1);
    assert_eq!(b.workspace_id, 2);
}

#[test]
fn fetch_workspaces_lists_only_the_owner() {
    let mut s = WorkspaceStore::new();
    s.create_workspace(7, CreateWorkspaceRequest { title: "a".to_string(), description: None });
    s.create_workspace(8, CreateWorkspaceRequest { title: "b".to_string(), description: None });
    s.create_workspace(7, CreateWorkspaceRequest { title: "c".to_string(), description: None });
    let mine = s.fetch_workspaces(7);
    assert_eq!(mine.len(), 2);
    assert_eq!(mine[0].id, 1);
    assert_eq!(mine[0].title, "a");
    assert_eq!(mine[1].id, 3);
    assert_eq!(mine[1].title, "c");
    assert!(s.fetch_workspaces(9).is_empty());
}

#[test]
fn verify_user_workspace_checks_ownership() {
    let mut s = WorkspaceStore::new();
    s.create_workspace(7, CreateWorkspaceRequest { title: "a".to_string(), description: None });
    assert!(s.verify_user_workspace(1, 7));
    assert!(!s.verify_user_workspace(1, 8));
    assert!(!s.verify_user_workspace(2, 7));
}

#[test]
fn delete_workspace_owned_and_not() {
    let mut s = WorkspaceStore::new();
    s.create_workspace(7, CreateWorkspaceRequest { title: "a".to_string(), description: None });
    s.create_workspace(8, CreateWorkspaceRequest { title: "b".to_string(), description: None });
    // not the owner: refused, nothing changes
    assert_eq!(s.delete_workspace(7, 2), Err(ApiError::ItemNotFound));
    assert_eq!(s.records.len(), 2);
    // the owner: removed
    assert_eq!(s.delete_workspace(7, 1), Ok(()));
    assert_eq!(s.records.len(), 1);
    assert_eq!(s.records[0].1.id, 2);
    // already gone
    assert_eq!(s.delete_workspace(7, 1), Err(ApiError::ItemNotFound));
}

#[test]
fn request_entry_points_mirror_the_operations() {
    let mut e = Engine::new();
    let made = e
        .create(CreateRequest {
            workspace_id: 1,
            name: "A".to_string(),
            summary: "root".to_string(),
        })
        .unwrap();
    assert_eq!(made, CreateResponse { node_id: 1 });
    let added = e
        .add(AddRequest {
            workspace_id: 1,
            node_id: 1,
            name: "B".to_string(),
            summary: "b".to_string(),
        })
        .unwrap();
    assert_eq!(added.node_id, 2);
    e.add(AddRequest {
        workspace_id: 1,
        node_id: 1,
        name: "C".to_string(),
        summary: "c".to_string(),
    })
    .unwrap();
    e.borrow(BorrowRequest { node_id: 3, branch_id: 2 }).unwrap();
    assert!(e.edges.contains(&(2, 3)));
    e.take(TakeRequest { node_id: 1, branch_id: 3 }).unwrap();
    assert!(e.edges.contains(&(3, 1)));
    e.drop(DropRequest { node_id: 3, branch_id: 2 }).unwrap();
    assert!(!e.edges.contains(&(2, 3)));
    let r = e.delete(DeleteRequest { node_id: 99 });
    assert_eq!(r, Err(NodeOperationError::NonexistentNode));
    e.delete(DeleteRequest { node_id: 1 }).unwrap();
    assert!(e.nodes.is_empty());
}

#[test]
fn fetch_graph_lists_every_parent_of_a_shared_node() {
    let mut e = Engine::new();
    e.create_node(1, "A".to_string(), "a".to_string()).unwrap();
    e.add_node(1, 1, "B".to_string(), "b".to_string()).unwrap(); // 2 under 1
    e.add_node(1, 1, "C".to_string(), "c".to_string()).unwrap(); // 3 under 1
    e.add_node(1, 2, "D".to_string(), "d".to_string()).unwrap(); // 4 under 2
    e.borrow_node(3, 4).unwrap(); // 4 under 2 and 3
    let view = e.fetch_graph(1);
    let of = |id: u64| view.iter().find(|w| w.id == id).unwrap();
    assert_eq!(of(1).branches, vec![2, 3]);
    assert_eq!(of(4).parents, vec![2, 3]);
    assert_eq!(of(2).branches, vec![4]);
    assert_eq!(of(3).branches, vec![4]);
}

#[test]
fn fetch_graph_projects_one_workspace() {
    let mut e = Engine::new();
    e.create_node(1, "A".to_string(), "root".to_string()).unwrap();
    e.add_node(1, 1, "B".to_string(), "b".to_string()).unwrap();
    e.add_node(1, 2, "C".to_string(), "c".to_string()).unwrap();
    e.create_node(2, "X".to_string(), "x".to_string()).unwrap(); // id 4, other workspace
    let view = e.fetch_graph(1);
    assert_eq!(view.len(), 3);
    assert_eq!(view[0].id, 1);
    assert_eq!(view[0].name, "A");
    assert_eq!(view[0].summary, Some("root".to_string()));
    assert_eq!(view[0].branches, vec![2]);
    assert!(view[0].parents.is_empty());
    assert_eq!(view[1].id, 2);
    assert_eq!(view[1].branches, vec![3]);
    assert_eq!(view[1].parents, vec![1]);
    assert_eq!(view[2].id, 3);
    assert!(view[2].branches.is_empty());
    assert_eq!(view[2].parents, vec![2]);
    let other = e.fetch_graph(2);
    assert_eq!(other.len(), 1);
    assert_eq!(other[0].id, 4);
    assert!(e.fetch_graph(3).is_empty());
}
