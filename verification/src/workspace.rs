//! The read-only graph projection handed to the presentation layer, and the
//! per-user workspace registry.

use vstd::prelude::*;

use crate::api::ApiError;
use crate::graph::{ids_contain, Engine, Node};
use crate::ops::{clone_node, lemma_filter_membership, lemma_filter_no_dup, lemma_filter_push};

verus! {

/// One node of a workspace as the presentation layer sees it: display
/// attributes and the resolved child and parent identity lists.
#[derive(Debug, Clone, PartialEq, Eq)]
pub struct WorkspaceNode {
    pub id: u64,
    pub name: String,
    pub summary: Option<String>,
    pub optional: bool,
    pub resolved: bool,
    pub icon: Option<String>,
    pub branches: Vec<u64>,
    pub parents: Vec<u64>,
}

/// One workspace as listed to its owner.
#[derive(Debug, Clone, PartialEq, Eq)]
pub struct Workspace {
    pub id: u64,
    pub title: String,
    pub description: Option<String>,
    pub root_id: Option<u64>,
}

#[derive(Debug, Clone, PartialEq, Eq)]
pub struct CreateWorkspaceRequest {
    pub title: String,
    pub description: Option<String>,
}

#[derive(Debug, Clone, Copy, PartialEq, Eq, Structural)]
pub struct CreateWorkspaceResponse {
    pub workspace_id: u64,
}

impl Engine {
    /// The projection of one node record: same identity and attributes, and
    /// child and parent lists that hold exactly the linked identities.
    pub open spec fn describes(self, w: WorkspaceNode, nd: Node) -> bool {
        &&& w.id == nd.id
        &&& w.name == nd.name
        &&& w.summary == Some(nd.summary)
        &&& w.optional == nd.optional
        &&& w.resolved == nd.resolved
        &&& w.icon == nd.icon
        &&& w.branches@.no_duplicates()
        &&& (forall|c: u64| #[trigger] w.branches@.contains(c) <==> self.edge_set().contains(
            (c, nd.id),
        ))
        &&& w.parents@.no_duplicates()
        &&& (forall|p: u64| #[trigger] w.parents@.contains(p) <==> self.edge_set().contains(
            (nd.id, p),
        ))
    }

    /// The identities of the children of `id`, each once.
    #[verifier::loop_isolation(false)]
    pub fn children_ids(&self, id: u64) -> (v: Vec<u64>)
        ensures
            v@.no_duplicates(),
            forall|c: u64| #[trigger] v@.contains(c) <==> self.edge_set().contains((c, id)),
    {
        let mut v: Vec<u64> = Vec::new();
        let mut k: usize = 0;
        while k < self.edges.len()
            invariant
                k <= self.edges@.len(),
                v@.no_duplicates(),
                forall|c: u64| #[trigger] v@.contains(c) ==> self.edge_set().contains((c, id)),
                forall|m: int|
                    0 <= m < k && (#[trigger] self.edges@[m]).1 == id ==> v@.contains(
                        self.edges@[m].0,
                    ),
            decreases self.edges@.len() - k,
        {
            let e = self.edges[k];
            let ghost old_v = v@;
            if e.1 == id && !ids_contain(&v, e.0) {
                v.push(e.0);
                proof {
                    assert(v@ == old_v.push(e.0));
                    assert(self.edges@.contains((e.0, id)));
                    assert forall|c: u64| #[trigger] v@.contains(c) implies
                    self.edge_set().contains((c, id)) by {
                        let m = choose|m: int| 0 <= m < v@.len() && v@[m] == c;
                        if m < old_v.len() {
                            assert(old_v[m] == c);
                            assert(old_v.contains(c));
                        }
                    }
                    assert forall|m: int|
                        0 <= m < k + 1 && (#[trigger] self.edges@[m]).1 == id implies v@.contains(
                        self.edges@[m].0,
                    ) by {
                        if m < k {
                            assert(old_v.contains(self.edges@[m].0));
                            let n = choose|n: int|
                                0 <= n < old_v.len() && old_v[n] == self.edges@[m].0;
                            assert(v@[n] == self.edges@[m].0);
                        } else {
                            assert(v@[v@.len() - 1] == e.0);
                        }
                    }
                }
            } else {
                proof {
                    assert forall|m: int|
                        0 <= m < k + 1 && (#[trigger] self.edges@[m]).1 == id implies v@.contains(
                        self.edges@[m].0,
                    ) by {
                        if m == k && self.edges@[m].1 == id {
                            assert(v@.contains(e.0));
                        }
                    }
                }
            }
            k = k + 1;
        }
        proof {
            assert forall|c: u64| self.edge_set().contains((c, id)) implies #[trigger]
                v@.contains(c) by {
                let m = choose|m: int| 0 <= m < self.edges@.len() && self.edges@[m] == (c, id);
                assert((#[trigger] self.edges@[m]).1 == id);
            }
        }
        v
    }

    /// The identities of the parents of `id`, each once.
    #[verifier::loop_isolation(false)]
    pub fn parents_ids(&self, id: u64) -> (v: Vec<u64>)
        ensures
            v@.no_duplicates(),
            forall|p: u64| #[trigger] v@.contains(p) <==> self.edge_set().contains((id, p)),
    {
        let mut v: Vec<u64> = Vec::new();
        let mut k: usize = 0;
        while k < self.edges.len()
            invariant
                k <= self.edges@.len(),
                v@.no_duplicates(),
                forall|p: u64| #[trigger] v@.contains(p) ==> self.edge_set().contains((id, p)),
                forall|m: int|
                    0 <= m < k && (#[trigger] self.edges@[m]).0 == id ==> v@.contains(
                        self.edges@[m].1,
                    ),
            decreases self.edges@.len() - k,
        {
            let e = self.edges[k];
            let ghost old_v = v@;
            if e.0 == id && !ids_contain(&v, e.1) {
                v.push(e.1);
                proof {
                    assert(v@ == old_v.push(e.1));
                    assert(self.edges@.contains((id, e.1)));
                    assert forall|p: u64| #[trigger] v@.contains(p) implies
                    self.edge_set().contains((id, p)) by {
                        let m = choose|m: int| 0 <= m < v@.len() && v@[m] == p;
                        if m < old_v.len() {
                            assert(old_v[m] == p);
                            assert(old_v.contains(p));
                        }
                    }
                    assert forall|m: int|
                        0 <= m < k + 1 && (#[trigger] self.edges@[m]).0 == id implies v@.contains(
                        self.edges@[m].1,
                    ) by {
                        if m < k {
                            assert(old_v.contains(self.edges@[m].1));
                            let n = choose|n: int|
                                0 <= n < old_v.len() && old_v[n] == self.edges@[m].1;
                            assert(v@[n] == self.edges@[m].1);
                        } else {
                            assert(v@[v@.len() - 1] == e.1);
                        }
                    }
                }
            } else {
                proof {
                    assert forall|m: int|
                        0 <= m < k + 1 && (#[trigger] self.edges@[m]).0 == id implies v@.contains(
                        self.edges@[m].1,
                    ) by {
                        if m == k && self.edges@[m].0 == id {
                            assert(v@.contains(e.1));
                        }
                    }
                }
            }
            k = k + 1;
        }
        proof {
            assert forall|p: u64| self.edge_set().contains((id, p)) implies #[trigger]
                v@.contains(p) by {
                let m = choose|m: int| 0 <= m < self.edges@.len() && self.edges@[m] == (id, p);
                assert((#[trigger] self.edges@[m]).0 == id);
            }
        }
        v
    }

    /// The full projection of one workspace: one entry per node of the
    /// workspace, in store order, each carrying its attributes and its
    /// resolved child and parent identity lists.
    #[verifier::loop_isolation(false)]
    pub fn fetch_graph(&self, workspace: u64) -> (r: Vec<WorkspaceNode>)
        ensures
            r@.len() == self.nodes@.filter(|nd: Node| nd.workspace_id == workspace).len(),
            forall|i: int|
                0 <= i < r@.len() ==> self.describes(
                    #[trigger] r@[i],
                    self.nodes@.filter(|nd: Node| nd.workspace_id == workspace)[i],
                ),
    {
        let ghost pred = |nd: Node| nd.workspace_id == workspace;
        let mut r: Vec<WorkspaceNode> = Vec::new();
        let mut i: usize = 0;
        proof {
            assert(self.nodes@.take(0).filter(pred) =~= Seq::<Node>::empty()) by {
                reveal(Seq::<_>::filter);
                assert(self.nodes@.take(0) =~= Seq::<Node>::empty());
            }
        }
        while i < self.nodes.len()
            invariant
                i <= self.nodes@.len(),
                r@.len() == self.nodes@.take(i as int).filter(pred).len(),
                forall|j: int|
                    0 <= j < r@.len() ==> self.describes(
                        #[trigger] r@[j],
                        self.nodes@.take(i as int).filter(pred)[j],
                    ),
            decreases self.nodes@.len() - i,
        {
            let ghost fil = self.nodes@.take(i as int).filter(pred);
            proof {
                lemma_filter_push(self.nodes@.take(i as int), self.nodes@[i as int], pred);
                assert(self.nodes@.take(i as int + 1) =~= self.nodes@.take(i as int).push(
                    self.nodes@[i as int],
                ));
            }
            if self.nodes[i].workspace_id == workspace {
                let nd = clone_node(&self.nodes[i]);
                let branches = self.children_ids(nd.id);
                let parents = self.parents_ids(nd.id);
                let w = WorkspaceNode {
                    id: nd.id,
                    name: nd.name,
                    summary: Some(nd.summary),
                    optional: nd.optional,
                    resolved: nd.resolved,
                    icon: nd.icon,
                    branches,
                    parents,
                };
                let ghost old_r = r@;
                r.push(w);
                proof {
                    let fil2 = self.nodes@.take(i as int + 1).filter(pred);
                    assert(fil2 == fil.push(self.nodes@[i as int]));
                    assert(r@ == old_r.push(w));
                    assert forall|j: int| 0 <= j < r@.len() implies self.describes(
                        #[trigger] r@[j],
                        fil2[j],
                    ) by {
                        if j < old_r.len() {
                            assert(r@[j] == old_r[j] && fil2[j] == fil[j]);
                        } else {
                            assert(r@[j] == w && fil2[j] == self.nodes@[i as int]);
                            assert(self.describes(w, self.nodes@[i as int]));
                        }
                    }
                }
            }
            i = i + 1;
        }
        proof {
            assert(self.nodes@.take(self.nodes@.len() as int) =~= self.nodes@);
        }
        r
    }
}

/// The registry of workspaces, each owned by one user.
#[derive(Debug, Clone, PartialEq, Eq)]
pub struct WorkspaceStore {
    pub records: Vec<(u64, Workspace)>,
    pub next_id: u64,
}

/// An exact copy of a workspace record.
fn clone_workspace(w: &Workspace) -> (r: Workspace)
    ensures
        r == *w,
{
    let description = match &w.description {
        Some(s) => Some(s.clone()),
        None => None,
    };
    Workspace { id: w.id, title: w.title.clone(), description, root_id: w.root_id }
}

impl WorkspaceStore {
    /// Every workspace identity is below the allocation counter.
    pub open spec fn ids_bounded(self) -> bool {
        forall|k: int|
            0 <= k < self.records@.len() ==> (#[trigger] self.records@[k]).1.id < self.next_id
    }

    /// Workspace identities are pairwise distinct.
    pub open spec fn ids_unique(self) -> bool {
        forall|i: int, j: int|
            0 <= i < self.records@.len() && 0 <= j < self.records@.len() && i != j ==> (
            #[trigger] self.records@[i]).1.id != (#[trigger] self.records@[j]).1.id
    }

    /// The registry invariant.
    pub open spec fn wf(self) -> bool {
        self.ids_bounded() && self.ids_unique()
    }

    /// `user_id` owns a workspace with identity `workspace_id`.
    pub open spec fn owns(self, user_id: u64, workspace_id: u64) -> bool {
        exists|k: int|
            0 <= k < self.records@.len() && (#[trigger] self.records@[k]).0 == user_id
                && self.records@[k].1.id == workspace_id
    }

    /// An empty registry, whose first workspace will get identity 1.
    pub fn new() -> (s: WorkspaceStore)
        ensures
            s.wf(),
            s.records@.len() == 0,
            s.next_id == 1,
    {
        WorkspaceStore { records: Vec::new(), next_id: 1 }
    }

    /// Record a new workspace for `user_id` and answer its identity.
    pub fn create_workspace(&mut self, user_id: u64, req: CreateWorkspaceRequest) -> (r:
        CreateWorkspaceResponse)
        requires
            old(self).wf(),
            old(self).next_id < u64::MAX,
        ensures
            final(self).wf(),
            r.workspace_id == old(self).next_id,
            final(self).records@ == old(self).records@.push(
                (
                    user_id,
                    (Workspace {
                        id: old(self).next_id,
                        title: req.title,
                        description: req.description,
                        root_id: None,
                    }),
                ),
            ),
            final(self).next_id == old(self).next_id + 1,
    {
        let id = self.next_id;
        let w = Workspace { id, title: req.title, description: req.description, root_id: None };
        self.records.push((user_id, w));
        self.next_id = self.next_id + 1;
        proof {
            let pre = *old(self);
            let n = pre.records@.len() as int;
            assert forall|i: int, j: int|
                0 <= i < self.records@.len() && 0 <= j < self.records@.len() && i != j implies (
            #[trigger] self.records@[i]).1.id != (#[trigger] self.records@[j]).1.id by {
                if i < n && j < n {
                    assert(pre.records@[i].1.id != pre.records@[j].1.id);
                } else if i == n {
                    assert(pre.records@[j].1.id < pre.next_id);
                } else {
                    assert(pre.records@[i].1.id < pre.next_id);
                }
            }
        }
        CreateWorkspaceResponse { workspace_id: id }
    }

    /// Whether `user_id` owns the workspace `workspace_id`.
    pub fn verify_user_workspace(&self, workspace_id: u64, user_id: u64) -> (r: bool)
        ensures
            r == self.owns(user_id, workspace_id),
    {
        let mut k: usize = 0;
        while k < self.records.len()
            invariant
                k <= self.records@.len(),
                forall|m: int|
                    0 <= m < k ==> !((#[trigger] self.records@[m]).0 == user_id
                        && self.records@[m].1.id == workspace_id),
            decreases self.records@.len() - k,
        {
            if self.records[k].0 == user_id && self.records[k].1.id == workspace_id {
                return true;
            }
            k = k + 1;
        }
        false
    }

    /// The workspaces `user_id` owns, in registry order.
    #[verifier::loop_isolation(false)]
    pub fn fetch_workspaces(&self, user_id: u64) -> (r: Vec<Workspace>)
        ensures
            r@ == self.records@.filter(|p: (u64, Workspace)| p.0 == user_id).map_values(
                |p: (u64, Workspace)| p.1,
            ),
    {
        let ghost pred = |p: (u64, Workspace)| p.0 == user_id;
        let ghost proj = |p: (u64, Workspace)| p.1;
        let mut r: Vec<Workspace> = Vec::new();
        let mut k: usize = 0;
        proof {
            assert(self.records@.take(0).filter(pred) =~= Seq::<(u64, Workspace)>::empty()) by {
                reveal(Seq::<_>::filter);
                assert(self.records@.take(0) =~= Seq::<(u64, Workspace)>::empty());
            }
            assert(r@ =~= self.records@.take(0).filter(pred).map_values(proj));
        }
        while k < self.records.len()
            invariant
                k <= self.records@.len(),
                r@ == self.records@.take(k as int).filter(pred).map_values(proj),
            decreases self.records@.len() - k,
        {
            proof {
                lemma_filter_push(self.records@.take(k as int), self.records@[k as int], pred);
                assert(self.records@.take(k as int + 1) =~= self.records@.take(k as int).push(
                    self.records@[k as int],
                ));
            }
            if self.records[k].0 == user_id {
                let w = clone_workspace(&self.records[k].1);
                r.push(w);
                proof {
                    let fil = self.records@.take(k as int).filter(pred);
                    assert(fil.push(self.records@[k as int]).map_values(proj) =~= fil.map_values(
                        proj,
                    ).push(self.records@[k as int].1));
                }
            }
            k = k + 1;
        }
        proof {
            assert(self.records@.take(self.records@.len() as int) =~= self.records@);
        }
        r
    }

    /// Delete the workspace `workspace_id` if `user_id` owns it; refused
    /// as not found otherwise.
    #[verifier::loop_isolation(false)]
    pub fn delete_workspace(&mut self, user_id: u64, workspace_id: u64) -> (r: Result<
        (),
        ApiError,
    >)
        requires
            old(self).wf(),
        ensures
            final(self).wf(),
            !old(self).owns(user_id, workspace_id) ==> r == Err::<(), ApiError>(
                ApiError::ItemNotFound,
            ) && *final(self) == *old(self),
            old(self).owns(user_id, workspace_id) ==> {
                &&& r == Ok::<(), ApiError>(())
                &&& final(self).records@ == old(self).records@.filter(
                    |p: (u64, Workspace)| !(p.0 == user_id && p.1.id == workspace_id),
                )
                &&& final(self).next_id == old(self).next_id
            },
    {
        if !self.verify_user_workspace(workspace_id, user_id) {
            return Err(ApiError::ItemNotFound);
        }
        let ghost pre = *self;
        let ghost pred = |p: (u64, Workspace)| !(p.0 == user_id && p.1.id == workspace_id);
        let mut out: Vec<(u64, Workspace)> = Vec::new();
        let mut k: usize = 0;
        proof {
            assert(self.records@.take(0).filter(pred) =~= Seq::<(u64, Workspace)>::empty()) by {
                reveal(Seq::<_>::filter);
                assert(self.records@.take(0) =~= Seq::<(u64, Workspace)>::empty());
            }
        }
        while k < self.records.len()
            invariant
                k <= self.records@.len(),
                out@ == self.records@.take(k as int).filter(pred),
            decreases self.records@.len() - k,
        {
            proof {
                lemma_filter_push(self.records@.take(k as int), self.records@[k as int], pred);
                assert(self.records@.take(k as int + 1) =~= self.records@.take(k as int).push(
                    self.records@[k as int],
                ));
            }
            if !(self.records[k].0 == user_id && self.records[k].1.id == workspace_id) {
                let owner = self.records[k].0;
                let w = clone_workspace(&self.records[k].1);
                out.push((owner, w));
            }
            k = k + 1;
        }
        proof {
            assert(self.records@.take(self.records@.len() as int) =~= self.records@);
        }
        self.records = out;
        proof {
            lemma_filter_membership(pre.records@, pred);
            assert forall|i: int| 0 <= i < self.records@.len() implies (
            #[trigger] self.records@[i]).1.id < self.next_id by {
                let v = self.records@[i];
                assert(self.records@.contains(v));
                assert(pre.records@.contains(v));
                let m = choose|m: int| 0 <= m < pre.records@.len() && pre.records@[m] == v;
                assert((#[trigger] pre.records@[m]).1.id < pre.next_id);
            }
            assert forall|i: int, j: int|
                0 <= i < self.records@.len() && 0 <= j < self.records@.len() && i != j implies (
            #[trigger] self.records@[i]).1.id != (#[trigger] self.records@[j]).1.id by {
                let vi = self.records@[i];
                let vj = self.records@[j];
                assert(self.records@.contains(vi) && self.records@.contains(vj));
                assert(pre.records@.contains(vi) && pre.records@.contains(vj));
                if vi.1.id == vj.1.id {
                    let mi = choose|m: int|
                        0 <= m < pre.records@.len() && pre.records@[m] == vi;
                    let mj = choose|m: int|
                        0 <= m < pre.records@.len() && pre.records@[m] == vj;
                    if mi != mj {
                        assert(pre.records@[mi].1.id != pre.records@[mj].1.id);
                    }
                    assert(vi == vj);
                    assert(pre.records@.no_duplicates()) by {
                        assert forall|a: int, b: int|
                            0 <= a < pre.records@.len() && 0 <= b < pre.records@.len() && a
                                != b implies pre.records@[a] != pre.records@[b] by {
                            assert(pre.records@[a].1.id != pre.records@[b].1.id);
                        }
                    }
                    lemma_filter_no_dup(pre.records@, pred);
                    assert(self.records@[i] != self.records@[j]);
                }
            }
        }
        Ok(())
    }
}

} // verus!
