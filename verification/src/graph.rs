//! The node store and relationship index: nodes owned by workspaces, and the
//! set of child-to-parent edges between them, held in one engine value.

use vstd::prelude::*;

use crate::reach::{acyclic, reaches};

verus! {

/// One node record: identity, workspace membership and display attributes.
#[derive(Debug, Clone, PartialEq, Eq)]
pub struct Node {
    pub id: u64,
    pub workspace_id: u64,
    pub name: String,
    pub summary: String,
    pub optional: bool,
    pub resolved: bool,
    pub icon: Option<String>,
}

/// The node-relationship engine: all node records, the edge set (each entry
/// is a `(child, parent)` pair), and the next node identity to hand out.
#[derive(Debug, Clone, PartialEq, Eq)]
pub struct Engine {
    pub nodes: Vec<Node>,
    pub edges: Vec<(u64, u64)>,
    pub next_id: u64,
}

impl Engine {
    /// The edge relation as a set of `(child, parent)` pairs.
    pub open spec fn edge_set(self) -> Set<(u64, u64)> {
        self.edges@.to_set()
    }

    /// A node with this identity exists.
    pub open spec fn has_node(self, id: u64) -> bool {
        exists|i: int| 0 <= i < self.nodes@.len() && (#[trigger] self.nodes@[i]).id == id
    }

    /// The index of the node with this identity (meaningful when it exists).
    pub open spec fn node_idx(self, id: u64) -> int {
        choose|i: int| 0 <= i < self.nodes@.len() && (#[trigger] self.nodes@[i]).id == id
    }

    /// The record of the node with this identity.
    pub open spec fn spec_node(self, id: u64) -> Node {
        self.nodes@[self.node_idx(id)]
    }

    /// The workspace that owns this node.
    pub open spec fn workspace_of(self, id: u64) -> u64 {
        self.spec_node(id).workspace_id
    }

    /// The node has at least one parent edge.
    pub open spec fn has_parent(self, id: u64) -> bool {
        exists|pr: u64| #[trigger] self.edge_set().contains((id, pr))
    }

    /// The node exists and has no parent edge: it is a workspace root.
    pub open spec fn is_root(self, id: u64) -> bool {
        self.has_node(id) && !self.has_parent(id)
    }

    /// Some node of this workspace is parentless.
    pub open spec fn has_root(self, workspace: u64) -> bool {
        exists|n: u64| #[trigger] self.is_root(n) && self.workspace_of(n) == workspace
    }

    /// Every node identity is below the allocation counter.
    pub open spec fn ids_bounded(self) -> bool {
        forall|i: int|
            0 <= i < self.nodes@.len() ==> (#[trigger] self.nodes@[i]).id < self.next_id
    }

    /// Node identities are pairwise distinct.
    pub open spec fn ids_unique(self) -> bool {
        forall|i: int, j: int|
            0 <= i < self.nodes@.len() && 0 <= j < self.nodes@.len() && i != j ==> (
            #[trigger] self.nodes@[i]).id != (#[trigger] self.nodes@[j]).id
    }

    /// Every edge references two existing nodes.
    pub open spec fn edges_closed(self) -> bool {
        forall|k: int|
            0 <= k < self.edges@.len() ==> self.has_node((#[trigger] self.edges@[k]).0)
                && self.has_node(self.edges@[k].1)
    }

    /// Every edge links two nodes of one workspace.
    pub open spec fn edges_same_workspace(self) -> bool {
        forall|k: int|
            0 <= k < self.edges@.len() ==> self.workspace_of((#[trigger] self.edges@[k]).0)
                == self.workspace_of(self.edges@[k].1)
    }

    /// The edge list holds no pair twice.
    pub open spec fn edges_unique(self) -> bool {
        self.edges@.no_duplicates()
    }

    /// At most one parentless node per workspace.
    pub open spec fn single_root(self) -> bool {
        forall|a: u64, b: u64|
            #[trigger] self.is_root(a) && #[trigger] self.is_root(b) && self.workspace_of(a)
                == self.workspace_of(b) ==> a == b
    }

    /// The engine invariant, preserved by every operation: identities are
    /// unique and bounded, edges are dangling-free, workspace-isolated and
    /// duplicate-free, the graph is acyclic, and each workspace has at most
    /// one parentless node.
    pub open spec fn wf(self) -> bool {
        &&& self.ids_bounded()
        &&& self.ids_unique()
        &&& self.edges_closed()
        &&& self.edges_same_workspace()
        &&& self.edges_unique()
        &&& acyclic(self.edge_set())
        &&& self.single_root()
    }

    /// With unique identities, the record found at an index is the record
    /// the specification functions name by its identity.
    pub proof fn lemma_node_at(self, i: int)
        requires
            self.ids_unique(),
            0 <= i < self.nodes@.len(),
        ensures
            self.has_node(self.nodes@[i].id),
            self.node_idx(self.nodes@[i].id) == i,
            self.spec_node(self.nodes@[i].id) == self.nodes@[i],
    {
        let id = self.nodes@[i].id;
        assert(self.has_node(id)) by {
            assert((#[trigger] self.nodes@[i]).id == id);
        }
        let j = self.node_idx(id);
        assert(0 <= j < self.nodes@.len() && self.nodes@[j].id == id);
        if j != i {
            assert(self.nodes@[i].id != self.nodes@[j].id);
        }
    }

    /// An empty engine, whose first node will get identity 1.
    pub fn new() -> (e: Engine)
        ensures
            e.wf(),
            e.nodes@.len() == 0,
            e.edges@.len() == 0,
            e.next_id == 1,
    {
        let e = Engine { nodes: Vec::new(), edges: Vec::new(), next_id: 1 };
        proof {
            assert forall|c: u64, pr: u64| #[trigger]
                e.edge_set().contains((c, pr)) implies !reaches(e.edge_set(), c, pr) by {
                assert(!e.edges@.contains((c, pr)));
            }
        }
        e
    }

    /// The index of the node with this identity, if any.
    pub fn find_node(&self, id: u64) -> (r: Option<usize>)
        ensures
            match r {
                Some(i) => i < self.nodes@.len() && self.nodes@[i as int].id == id,
                None => !self.has_node(id),
            },
    {
        let mut i: usize = 0;
        while i < self.nodes.len()
            invariant
                i <= self.nodes@.len(),
                forall|k: int| 0 <= k < i ==> (#[trigger] self.nodes@[k]).id != id,
            decreases self.nodes@.len() - i,
        {
            if self.nodes[i].id == id {
                return Some(i);
            }
            i = i + 1;
        }
        None
    }

    /// Whether a node with this identity exists.
    pub fn node_exists(&self, id: u64) -> (r: bool)
        ensures
            r == self.has_node(id),
    {
        self.find_node(id).is_some()
    }

    /// The workspace of an existing node.
    pub fn workspace_lookup(&self, id: u64) -> (r: u64)
        requires
            self.ids_unique(),
            self.has_node(id),
        ensures
            r == self.workspace_of(id),
    {
        let i = self.find_node(id).unwrap();
        proof {
            let j = self.node_idx(id);
            assert(0 <= j < self.nodes@.len() && self.nodes@[j].id == id);
            assert(i == j);
        }
        self.nodes[i].workspace_id
    }

    /// Whether a node with this identity exists in this workspace.
    pub fn node_in_workspace(&self, workspace: u64, id: u64) -> (r: bool)
        requires
            self.ids_unique(),
        ensures
            r == (self.has_node(id) && self.workspace_of(id) == workspace),
    {
        match self.find_node(id) {
            Some(i) => {
                proof {
                    self.lemma_node_at(i as int);
                }
                self.nodes[i].workspace_id == workspace
            },
            None => false,
        }
    }

    /// Whether the node has at least one parent edge.
    pub fn has_parent_exec(&self, id: u64) -> (r: bool)
        ensures
            r == self.has_parent(id),
    {
        let mut k: usize = 0;
        while k < self.edges.len()
            invariant
                k <= self.edges@.len(),
                forall|m: int| 0 <= m < k ==> (#[trigger] self.edges@[m]).0 != id,
            decreases self.edges@.len() - k,
        {
            if self.edges[k].0 == id {
                proof {
                    assert(self.edges@.contains((id, self.edges@[k as int].1)));
                    assert(self.edge_set().contains((id, self.edges@[k as int].1)));
                }
                return true;
            }
            k = k + 1;
        }
        proof {
            if self.has_parent(id) {
                let pr = choose|pr: u64| #[trigger] self.edge_set().contains((id, pr));
                assert(self.edges@.contains((id, pr)));
                let m = choose|m: int| 0 <= m < self.edges@.len() && self.edges@[m] == (id, pr);
                assert(self.edges@[m].0 == id);
            }
        }
        false
    }

    /// Whether the edge `(child, parent)` is present.
    pub fn edge_exists(&self, child: u64, parent: u64) -> (r: bool)
        ensures
            r == self.edge_set().contains((child, parent)),
    {
        let mut k: usize = 0;
        while k < self.edges.len()
            invariant
                k <= self.edges@.len(),
                forall|m: int| 0 <= m < k ==> (#[trigger] self.edges@[m]) != (child, parent),
            decreases self.edges@.len() - k,
        {
            if self.edges[k].0 == child && self.edges[k].1 == parent {
                proof {
                    assert(self.edges@.contains((child, parent)));
                }
                return true;
            }
            k = k + 1;
        }
        proof {
            if self.edge_set().contains((child, parent)) {
                let m = choose|m: int|
                    0 <= m < self.edges@.len() && self.edges@[m] == (child, parent);
                assert(self.edges@[m] == (child, parent));
            }
        }
        false
    }
}

/// Whether the sequence of identities holds the given one.
pub fn ids_contain(v: &Vec<u64>, x: u64) -> (r: bool)
    ensures
        r == v@.contains(x),
{
    let mut k: usize = 0;
    while k < v.len()
        invariant
            k <= v@.len(),
            forall|m: int| 0 <= m < k ==> v@[m] != x,
        decreases v@.len() - k,
    {
        if v[k] == x {
            return true;
        }
        k = k + 1;
    }
    proof {
        if v@.contains(x) {
            let m = choose|m: int| 0 <= m < v@.len() && v@[m] == x;
            assert(v@[m] == x);
        }
    }
    false
}

} // verus!
