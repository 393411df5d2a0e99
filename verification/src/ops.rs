//! The operation engine: the six atomic structural operations over the
//! node graph, each preserving the engine invariant.

use vstd::prelude::*;

use crate::graph::{ids_contain, Engine, Node};
use crate::reach::{
    acyclic, closed_under_children, lemma_acyclic_insert, lemma_acyclic_subset, lemma_reaches_mono,
    reaches,
};

verus! {

/// The outcomes an operation can refuse with.
#[derive(Debug, Clone, Copy, PartialEq, Eq, Structural)]
pub enum NodeOperationError {
    /// A node being operated on does not exist.
    NonexistentNode,
    /// A root node already exists on create.
    RootAlreadyExists,
    /// An attempt to link nodes from two different workspaces.
    ForbiddenLink,
    /// A borrow or take that would make a node its own ancestor.
    CyclicReference,
    /// A failure of the backing store; never produced by the in-memory engine.
    DatabaseOperationFailed,
}

/// Filtering distributes over push.
pub proof fn lemma_filter_push<A>(s: Seq<A>, x: A, pred: spec_fn(A) -> bool)
    ensures
        s.push(x).filter(pred) == if pred(x) {
            s.filter(pred).push(x)
        } else {
            s.filter(pred)
        },
{
    reveal(Seq::filter);
    assert(s.push(x).drop_last() =~= s);
    assert(s.push(x).last() == x);
    assert(s.push(x).len() == s.len() + 1);
}

/// A sequence member survives a filter exactly when the predicate accepts it.
pub proof fn lemma_filter_membership<A>(s: Seq<A>, pred: spec_fn(A) -> bool)
    ensures
        forall|x: A| #[trigger] s.filter(pred).contains(x) <==> s.contains(x) && pred(x),
    decreases s.len(),
{
    reveal(Seq::filter);
    if s.len() == 0 {
        assert forall|x: A| #[trigger] s.filter(pred).contains(x) implies s.contains(x) && pred(
            x,
        ) by {
            let k = choose|k: int| 0 <= k < s.filter(pred).len() && s.filter(pred)[k] == x;
        }
    } else {
        let d = s.drop_last();
        let l = s.last();
        lemma_filter_membership(d, pred);
        assert forall|x: A| #[trigger] s.filter(pred).contains(x) implies s.contains(x) && pred(
            x,
        ) by {
            if pred(l) {
                assert(s.filter(pred) == d.filter(pred).push(l));
                let k = choose|k: int| 0 <= k < s.filter(pred).len() && s.filter(pred)[k] == x;
                if k < s.filter(pred).len() - 1 {
                    assert(d.filter(pred)[k] == x);
                    assert(d.filter(pred).contains(x));
                    assert(d.contains(x));
                    let m = choose|m: int| 0 <= m < d.len() && d[m] == x;
                    assert(s[m] == x);
                } else {
                    assert(x == l);
                    assert(s[s.len() - 1] == x);
                }
            } else {
                assert(s.filter(pred) == d.filter(pred));
                assert(d.contains(x));
                let m = choose|m: int| 0 <= m < d.len() && d[m] == x;
                assert(s[m] == x);
            }
        }
        assert forall|x: A| s.contains(x) && pred(x) implies #[trigger] s.filter(pred).contains(
            x,
        ) by {
            let k = choose|k: int| 0 <= k < s.len() && s[k] == x;
            if k == s.len() - 1 {
                assert(x == l);
                assert(s.filter(pred) == d.filter(pred).push(l));
                assert(s.filter(pred)[s.filter(pred).len() - 1] == x);
            } else {
                assert(d[k] == x);
                assert(d.contains(x));
                assert(d.filter(pred).contains(x));
                let m = choose|m: int| 0 <= m < d.filter(pred).len() && d.filter(pred)[m] == x;
                if pred(l) {
                    assert(s.filter(pred) == d.filter(pred).push(l));
                    assert(s.filter(pred)[m] == x);
                } else {
                    assert(s.filter(pred) == d.filter(pred));
                }
            }
        }
    }
}

/// Filtering a duplicate-free sequence leaves it duplicate-free.
pub proof fn lemma_filter_no_dup<A>(s: Seq<A>, pred: spec_fn(A) -> bool)
    requires
        s.no_duplicates(),
    ensures
        s.filter(pred).no_duplicates(),
    decreases s.len(),
{
    reveal(Seq::filter);
    if s.len() > 0 {
        let d = s.drop_last();
        let l = s.last();
        assert(d.no_duplicates());
        lemma_filter_no_dup(d, pred);
        if pred(l) {
            assert(s.filter(pred) == d.filter(pred).push(l));
            assert(!d.contains(l)) by {
                if d.contains(l) {
                    let m = choose|m: int| 0 <= m < d.len() && d[m] == l;
                    assert(s[m] == s[s.len() - 1]);
                }
            }
            lemma_filter_membership(d, pred);
            assert(!d.filter(pred).contains(l));
            let f = d.filter(pred).push(l);
            assert forall|i: int, j: int|
                0 <= i < f.len() && 0 <= j < f.len() && i != j implies f[i] != f[j] by {
                if i < f.len() - 1 && j < f.len() - 1 {
                    assert(f[i] == d.filter(pred)[i] && f[j] == d.filter(pred)[j]);
                } else if i == f.len() - 1 {
                    if f[i] == f[j] {
                        assert(d.filter(pred)[j] == l);
                        assert(d.filter(pred).contains(l));
                    }
                } else {
                    if f[i] == f[j] {
                        assert(d.filter(pred)[i] == l);
                        assert(d.filter(pred).contains(l));
                    }
                }
            }
        } else {
            assert(s.filter(pred) == d.filter(pred));
        }
    }
}

/// Two predicates that agree on the members of a sequence filter it alike.
pub proof fn lemma_filter_agree<A>(s: Seq<A>, p1: spec_fn(A) -> bool, p2: spec_fn(A) -> bool)
    requires
        forall|x: A| #[trigger] s.contains(x) ==> p1(x) == p2(x),
    ensures
        s.filter(p1) == s.filter(p2),
    decreases s.len(),
{
    reveal(Seq::filter);
    if s.len() > 0 {
        let d = s.drop_last();
        let l = s.last();
        assert forall|x: A| #[trigger] d.contains(x) implies p1(x) == p2(x) by {
            let m = choose|m: int| 0 <= m < d.len() && d[m] == x;
            assert(s[m] == x);
            assert(s.contains(x));
        }
        lemma_filter_agree(d, p1, p2);
        assert(s[s.len() - 1] == l);
        assert(s.contains(l));
    }
}

/// An exact copy of a node record.
pub fn clone_node(n: &Node) -> (r: Node)
    ensures
        r == *n,
{
    let icon = match &n.icon {
        Some(s) => Some(s.clone()),
        None => None,
    };
    Node {
        id: n.id,
        workspace_id: n.workspace_id,
        name: n.name.clone(),
        summary: n.summary.clone(),
        optional: n.optional,
        resolved: n.resolved,
        icon,
    }
}

/// The edges that do not leave `branch`: every parent link of `branch`
/// removed.
#[verifier::loop_isolation(false)]
fn edges_without_child(edges: &Vec<(u64, u64)>, branch: u64) -> (out: Vec<(u64, u64)>)
    ensures
        out@ == edges@.filter(|e: (u64, u64)| e.0 != branch),
{
    let ghost pred = |e: (u64, u64)| e.0 != branch;
    let mut out: Vec<(u64, u64)> = Vec::new();
    let mut k: usize = 0;
    proof {
        assert(edges@.take(0).filter(pred) =~= Seq::<(u64, u64)>::empty()) by {
            reveal(Seq::<_>::filter);
            assert(edges@.take(0) =~= Seq::<(u64, u64)>::empty());
        }
    }
    while k < edges.len()
        invariant
            k <= edges@.len(),
            out@ == edges@.take(k as int).filter(pred),
        decreases edges@.len() - k,
    {
        let e = edges[k];
        proof {
            lemma_filter_push(edges@.take(k as int), e, pred);
            assert(edges@.take(k as int + 1) =~= edges@.take(k as int).push(e));
        }
        if e.0 != branch {
            out.push(e);
        }
        k = k + 1;
    }
    proof {
        assert(edges@.take(edges@.len() as int) =~= edges@);
    }
    out
}

/// The edges with the one link `(child, parent)` removed.
#[verifier::loop_isolation(false)]
fn edges_without_edge(edges: &Vec<(u64, u64)>, child: u64, parent: u64) -> (out: Vec<(u64, u64)>)
    ensures
        out@ == edges@.filter(|e: (u64, u64)| e != (child, parent)),
{
    let ghost pred = |e: (u64, u64)| e != (child, parent);
    let mut out: Vec<(u64, u64)> = Vec::new();
    let mut k: usize = 0;
    proof {
        assert(edges@.take(0).filter(pred) =~= Seq::<(u64, u64)>::empty()) by {
            reveal(Seq::<_>::filter);
            assert(edges@.take(0) =~= Seq::<(u64, u64)>::empty());
        }
    }
    while k < edges.len()
        invariant
            k <= edges@.len(),
            out@ == edges@.take(k as int).filter(pred),
        decreases edges@.len() - k,
    {
        let e = edges[k];
        proof {
            lemma_filter_push(edges@.take(k as int), e, pred);
            assert(edges@.take(k as int + 1) =~= edges@.take(k as int).push(e));
        }
        if !(e.0 == child && e.1 == parent) {
            out.push(e);
        }
        k = k + 1;
    }
    proof {
        assert(edges@.take(edges@.len() as int) =~= edges@);
    }
    out
}

/// The edges with `branch` detached from every node of `chain`.
#[verifier::loop_isolation(false)]
fn edges_detached(edges: &Vec<(u64, u64)>, branch: u64, chain: &Vec<u64>) -> (out: Vec<
    (u64, u64),
>)
    ensures
        out@ == edges@.filter(|e: (u64, u64)| !(e.0 == branch && chain@.contains(e.1))),
{
    let ghost pred = |e: (u64, u64)| !(e.0 == branch && chain@.contains(e.1));
    let mut out: Vec<(u64, u64)> = Vec::new();
    let mut k: usize = 0;
    proof {
        assert(edges@.take(0).filter(pred) =~= Seq::<(u64, u64)>::empty()) by {
            reveal(Seq::<_>::filter);
            assert(edges@.take(0) =~= Seq::<(u64, u64)>::empty());
        }
    }
    while k < edges.len()
        invariant
            k <= edges@.len(),
            out@ == edges@.take(k as int).filter(pred),
        decreases edges@.len() - k,
    {
        let e = edges[k];
        proof {
            lemma_filter_push(edges@.take(k as int), e, pred);
            assert(edges@.take(k as int + 1) =~= edges@.take(k as int).push(e));
        }
        if !(e.0 == branch && ids_contain(chain, e.1)) {
            out.push(e);
        }
        k = k + 1;
    }
    proof {
        assert(edges@.take(edges@.len() as int) =~= edges@);
    }
    out
}

/// The edges that touch no identity of `cl`.
#[verifier::loop_isolation(false)]
fn edges_outside(edges: &Vec<(u64, u64)>, cl: &Vec<u64>) -> (out: Vec<(u64, u64)>)
    ensures
        out@ == edges@.filter(|e: (u64, u64)| !cl@.contains(e.0) && !cl@.contains(e.1)),
{
    let ghost pred = |e: (u64, u64)| !cl@.contains(e.0) && !cl@.contains(e.1);
    let mut out: Vec<(u64, u64)> = Vec::new();
    let mut k: usize = 0;
    proof {
        assert(edges@.take(0).filter(pred) =~= Seq::<(u64, u64)>::empty()) by {
            reveal(Seq::<_>::filter);
            assert(edges@.take(0) =~= Seq::<(u64, u64)>::empty());
        }
    }
    while k < edges.len()
        invariant
            k <= edges@.len(),
            out@ == edges@.take(k as int).filter(pred),
        decreases edges@.len() - k,
    {
        let e = edges[k];
        proof {
            lemma_filter_push(edges@.take(k as int), e, pred);
            assert(edges@.take(k as int + 1) =~= edges@.take(k as int).push(e));
        }
        if !ids_contain(cl, e.0) && !ids_contain(cl, e.1) {
            out.push(e);
        }
        k = k + 1;
    }
    proof {
        assert(edges@.take(edges@.len() as int) =~= edges@);
    }
    out
}

/// The node records whose identity is outside `cl`.
#[verifier::loop_isolation(false)]
fn nodes_outside(nodes: &Vec<Node>, cl: &Vec<u64>) -> (out: Vec<Node>)
    ensures
        out@ == nodes@.filter(|nd: Node| !cl@.contains(nd.id)),
{
    let ghost pred = |nd: Node| !cl@.contains(nd.id);
    let mut out: Vec<Node> = Vec::new();
    let mut k: usize = 0;
    proof {
        assert(nodes@.take(0).filter(pred) =~= Seq::<Node>::empty()) by {
            reveal(Seq::<_>::filter);
            assert(nodes@.take(0) =~= Seq::<Node>::empty());
        }
    }
    while k < nodes.len()
        invariant
            k <= nodes@.len(),
            out@ == nodes@.take(k as int).filter(pred),
        decreases nodes@.len() - k,
    {
        proof {
            lemma_filter_push(nodes@.take(k as int), nodes@[k as int], pred);
            assert(nodes@.take(k as int + 1) =~= nodes@.take(k as int).push(nodes@[k as int]));
        }
        if !ids_contain(cl, nodes[k].id) {
            let nd = clone_node(&nodes[k]);
            out.push(nd);
        }
        k = k + 1;
    }
    proof {
        assert(nodes@.take(nodes@.len() as int) =~= nodes@);
    }
    out
}

impl Engine {
    /// The record a create or add inserts.
    pub open spec fn fresh_node(id: u64, workspace: u64, name: String, summary: String) -> Node {
        Node {
            id,
            workspace_id: workspace,
            name,
            summary,
            optional: false,
            resolved: false,
            icon: None,
        }
    }

    /// Pushing a record with the next identity keeps identities unique and
    /// bounded and leaves every old node and every parent relation as it was.
    proof fn lemma_push_node(pre: Engine, post: Engine, nd: Node)
        requires
            pre.ids_bounded(),
            pre.ids_unique(),
            nd.id == pre.next_id,
            post.nodes@ == pre.nodes@.push(nd),
            post.edges@ == pre.edges@,
            post.next_id == pre.next_id + 1,
        ensures
            post.ids_bounded(),
            post.ids_unique(),
            !pre.has_node(nd.id),
            forall|x: u64| post.has_node(x) <==> pre.has_node(x) || x == nd.id,
            forall|x: u64| pre.has_node(x) ==> post.spec_node(x) == pre.spec_node(x),
            post.spec_node(nd.id) == nd,
            post.edge_set() == pre.edge_set(),
            forall|x: u64| post.has_parent(x) == pre.has_parent(x),
    {
        let n = pre.nodes@.len() as int;
        assert(forall|i: int| 0 <= i < n ==> post.nodes@[i] == pre.nodes@[i]);
        assert(post.nodes@[n] == nd);
        assert(post.ids_bounded());
        assert forall|i: int, j: int|
            0 <= i < post.nodes@.len() && 0 <= j < post.nodes@.len() && i != j implies (
        #[trigger] post.nodes@[i]).id != (#[trigger] post.nodes@[j]).id by {
            if i < n && j < n {
                assert(pre.nodes@[i].id != pre.nodes@[j].id);
            } else if i == n {
                assert(pre.nodes@[j].id < pre.next_id);
            } else {
                assert(pre.nodes@[i].id < pre.next_id);
            }
        }
        assert(!pre.has_node(nd.id)) by {
            if pre.has_node(nd.id) {
                let i = choose|i: int|
                    0 <= i < pre.nodes@.len() && (#[trigger] pre.nodes@[i]).id == nd.id;
                assert(pre.nodes@[i].id < pre.next_id);
            }
        }
        assert forall|x: u64| post.has_node(x) <==> pre.has_node(x) || x == nd.id by {
            if post.has_node(x) {
                let i = choose|i: int|
                    0 <= i < post.nodes@.len() && (#[trigger] post.nodes@[i]).id == x;
                if i < n {
                    assert(pre.nodes@[i].id == x);
                    assert(pre.has_node(x));
                }
            }
            if pre.has_node(x) {
                let i = choose|i: int|
                    0 <= i < pre.nodes@.len() && (#[trigger] pre.nodes@[i]).id == x;
                assert(post.nodes@[i].id == x);
                assert(post.has_node(x));
            }
            if x == nd.id {
                assert(post.nodes@[n].id == x);
                assert(post.has_node(x));
            }
        }
        assert forall|x: u64| pre.has_node(x) implies post.spec_node(x) == pre.spec_node(x) by {
            let i = choose|i: int|
                0 <= i < pre.nodes@.len() && (#[trigger] pre.nodes@[i]).id == x;
            assert(post.nodes@[i].id == x);
            assert(post.has_node(x));
            let j = post.node_idx(x);
            assert(0 <= j < post.nodes@.len() && post.nodes@[j].id == x);
            assert(j == i) by {
                if j != i {
                    assert(post.nodes@[i].id != post.nodes@[j].id);
                }
            }
            let j2 = pre.node_idx(x);
            assert(0 <= j2 < pre.nodes@.len() && pre.nodes@[j2].id == x);
            assert(j2 == i) by {
                if j2 != i {
                    assert(pre.nodes@[i].id != pre.nodes@[j2].id);
                }
            }
        }
        assert(post.spec_node(nd.id) == nd) by {
            assert(post.nodes@[n].id == nd.id);
            assert(post.has_node(nd.id));
            let j = post.node_idx(nd.id);
            assert(0 <= j < post.nodes@.len() && post.nodes@[j].id == nd.id);
            assert(j == n) by {
                if j != n {
                    assert(post.nodes@[j].id != post.nodes@[n].id);
                }
            }
        }
        assert(post.edge_set() =~= pre.edge_set());
        assert forall|x: u64| post.has_parent(x) == pre.has_parent(x) by {
            if post.has_parent(x) {
                let pr = choose|pr: u64| #[trigger] post.edge_set().contains((x, pr));
                assert(pre.edge_set().contains((x, pr)));
                assert(pre.has_parent(x));
            }
            if pre.has_parent(x) {
                let pr = choose|pr: u64| #[trigger] pre.edge_set().contains((x, pr));
                assert(post.edge_set().contains((x, pr)));
                assert(post.has_parent(x));
            }
        }
    }

    /// Whether some node of `workspace` is parentless.
    pub fn root_exists(&self, workspace: u64) -> (r: bool)
        requires
            self.ids_unique(),
        ensures
            r == self.has_root(workspace),
    {
        let mut i: usize = 0;
        while i < self.nodes.len()
            invariant
                self.ids_unique(),
                i <= self.nodes@.len(),
                forall|k: int|
                    0 <= k < i ==> !((#[trigger] self.nodes@[k]).workspace_id == workspace
                        && !self.has_parent(self.nodes@[k].id)),
            decreases self.nodes@.len() - i,
        {
            if self.nodes[i].workspace_id == workspace && !self.has_parent_exec(self.nodes[i].id)
            {
                proof {
                    let id = self.nodes@[i as int].id;
                    assert(self.has_node(id));
                    self.lemma_node_at(i as int);
                    assert(self.is_root(id) && self.workspace_of(id) == workspace);
                }
                return true;
            }
            i = i + 1;
        }
        proof {
            if self.has_root(workspace) {
                let n = choose|n: u64|
                    #[trigger] self.is_root(n) && self.workspace_of(n) == workspace;
                let k = choose|k: int|
                    0 <= k < self.nodes@.len() && (#[trigger] self.nodes@[k]).id == n;
                self.lemma_node_at(k);
                assert(self.nodes@[k].workspace_id == workspace);
                assert(!self.has_parent(self.nodes@[k].id));
            }
        }
        false
    }

    /// CREATE: make the root node of a workspace. Refused when the workspace
    /// already holds a parentless node.
    pub fn create_node(&mut self, workspace: u64, name: String, summary: String) -> (r: Result<
        u64,
        NodeOperationError,
    >)
        requires
            old(self).wf(),
            old(self).next_id < u64::MAX,
        ensures
            final(self).wf(),
            old(self).has_root(workspace) ==> r == Err::<u64, NodeOperationError>(
                NodeOperationError::RootAlreadyExists,
            ) && *final(self) == *old(self),
            !old(self).has_root(workspace) ==> {
                &&& r == Ok::<u64, NodeOperationError>(old(self).next_id)
                &&& final(self).nodes@ == old(self).nodes@.push(
                    Engine::fresh_node(old(self).next_id, workspace, name, summary),
                )
                &&& final(self).edges@ == old(self).edges@
                &&& final(self).next_id == old(self).next_id + 1
            },
    {
        if self.root_exists(workspace) {
            return Err(NodeOperationError::RootAlreadyExists);
        }
        let id = self.next_id;
        let nd = Node {
            id,
            workspace_id: workspace,
            name,
            summary,
            optional: false,
            resolved: false,
            icon: None,
        };
        self.nodes.push(nd);
        self.next_id = self.next_id + 1;
        proof {
            let pre = *old(self);
            let post = *self;
            Engine::lemma_push_node(pre, post, Engine::fresh_node(id, workspace, name, summary));
            assert(post.edges_closed()) by {
                assert forall|k: int| 0 <= k < post.edges@.len() implies post.has_node(
                    (#[trigger] post.edges@[k]).0,
                ) && post.has_node(post.edges@[k].1) by {
                    assert(pre.has_node(pre.edges@[k].0) && pre.has_node(pre.edges@[k].1));
                }
            }
            assert(post.edges_same_workspace()) by {
                assert forall|k: int| 0 <= k < post.edges@.len() implies post.workspace_of(
                    (#[trigger] post.edges@[k]).0,
                ) == post.workspace_of(post.edges@[k].1) by {
                    assert(pre.has_node(pre.edges@[k].0) && pre.has_node(pre.edges@[k].1));
                    assert(post.spec_node(pre.edges@[k].0) == pre.spec_node(pre.edges@[k].0));
                    assert(post.spec_node(pre.edges@[k].1) == pre.spec_node(pre.edges@[k].1));
                }
            }
            assert(acyclic(post.edge_set()));
            assert(post.single_root()) by {
                assert forall|a: u64, b: u64|
                    #[trigger] post.is_root(a) && #[trigger] post.is_root(b)
                        && post.workspace_of(a) == post.workspace_of(b) implies a == b by {
                    if a != b {
                        if pre.has_node(a) && pre.has_node(b) {
                            assert(pre.is_root(a) && pre.is_root(b));
                            assert(pre.workspace_of(a) == post.workspace_of(a));
                            assert(pre.workspace_of(b) == post.workspace_of(b));
                        } else if !pre.has_node(a) {
                            // a is the new node, so b is an old root of the
                            // same workspace, refused by the entry check
                            assert(a == id);
                            assert(post.workspace_of(a) == workspace);
                            assert(pre.is_root(b));
                            assert(pre.workspace_of(b) == post.workspace_of(b));
                            assert(pre.has_root(workspace));
                        } else {
                            assert(b == id);
                            assert(post.workspace_of(b) == workspace);
                            assert(pre.is_root(a));
                            assert(pre.workspace_of(a) == post.workspace_of(a));
                            assert(pre.has_root(workspace));
                        }
                    }
                }
            }
        }
        Ok(id)
    }

    /// ADD: make a child node under `node` in `workspace`. Refused when
    /// `node` is not a node of that workspace.
    pub fn add_node(&mut self, workspace: u64, node: u64, name: String, summary: String) -> (r:
        Result<u64, NodeOperationError>)
        requires
            old(self).wf(),
            old(self).next_id < u64::MAX,
        ensures
            final(self).wf(),
            !(old(self).has_node(node) && old(self).workspace_of(node) == workspace) ==> (r
                == Err::<u64, NodeOperationError>(NodeOperationError::NonexistentNode)
                && *final(self) == *old(self)),
            old(self).has_node(node) && old(self).workspace_of(node) == workspace ==> {
                &&& r == Ok::<u64, NodeOperationError>(old(self).next_id)
                &&& final(self).nodes@ == old(self).nodes@.push(
                    Engine::fresh_node(old(self).next_id, workspace, name, summary),
                )
                &&& final(self).edges@ == old(self).edges@.push((old(self).next_id, node))
                &&& final(self).next_id == old(self).next_id + 1
            },
    {
        if !self.node_in_workspace(workspace, node) {
            return Err(NodeOperationError::NonexistentNode);
        }
        let id = self.next_id;
        let nd = Node {
            id,
            workspace_id: workspace,
            name,
            summary,
            optional: false,
            resolved: false,
            icon: None,
        };
        self.nodes.push(nd);
        self.next_id = self.next_id + 1;
        let ghost mid = *self;
        proof {
            Engine::lemma_push_node(
                *old(self),
                mid,
                Engine::fresh_node(id, workspace, name, summary),
            );
        }
        self.edges.push((id, node));
        proof {
            let pre = *old(self);
            let post = *self;
            assert(post.nodes@ == mid.nodes@ && post.next_id == mid.next_id);
            assert(post.edges@ == pre.edges@.push((id, node)));
            assert(forall|x: u64| post.has_node(x) == mid.has_node(x));
            assert(forall|x: u64|
                mid.has_node(x) ==> #[trigger] post.spec_node(x) == mid.spec_node(x)) by {
                assert(post.nodes@ == mid.nodes@);
            }
            assert(post.edge_set() =~= pre.edge_set().insert((id, node))) by {
                assert forall|e: (u64, u64)| #[trigger] post.edges@.contains(e) implies
                pre.edges@.contains(e) || e == (id, node) by {
                    let k = choose|k: int| 0 <= k < post.edges@.len() && post.edges@[k] == e;
                    if k < pre.edges@.len() {
                        assert(pre.edges@[k] == e);
                    }
                }
                assert forall|e: (u64, u64)| #[trigger] pre.edges@.contains(e) implies
                post.edges@.contains(e) by {
                    let k = choose|k: int| 0 <= k < pre.edges@.len() && pre.edges@[k] == e;
                    assert(post.edges@[k] == e);
                }
                assert(post.edges@[pre.edges@.len() as int] == (id, node));
                assert(post.edges@.contains((id, node)));
            }
            // identities bounded and unique carry over from the pushed state
            assert(post.ids_bounded() && post.ids_unique());
            // the new edge joins the fresh node to an old node of the same
            // workspace
            assert(mid.has_node(id) && mid.has_node(node));
            assert(post.edges_closed()) by {
                assert forall|k: int| 0 <= k < post.edges@.len() implies post.has_node(
                    (#[trigger] post.edges@[k]).0,
                ) && post.has_node(post.edges@[k].1) by {
                    if k < pre.edges@.len() {
                        assert(pre.has_node(pre.edges@[k].0) && pre.has_node(pre.edges@[k].1));
                    } else {
                        assert(post.edges@[k] == (id, node));
                    }
                }
            }
            assert(post.edges_same_workspace()) by {
                assert forall|k: int| 0 <= k < post.edges@.len() implies post.workspace_of(
                    (#[trigger] post.edges@[k]).0,
                ) == post.workspace_of(post.edges@[k].1) by {
                    if k < pre.edges@.len() {
                        assert(pre.has_node(pre.edges@[k].0) && pre.has_node(pre.edges@[k].1));
                        assert(post.spec_node(pre.edges@[k].0) == pre.spec_node(pre.edges@[k].0));
                        assert(post.spec_node(pre.edges@[k].1) == pre.spec_node(pre.edges@[k].1));
                    } else {
                        assert(post.edges@[k] == (id, node));
                        assert(post.spec_node(id) == Engine::fresh_node(
                            id,
                            workspace,
                            name,
                            summary,
                        ));
                        assert(post.spec_node(node) == pre.spec_node(node));
                    }
                }
            }
            assert(post.edges_unique()) by {
                assert(!pre.edges@.contains((id, node))) by {
                    if pre.edges@.contains((id, node)) {
                        let k = choose|k: int|
                            0 <= k < pre.edges@.len() && pre.edges@[k] == (id, node);
                        assert(pre.has_node((#[trigger] pre.edges@[k]).0));
                        assert(!pre.has_node(id));
                    }
                }
                assert forall|i: int, j: int|
                    0 <= i < post.edges@.len() && 0 <= j < post.edges@.len() && i != j implies
                post.edges@[i] != post.edges@[j] by {
                    let n = pre.edges@.len() as int;
                    if i < n && j < n {
                        assert(pre.edges@.no_duplicates());
                    } else if i == n {
                        if post.edges@[i] == post.edges@[j] {
                            assert(pre.edges@[j] == (id, node));
                            assert(pre.edges@.contains((id, node)));
                        }
                    } else {
                        if post.edges@[i] == post.edges@[j] {
                            assert(pre.edges@[i] == (id, node));
                            assert(pre.edges@.contains((id, node)));
                        }
                    }
                }
            }
            assert(acyclic(post.edge_set())) by {
                assert(!reaches(pre.edge_set(), id, node)) by {
                    if reaches(pre.edge_set(), id, node) {
                        pre.lemma_fresh_only_reaches_itself(id, node);
                        assert(node == id);
                        assert(pre.has_node(node));
                        assert(!pre.has_node(id));
                    }
                }
                lemma_acyclic_insert(pre.edge_set(), id, node);
            }
            assert(post.single_root()) by {
                assert forall|x: u64| #[trigger] post.has_parent(x) <==> (pre.has_parent(x) || x
                    == id) by {
                    if post.has_parent(x) {
                        let pr = choose|pr: u64| #[trigger] post.edge_set().contains((x, pr));
                        if (x, pr) != (id, node) {
                            assert(pre.edge_set().contains((x, pr)));
                        }
                    }
                    if pre.has_parent(x) {
                        let pr = choose|pr: u64| #[trigger] pre.edge_set().contains((x, pr));
                        assert(post.edge_set().contains((x, pr)));
                    }
                    if x == id {
                        assert(post.edge_set().contains((id, node)));
                    }
                }
                assert forall|a: u64, b: u64|
                    #[trigger] post.is_root(a) && #[trigger] post.is_root(b)
                        && post.workspace_of(a) == post.workspace_of(b) implies a == b by {
                    assert(a != id && b != id);
                    assert(pre.has_node(a) && pre.has_node(b));
                    assert(pre.is_root(a) && pre.is_root(b));
                    assert(post.spec_node(a) == pre.spec_node(a));
                    assert(post.spec_node(b) == pre.spec_node(b));
                }
            }
        }
        Ok(id)
    }

    /// Why a borrow or take of `branch` onto `node` is refused, if it is:
    /// a missing node, a cross-workspace link, or a link that would close a
    /// cycle (`node` already lies below `branch`).
    pub open spec fn link_refusal(self, node: u64, branch: u64) -> Option<NodeOperationError> {
        if !self.has_node(node) || !self.has_node(branch) {
            Some(NodeOperationError::NonexistentNode)
        } else if self.workspace_of(node) != self.workspace_of(branch) {
            Some(NodeOperationError::ForbiddenLink)
        } else if reaches(self.edge_set(), branch, node) {
            Some(NodeOperationError::CyclicReference)
        } else {
            None
        }
    }

    /// `branch` has a parent other than `node`.
    pub open spec fn other_parent_exists(self, branch: u64, node: u64) -> bool {
        exists|pr: u64| pr != node && #[trigger] self.edge_set().contains((branch, pr))
    }

    /// The state after cascading deletion starting at `start`: every node of
    /// the downward closure of `start` is gone, along with every edge that
    /// touches the closure.
    pub open spec fn cascade_result(pre: Engine, post: Engine, start: u64) -> bool {
        let c = crate::reach::reach_set(pre.edge_set(), start);
        &&& post.nodes@ == pre.nodes@.filter(|nd: Node| !c.contains(nd.id))
        &&& post.edges@ == pre.edges@.filter(|e: (u64, u64)| !c.contains(e.0) && !c.contains(e.1))
        &&& post.next_id == pre.next_id
    }

    /// Filtering the edge list preserves every invariant except possibly the
    /// root count, and leaves the nodes untouched.
    proof fn lemma_filtered_edges(pre: Engine, post: Engine, pred: spec_fn((u64, u64)) -> bool)
        requires
            pre.wf(),
            post.nodes@ == pre.nodes@,
            post.next_id == pre.next_id,
            post.edges@ == pre.edges@.filter(pred),
        ensures
            post.ids_bounded(),
            post.ids_unique(),
            post.edges_closed(),
            post.edges_same_workspace(),
            post.edges_unique(),
            acyclic(post.edge_set()),
            post.edge_set().subset_of(pre.edge_set()),
            forall|x: u64| post.has_node(x) == pre.has_node(x),
            forall|x: u64| pre.has_node(x) ==> #[trigger] post.spec_node(x) == pre.spec_node(x),
            forall|e: (u64, u64)|
                #[trigger] post.edge_set().contains(e) <==> pre.edge_set().contains(e) && pred(e),
    {
        lemma_filter_membership(pre.edges@, pred);
        lemma_filter_no_dup(pre.edges@, pred);
        assert(forall|x: u64| post.has_node(x) == pre.has_node(x));
        assert forall|x: u64| pre.has_node(x) implies #[trigger] post.spec_node(x)
            == pre.spec_node(x) by {
            assert(post.nodes@ == pre.nodes@);
        }
        assert forall|e: (u64, u64)| #[trigger]
            post.edge_set().contains(e) <==> pre.edge_set().contains(e) && pred(e) by {
            assert(post.edges@.contains(e) <==> pre.edges@.contains(e) && pred(e));
        }
        assert(post.edge_set().subset_of(pre.edge_set()));
        lemma_acyclic_subset(post.edge_set(), pre.edge_set());
        assert forall|k: int| 0 <= k < post.edges@.len() implies post.has_node(
            (#[trigger] post.edges@[k]).0,
        ) && post.has_node(post.edges@[k].1) && post.workspace_of(post.edges@[k].0)
            == post.workspace_of(post.edges@[k].1) by {
            let e = post.edges@[k];
            assert(post.edges@.contains(e));
            assert(pre.edges@.contains(e));
            let m = choose|m: int| 0 <= m < pre.edges@.len() && pre.edges@[m] == e;
            assert(pre.has_node((#[trigger] pre.edges@[m]).0));
            assert(pre.workspace_of(pre.edges@[m].0) == pre.workspace_of(pre.edges@[m].1));
        }
    }

    /// Pushing a fresh, cycle-free, workspace-respecting edge preserves every
    /// invariant except possibly the root count.
    proof fn lemma_insert_edge(pre: Engine, post: Engine, branch: u64, node: u64)
        requires
            pre.ids_bounded(),
            pre.ids_unique(),
            pre.edges_closed(),
            pre.edges_same_workspace(),
            pre.edges_unique(),
            acyclic(pre.edge_set()),
            pre.has_node(branch),
            pre.has_node(node),
            pre.workspace_of(branch) == pre.workspace_of(node),
            !reaches(pre.edge_set(), branch, node),
            !pre.edges@.contains((branch, node)),
            post.nodes@ == pre.nodes@,
            post.next_id == pre.next_id,
            post.edges@ == pre.edges@.push((branch, node)),
        ensures
            post.ids_bounded(),
            post.ids_unique(),
            post.edges_closed(),
            post.edges_same_workspace(),
            post.edges_unique(),
            acyclic(post.edge_set()),
            forall|x: u64| post.has_node(x) == pre.has_node(x),
            forall|x: u64| pre.has_node(x) ==> #[trigger] post.spec_node(x) == pre.spec_node(x),
            forall|e: (u64, u64)|
                #[trigger] post.edge_set().contains(e) <==> pre.edge_set().contains(e) || e == (
                branch,
                node,
            ),
            forall|x: u64| #[trigger] post.has_parent(x) <==> pre.has_parent(x) || x == branch,
    {
        let n = pre.edges@.len() as int;
        assert(forall|x: u64| post.has_node(x) == pre.has_node(x));
        assert forall|x: u64| pre.has_node(x) implies #[trigger] post.spec_node(x)
            == pre.spec_node(x) by {
            assert(post.nodes@ == pre.nodes@);
        }
        assert forall|e: (u64, u64)| #[trigger]
            post.edge_set().contains(e) <==> pre.edge_set().contains(e) || e == (
            branch,
            node,
        ) by {
            if post.edges@.contains(e) {
                let k = choose|k: int| 0 <= k < post.edges@.len() && post.edges@[k] == e;
                if k < n {
                    assert(pre.edges@[k] == e);
                }
            }
            if pre.edges@.contains(e) {
                let k = choose|k: int| 0 <= k < pre.edges@.len() && pre.edges@[k] == e;
                assert(post.edges@[k] == e);
            }
            assert(post.edges@[n] == (branch, node));
        }
        assert(post.edges_unique()) by {
            assert forall|i: int, j: int|
                0 <= i < post.edges@.len() && 0 <= j < post.edges@.len() && i != j implies
            post.edges@[i] != post.edges@[j] by {
                if i < n && j < n {
                    assert(pre.edges@.no_duplicates());
                } else if i == n {
                    if post.edges@[i] == post.edges@[j] {
                        assert(pre.edges@[j] == (branch, node));
                        assert(pre.edges@.contains((branch, node)));
                    }
                } else {
                    if post.edges@[i] == post.edges@[j] {
                        assert(pre.edges@[i] == (branch, node));
                        assert(pre.edges@.contains((branch, node)));
                    }
                }
            }
        }
        assert(post.edge_set() =~= pre.edge_set().insert((branch, node)));
        lemma_acyclic_insert(pre.edge_set(), branch, node);
        assert(acyclic(post.edge_set()));
        assert(post.edges_closed()) by {
            assert forall|k: int| 0 <= k < post.edges@.len() implies post.has_node(
                (#[trigger] post.edges@[k]).0,
            ) && post.has_node(post.edges@[k].1) by {
                if k < n {
                    assert(pre.has_node((#[trigger] pre.edges@[k]).0) && pre.has_node(
                        pre.edges@[k].1,
                    ));
                } else {
                    assert(post.edges@[k] == (branch, node));
                }
            }
        }
        assert(post.edges_same_workspace()) by {
            assert forall|k: int| 0 <= k < post.edges@.len() implies post.workspace_of(
                (#[trigger] post.edges@[k]).0,
            ) == post.workspace_of(post.edges@[k].1) by {
                if k < n {
                    assert(pre.has_node((#[trigger] pre.edges@[k]).0) && pre.has_node(
                        pre.edges@[k].1,
                    ));
                    assert(pre.workspace_of(pre.edges@[k].0) == pre.workspace_of(
                        pre.edges@[k].1,
                    ));
                } else {
                    assert(post.edges@[k] == (branch, node));
                }
            }
        }
        assert forall|x: u64| #[trigger]
            post.has_parent(x) <==> pre.has_parent(x) || x == branch by {
            if post.has_parent(x) {
                let pr = choose|pr: u64| #[trigger] post.edge_set().contains((x, pr));
                if (x, pr) != (branch, node) {
                    assert(pre.edge_set().contains((x, pr)));
                }
            }
            if pre.has_parent(x) {
                let pr = choose|pr: u64| #[trigger] pre.edge_set().contains((x, pr));
                assert(post.edge_set().contains((x, pr)));
            }
            if x == branch {
                assert(post.edge_set().contains((branch, node)));
            }
        }
    }

    /// Whether `branch` has a parent other than `node`.
    pub fn has_other_parent(&self, branch: u64, node: u64) -> (r: bool)
        ensures
            r == self.other_parent_exists(branch, node),
    {
        let mut k: usize = 0;
        while k < self.edges.len()
            invariant
                k <= self.edges@.len(),
                forall|m: int|
                    0 <= m < k ==> !((#[trigger] self.edges@[m]).0 == branch && self.edges@[m].1
                        != node),
            decreases self.edges@.len() - k,
        {
            if self.edges[k].0 == branch && self.edges[k].1 != node {
                proof {
                    let pr = self.edges@[k as int].1;
                    assert(self.edges@.contains((branch, pr)));
                    assert(self.edge_set().contains((branch, pr)));
                }
                return true;
            }
            k = k + 1;
        }
        proof {
            if self.other_parent_exists(branch, node) {
                let pr = choose|pr: u64|
                    pr != node && #[trigger] self.edge_set().contains((branch, pr));
                let m = choose|m: int|
                    0 <= m < self.edges@.len() && self.edges@[m] == (branch, pr);
                assert((#[trigger] self.edges@[m]).0 == branch && self.edges@[m].1 != node);
            }
        }
        false
    }

    /// BORROW: link `branch` as an additional child of `node`, detaching
    /// `branch` from every node of `node`'s upward ancestor chain first.
    /// Refused when a node is missing, the nodes live in different
    /// workspaces, or `node` already lies below `branch`.
    pub fn borrow_node(&mut self, node: u64, branch: u64) -> (r: Result<(), NodeOperationError>)
        requires
            old(self).wf(),
        ensures
            final(self).wf(),
            match old(self).link_refusal(node, branch) {
                Some(refusal) => r == Err::<(), NodeOperationError>(refusal) && *final(self)
                    == *old(self),
                None => {
                    &&& r == Ok::<(), NodeOperationError>(())
                    &&& final(self).nodes@ == old(self).nodes@
                    &&& final(self).next_id == old(self).next_id
                    &&& final(self).edges@ == {
                        let detached = old(self).edges@.filter(
                            |e: (u64, u64)|
                                !(e.0 == branch && old(self).ancestor_chain(node).contains(e.1)),
                        );
                        if old(self).edge_set().contains((branch, node)) {
                            detached
                        } else {
                            detached.push((branch, node))
                        }
                    }
                },
            },
    {
        if !self.node_exists(node) || !self.node_exists(branch) {
            return Err(NodeOperationError::NonexistentNode);
        }
        if self.workspace_lookup(node) != self.workspace_lookup(branch) {
            return Err(NodeOperationError::ForbiddenLink);
        }
        if self.is_ancestor(branch, node) {
            return Err(NodeOperationError::CyclicReference);
        }
        let chain = self.ancestor_chain_exec(node);
        let ghost pre = *self;
        let ghost pred = |e: (u64, u64)|
            !(e.0 == branch && pre.ancestor_chain(node).contains(e.1));
        proof {
            // the chain never loops back to `node` itself
            assert(!chain@.contains(node)) by {
                if chain@.contains(node) {
                    let q = seq![node] + chain@;
                    let k = choose|k: int| 0 <= k < chain@.len() && chain@[k] == node;
                    assert(q[k + 1] == node && q[0] == node);
                }
            }
        }
        let new_edges = edges_detached(&self.edges, branch, &chain);
        self.edges = new_edges;
        let ghost mid = *self;
        proof {
            Engine::lemma_filtered_edges(pre, mid, pred);
            assert(!reaches(mid.edge_set(), branch, node)) by {
                if reaches(mid.edge_set(), branch, node) {
                    lemma_reaches_mono(mid.edge_set(), pre.edge_set(), branch, node);
                }
            }
            assert(mid.edge_set().contains((branch, node)) == pre.edge_set().contains(
                (branch, node),
            )) by {
                assert(pred((branch, node)));
            }
        }
        if !self.edge_exists(branch, node) {
            self.edges.push((branch, node));
            proof {
                assert(!mid.edges@.contains((branch, node)));
                Engine::lemma_insert_edge(mid, *self, branch, node);
            }
        }
        proof {
            let post = *self;
            // after the relink, `branch` has a parent and no other node's
            // parent set changed, so the root set can only have shrunk
            assert forall|x: u64| x != branch implies (#[trigger] post.has_parent(x)
                == pre.has_parent(x)) by {
                if pre.has_parent(x) {
                    let pr = choose|pr: u64| #[trigger] pre.edge_set().contains((x, pr));
                    assert(pred((x, pr)));
                    assert(mid.edge_set().contains((x, pr)));
                    assert(post.edge_set().contains((x, pr)));
                }
                if post.has_parent(x) {
                    let pr = choose|pr: u64| #[trigger] post.edge_set().contains((x, pr));
                    if !pre.edge_set().contains((x, pr)) {
                        assert((x, pr) == (branch, node));
                    }
                }
            }
            assert(post.has_parent(branch)) by {
                assert(post.edge_set().contains((branch, node)));
            }
            assert(post.single_root()) by {
                assert forall|a: u64, b: u64|
                    #[trigger] post.is_root(a) && #[trigger] post.is_root(b)
                        && post.workspace_of(a) == post.workspace_of(b) implies a == b by {
                    assert(a != branch && b != branch);
                    assert(pre.is_root(a) && pre.is_root(b));
                    assert(post.spec_node(a) == pre.spec_node(a));
                    assert(post.spec_node(b) == pre.spec_node(b));
                }
            }
        }
        Ok(())
    }

    /// TAKE: link `branch` as a child of `node` and evict every previous
    /// parent of `branch`, leaving `node` its only parent. Refused under the
    /// same conditions as a borrow.
    pub fn take_node(&mut self, node: u64, branch: u64) -> (r: Result<(), NodeOperationError>)
        requires
            old(self).wf(),
        ensures
            final(self).wf(),
            match old(self).link_refusal(node, branch) {
                Some(refusal) => r == Err::<(), NodeOperationError>(refusal) && *final(self)
                    == *old(self),
                None => {
                    &&& r == Ok::<(), NodeOperationError>(())
                    &&& final(self).nodes@ == old(self).nodes@
                    &&& final(self).next_id == old(self).next_id
                    &&& final(self).edges@ == old(self).edges@.filter(
                        |e: (u64, u64)| e.0 != branch,
                    ).push((branch, node))
                },
            },
    {
        if !self.node_exists(node) || !self.node_exists(branch) {
            return Err(NodeOperationError::NonexistentNode);
        }
        if self.workspace_lookup(node) != self.workspace_lookup(branch) {
            return Err(NodeOperationError::ForbiddenLink);
        }
        if self.is_ancestor(branch, node) {
            return Err(NodeOperationError::CyclicReference);
        }
        let ghost pre = *self;
        let ghost pred = |e: (u64, u64)| e.0 != branch;
        let new_edges = edges_without_child(&self.edges, branch);
        self.edges = new_edges;
        let ghost mid = *self;
        proof {
            Engine::lemma_filtered_edges(pre, mid, pred);
            assert(!reaches(mid.edge_set(), branch, node)) by {
                if reaches(mid.edge_set(), branch, node) {
                    lemma_reaches_mono(mid.edge_set(), pre.edge_set(), branch, node);
                }
            }
            assert(!mid.edges@.contains((branch, node))) by {
                if mid.edges@.contains((branch, node)) {
                    assert(mid.edge_set().contains((branch, node)));
                    assert(pred((branch, node)));
                }
            }
        }
        self.edges.push((branch, node));
        proof {
            Engine::lemma_insert_edge(mid, *self, branch, node);
            let post = *self;
            assert forall|x: u64| x != branch implies (#[trigger] post.has_parent(x)
                == pre.has_parent(x)) by {
                if pre.has_parent(x) {
                    let pr = choose|pr: u64| #[trigger] pre.edge_set().contains((x, pr));
                    assert(pred((x, pr)));
                    assert(mid.edge_set().contains((x, pr)));
                    assert(post.edge_set().contains((x, pr)));
                }
                if post.has_parent(x) {
                    let pr = choose|pr: u64| #[trigger] post.edge_set().contains((x, pr));
                    if !pre.edge_set().contains((x, pr)) {
                        assert((x, pr) == (branch, node));
                    }
                }
            }
            assert(post.has_parent(branch)) by {
                assert(post.edge_set().contains((branch, node)));
            }
            assert(post.single_root()) by {
                assert forall|a: u64, b: u64|
                    #[trigger] post.is_root(a) && #[trigger] post.is_root(b)
                        && post.workspace_of(a) == post.workspace_of(b) implies a == b by {
                    assert(a != branch && b != branch);
                    assert(pre.is_root(a) && pre.is_root(b));
                    assert(post.spec_node(a) == pre.spec_node(a));
                    assert(post.spec_node(b) == pre.spec_node(b));
                }
            }
        }
        Ok(())
    }

    /// Cascading deletion preserves the engine invariant: the downward
    /// closure of `start` is removed wholesale, and no surviving node loses
    /// a parent.
    pub(crate) proof fn lemma_cascade_wf(pre: Engine, post: Engine, start: u64)
        requires
            pre.wf(),
            pre.has_node(start),
            Engine::cascade_result(pre, post, start),
        ensures
            post.wf(),
            forall|x: u64|
                #[trigger] post.has_node(x) <==> pre.has_node(x) && !crate::reach::reach_set(
                    pre.edge_set(),
                    start,
                ).contains(x),
            forall|x: u64|
                post.has_node(x) ==> (#[trigger] post.has_parent(x) <==> pre.has_parent(x)),
    {
        let c = crate::reach::reach_set(pre.edge_set(), start);
        let npred = |nd: Node| !c.contains(nd.id);
        let epred = |e: (u64, u64)| !c.contains(e.0) && !c.contains(e.1);
        lemma_filter_membership(pre.nodes@, npred);
        lemma_filter_membership(pre.edges@, epred);
        lemma_filter_no_dup(pre.edges@, epred);
        // node values are pairwise distinct because identities are
        assert(pre.nodes@.no_duplicates()) by {
            assert forall|i: int, j: int|
                0 <= i < pre.nodes@.len() && 0 <= j < pre.nodes@.len() && i != j implies
            pre.nodes@[i] != pre.nodes@[j] by {
                assert(pre.nodes@[i].id != pre.nodes@[j].id);
            }
        }
        lemma_filter_no_dup(pre.nodes@, npred);
        assert forall|x: u64|
            #[trigger] post.has_node(x) <==> pre.has_node(x) && !c.contains(x) by {
            if post.has_node(x) {
                let i = choose|i: int|
                    0 <= i < post.nodes@.len() && (#[trigger] post.nodes@[i]).id == x;
                let v = post.nodes@[i];
                assert(post.nodes@.contains(v));
                assert(pre.nodes@.contains(v) && npred(v));
                let m = choose|m: int| 0 <= m < pre.nodes@.len() && pre.nodes@[m] == v;
                assert((#[trigger] pre.nodes@[m]).id == x);
                assert(pre.has_node(x));
            }
            if pre.has_node(x) && !c.contains(x) {
                let i = choose|i: int|
                    0 <= i < pre.nodes@.len() && (#[trigger] pre.nodes@[i]).id == x;
                let v = pre.nodes@[i];
                assert(pre.nodes@.contains(v));
                assert(post.nodes@.contains(v));
                let m = choose|m: int| 0 <= m < post.nodes@.len() && post.nodes@[m] == v;
                assert((#[trigger] post.nodes@[m]).id == x);
            }
        }
        assert forall|x: u64| post.has_node(x) implies #[trigger] post.spec_node(x)
            == pre.spec_node(x) && pre.has_node(x) by {
            let j = post.node_idx(x);
            assert(0 <= j < post.nodes@.len() && post.nodes@[j].id == x);
            let v = post.nodes@[j];
            assert(post.nodes@.contains(v));
            assert(pre.nodes@.contains(v));
            let m = choose|m: int| 0 <= m < pre.nodes@.len() && pre.nodes@[m] == v;
            let j2 = pre.node_idx(x);
            assert(0 <= j2 < pre.nodes@.len() && (#[trigger] pre.nodes@[m]).id == x);
            assert(j2 == m || pre.nodes@[j2].id != pre.nodes@[m].id);
            assert(pre.spec_node(x) == v);
        }
        assert(post.ids_bounded()) by {
            assert forall|i: int| 0 <= i < post.nodes@.len() implies (
            #[trigger] post.nodes@[i]).id < post.next_id by {
                let v = post.nodes@[i];
                assert(post.nodes@.contains(v));
                assert(pre.nodes@.contains(v));
                let m = choose|m: int| 0 <= m < pre.nodes@.len() && pre.nodes@[m] == v;
                assert((#[trigger] pre.nodes@[m]).id < pre.next_id);
            }
        }
        assert(post.ids_unique()) by {
            assert forall|i: int, j: int|
                0 <= i < post.nodes@.len() && 0 <= j < post.nodes@.len() && i != j implies (
            #[trigger] post.nodes@[i]).id != (#[trigger] post.nodes@[j]).id by {
                let vi = post.nodes@[i];
                let vj = post.nodes@[j];
                assert(post.nodes@.contains(vi) && post.nodes@.contains(vj));
                assert(pre.nodes@.contains(vi) && pre.nodes@.contains(vj));
                if vi.id == vj.id {
                    let mi = choose|m: int| 0 <= m < pre.nodes@.len() && pre.nodes@[m] == vi;
                    let mj = choose|m: int| 0 <= m < pre.nodes@.len() && pre.nodes@[m] == vj;
                    if mi != mj {
                        assert(pre.nodes@[mi].id != pre.nodes@[mj].id);
                    }
                    assert(vi == vj);
                    assert(post.nodes@[i] == post.nodes@[j]);
                }
            }
        }
        // the closure is closed under children, so no surviving edge touches it
        assert(closed_under_children(pre.edge_set(), c)) by {
            assert forall|ch: u64, pr: u64|
                c.contains(pr) && #[trigger] pre.edge_set().contains((ch, pr)) implies c.contains(
                ch,
            ) by {
                crate::reach::lemma_reaches_append(pre.edge_set(), start, pr, ch);
            }
        }
        assert(post.edges_closed()) by {
            assert forall|k: int| 0 <= k < post.edges@.len() implies post.has_node(
                (#[trigger] post.edges@[k]).0,
            ) && post.has_node(post.edges@[k].1) by {
                let e = post.edges@[k];
                assert(post.edges@.contains(e));
                assert(pre.edges@.contains(e) && epred(e));
                let m = choose|m: int| 0 <= m < pre.edges@.len() && pre.edges@[m] == e;
                assert(pre.has_node((#[trigger] pre.edges@[m]).0) && pre.has_node(
                    pre.edges@[m].1,
                ));
            }
        }
        assert(post.edges_same_workspace()) by {
            assert forall|k: int| 0 <= k < post.edges@.len() implies post.workspace_of(
                (#[trigger] post.edges@[k]).0,
            ) == post.workspace_of(post.edges@[k].1) by {
                let e = post.edges@[k];
                assert(post.edges@.contains(e));
                assert(pre.edges@.contains(e) && epred(e));
                let m = choose|m: int| 0 <= m < pre.edges@.len() && pre.edges@[m] == e;
                assert(pre.has_node((#[trigger] pre.edges@[m]).0) && pre.has_node(
                    pre.edges@[m].1,
                ));
                assert(pre.workspace_of(e.0) == pre.workspace_of(e.1));
                assert(post.has_node(e.0) && post.has_node(e.1));
            }
        }
        assert(acyclic(post.edge_set())) by {
            assert forall|e: (u64, u64)| #[trigger] post.edge_set().contains(e) implies
            pre.edge_set().contains(e) by {
                assert(pre.edges@.contains(e) && epred(e));
            }
            lemma_acyclic_subset(post.edge_set(), pre.edge_set());
        }
        // surviving nodes keep their parents exactly
        assert forall|x: u64| post.has_node(x) implies (#[trigger] post.has_parent(x)
            == pre.has_parent(x)) by {
            if pre.has_parent(x) {
                let pr = choose|pr: u64| #[trigger] pre.edge_set().contains((x, pr));
                assert(!c.contains(x));
                assert(!c.contains(pr)) by {
                    if c.contains(pr) {
                        assert(c.contains(x));
                    }
                }
                assert(epred((x, pr)));
                assert(post.edge_set().contains((x, pr)));
            }
            if post.has_parent(x) {
                let pr = choose|pr: u64| #[trigger] post.edge_set().contains((x, pr));
                assert(pre.edges@.contains((x, pr)));
                assert(pre.edge_set().contains((x, pr)));
            }
        }
        assert(post.single_root()) by {
            assert forall|a: u64, b: u64|
                #[trigger] post.is_root(a) && #[trigger] post.is_root(b) && post.workspace_of(a)
                    == post.workspace_of(b) implies a == b by {
                assert(pre.is_root(a) && pre.is_root(b));
                assert(post.spec_node(a) == pre.spec_node(a));
                assert(post.spec_node(b) == pre.spec_node(b));
            }
        }
    }

    /// DROP: remove the edge making `branch` a child of `node`. A missing
    /// edge is a successful no-op; a `branch` left parentless is removed by
    /// cascading deletion together with its downward closure.
    pub fn drop_node(&mut self, node: u64, branch: u64) -> (r: Result<(), NodeOperationError>)
        requires
            old(self).wf(),
        ensures
            final(self).wf(),
            r == Ok::<(), NodeOperationError>(()),
            !old(self).edge_set().contains((branch, node)) ==> *final(self) == *old(self),
            old(self).edge_set().contains((branch, node)) && old(self).other_parent_exists(
                branch,
                node,
            ) ==> {
                &&& final(self).nodes@ == old(self).nodes@
                &&& final(self).next_id == old(self).next_id
                &&& final(self).edges@ == old(self).edges@.filter(
                    |e: (u64, u64)| e != (branch, node),
                )
            },
            old(self).edge_set().contains((branch, node)) && !old(self).other_parent_exists(
                branch,
                node,
            ) ==> Engine::cascade_result(*old(self), *final(self), branch),
    {
        if !self.edge_exists(branch, node) {
            return Ok(());
        }
        proof {
            assert(old(self).has_node(branch)) by {
                let m = choose|m: int|
                    0 <= m < self.edges@.len() && self.edges@[m] == (branch, node);
                assert(self.has_node((#[trigger] self.edges@[m]).0));
            }
        }
        if self.has_other_parent(branch, node) {
            let ghost pre = *self;
            let ghost pred = |e: (u64, u64)| e != (branch, node);
            let new_edges = edges_without_edge(&self.edges, branch, node);
            self.edges = new_edges;
            proof {
                Engine::lemma_filtered_edges(pre, *self, pred);
                let post = *self;
                assert forall|x: u64| #[trigger]
                    post.has_parent(x) == pre.has_parent(x) by {
                    if pre.has_parent(x) {
                        if x == branch {
                            let pr = choose|pr: u64|
                                pr != node && #[trigger] pre.edge_set().contains((branch, pr));
                            assert(pred((branch, pr)));
                            assert(post.edge_set().contains((branch, pr)));
                        } else {
                            let pr = choose|pr: u64| #[trigger] pre.edge_set().contains((x, pr));
                            assert(pred((x, pr)));
                            assert(post.edge_set().contains((x, pr)));
                        }
                    }
                    if post.has_parent(x) {
                        let pr = choose|pr: u64| #[trigger] post.edge_set().contains((x, pr));
                        assert(pre.edge_set().contains((x, pr)));
                    }
                }
                assert(post.single_root()) by {
                    assert forall|a: u64, b: u64|
                        #[trigger] post.is_root(a) && #[trigger] post.is_root(b)
                            && post.workspace_of(a) == post.workspace_of(b) implies a == b by {
                        assert(pre.is_root(a) && pre.is_root(b));
                        assert(post.spec_node(a) == pre.spec_node(a));
                        assert(post.spec_node(b) == pre.spec_node(b));
                    }
                }
            }
            return Ok(());
        }
        // branch would be left parentless: remove it and its downward closure
        let ghost pre = *self;
        let cl = self.closure_from(branch);
        let new_nodes = nodes_outside(&self.nodes, &cl);
        let new_edges = edges_outside(&self.edges, &cl);
        self.nodes = new_nodes;
        self.edges = new_edges;
        proof {
            let c = crate::reach::reach_set(pre.edge_set(), branch);
            assert(forall|x: u64| cl@.contains(x) == c.contains(x));
            lemma_filter_agree(
                pre.nodes@,
                |nd: Node| !cl@.contains(nd.id),
                |nd: Node| !c.contains(nd.id),
            );
            lemma_filter_agree(
                pre.edges@,
                |e: (u64, u64)| !cl@.contains(e.0) && !cl@.contains(e.1),
                |e: (u64, u64)| !c.contains(e.0) && !c.contains(e.1),
            );
            assert(Engine::cascade_result(pre, *self, branch));
            Engine::lemma_cascade_wf(pre, *self, branch);
        }
        Ok(())
    }

    /// DELETE: remove an existing node together with its whole downward
    /// closure, and every edge touching what was removed. Refused when the
    /// node does not exist.
    pub fn delete_node(&mut self, node: u64) -> (r: Result<(), NodeOperationError>)
        requires
            old(self).wf(),
        ensures
            final(self).wf(),
            !old(self).has_node(node) ==> r == Err::<(), NodeOperationError>(
                NodeOperationError::NonexistentNode,
            ) && *final(self) == *old(self),
            old(self).has_node(node) ==> r == Ok::<(), NodeOperationError>(())
                && Engine::cascade_result(*old(self), *final(self), node),
    {
        if !self.node_exists(node) {
            return Err(NodeOperationError::NonexistentNode);
        }
        let ghost pre = *self;
        let cl = self.closure_from(node);
        let new_nodes = nodes_outside(&self.nodes, &cl);
        let new_edges = edges_outside(&self.edges, &cl);
        self.nodes = new_nodes;
        self.edges = new_edges;
        proof {
            let c = crate::reach::reach_set(pre.edge_set(), node);
            assert(forall|x: u64| cl@.contains(x) == c.contains(x));
            lemma_filter_agree(
                pre.nodes@,
                |nd: Node| !cl@.contains(nd.id),
                |nd: Node| !c.contains(nd.id),
            );
            lemma_filter_agree(
                pre.edges@,
                |e: (u64, u64)| !cl@.contains(e.0) && !cl@.contains(e.1),
                |e: (u64, u64)| !c.contains(e.0) && !c.contains(e.1),
            );
            assert(Engine::cascade_result(pre, *self, node));
            Engine::lemma_cascade_wf(pre, *self, node);
        }
        Ok(())
    }

    /// A node that does not exist has no edges, so it reaches only itself.
    proof fn lemma_fresh_only_reaches_itself(self, fresh: u64, x: u64)
        requires
            self.edges_closed(),
            !self.has_node(fresh),
            reaches(self.edge_set(), fresh, x),
        ensures
            x == fresh,
    {
        let p = choose|p: Seq<u64>|
            #![auto]
            p.len() >= 1 && p.first() == fresh && p.last() == x && crate::reach::is_child_path(
                self.edge_set(),
                p,
            );
        if p.len() >= 2 {
            assert(self.edge_set().contains((p[0int + 1], p[0])));
            assert(self.edges@.contains((p[1], fresh)));
            let k = choose|k: int|
                0 <= k < self.edges@.len() && self.edges@[k] == (p[1], fresh);
            assert(self.has_node((#[trigger] self.edges@[k]).1));
        }
    }
}

} // verus!
