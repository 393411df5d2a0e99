//! The structural guarantees of a well-formed engine, stated on their own.
//! Every operation's contract ends in `wf`, so each of these holds after any
//! sequence of operations.

use vstd::prelude::*;

use crate::graph::Engine;
use crate::reach::{is_child_path, lemma_acyclic_no_cycle, reach_set, reaches};

verus! {

/// Acyclicity: no node is ever reachable from itself through one or more
/// edges; every non-trivial downward walk ends somewhere else than it
/// started.
pub proof fn lemma_no_self_ancestry(e: Engine, p: Seq<u64>)
    requires
        e.wf(),
        is_child_path(e.edge_set(), p),
        p.len() >= 2,
    ensures
        p.first() != p.last(),
{
    lemma_acyclic_no_cycle(e.edge_set(), p);
}

/// Acyclicity, edge form: the child on an edge never reaches its own parent
/// downward, so no edge closes a cycle.
pub proof fn lemma_no_cycle_through_edge(e: Engine, child: u64, parent: u64)
    requires
        e.wf(),
        e.edge_set().contains((child, parent)),
    ensures
        !reaches(e.edge_set(), child, parent),
{
}

/// Workspace isolation: an edge only ever connects two existing nodes of one
/// workspace.
pub proof fn lemma_workspace_isolation(e: Engine, child: u64, parent: u64)
    requires
        e.wf(),
        e.edge_set().contains((child, parent)),
    ensures
        e.has_node(child),
        e.has_node(parent),
        e.workspace_of(child) == e.workspace_of(parent),
{
    assert(e.edges@.contains((child, parent)));
    let m = choose|m: int| 0 <= m < e.edges@.len() && e.edges@[m] == (child, parent);
    assert(e.has_node((#[trigger] e.edges@[m]).0));
    assert(e.workspace_of(e.edges@[m].0) == e.workspace_of(e.edges@[m].1));
}

/// Single root and no orphan but the root: a parentless node is the one root
/// of its workspace, so two parentless nodes of one workspace coincide.
pub proof fn lemma_parentless_is_the_root(e: Engine, n: u64, m: u64)
    requires
        e.wf(),
        e.has_node(n),
        !e.has_parent(n),
        e.has_node(m),
        !e.has_parent(m),
        e.workspace_of(n) == e.workspace_of(m),
    ensures
        e.is_root(n),
        n == m,
{
    assert(e.is_root(n) && e.is_root(m));
}

/// Orphan sweep: cascading deletion removes exactly the downward closure of
/// its starting node, and every surviving node keeps its parents exactly, so
/// the sweep never manufactures a new orphan elsewhere.
pub proof fn lemma_orphan_sweep(pre: Engine, post: Engine, start: u64)
    requires
        pre.wf(),
        pre.has_node(start),
        Engine::cascade_result(pre, post, start),
    ensures
        post.wf(),
        forall|x: u64|
            #[trigger] post.has_node(x) <==> pre.has_node(x) && !reach_set(
                pre.edge_set(),
                start,
            ).contains(x),
        forall|x: u64|
            post.has_node(x) ==> (#[trigger] post.has_parent(x) <==> pre.has_parent(x)),
{
    Engine::lemma_cascade_wf(pre, post, start);
}

/// A workspace whose root was just created has a root, so the contract of
/// create refuses every further create on it until that root is gone.
pub proof fn lemma_create_makes_root(pre: Engine, post: Engine, workspace: u64, name: String,
    summary: String)
    requires
        pre.wf(),
        post.nodes@ == pre.nodes@.push(Engine::fresh_node(pre.next_id, workspace, name, summary)),
        post.edges@ == pre.edges@,
        post.next_id == pre.next_id + 1,
    ensures
        post.has_root(workspace),
{
    let id = pre.next_id;
    let n = pre.nodes@.len() as int;
    assert(post.has_node(id)) by {
        assert((#[trigger] post.nodes@[n]).id == id);
    }
    assert(!post.has_parent(id)) by {
        if post.has_parent(id) {
            let pr = choose|pr: u64| #[trigger] post.edge_set().contains((id, pr));
            assert(pre.edges@.contains((id, pr)));
            let m = choose|m: int| 0 <= m < pre.edges@.len() && pre.edges@[m] == (id, pr);
            assert(pre.has_node((#[trigger] pre.edges@[m]).0));
            let i = choose|i: int|
                0 <= i < pre.nodes@.len() && (#[trigger] pre.nodes@[i]).id == id;
            assert(pre.nodes@[i].id < pre.next_id);
        }
    }
    assert(post.workspace_of(id) == workspace) by {
        let j = post.node_idx(id);
        assert(0 <= j < post.nodes@.len() && post.nodes@[j].id == id);
        if j != n {
            assert(j < n);
            assert(pre.nodes@[j].id < pre.next_id);
        }
        assert(post.nodes@[n] == Engine::fresh_node(pre.next_id, workspace, name, summary));
    }
    assert(post.is_root(id));
    assert(post.has_root(workspace));
}

} // verus!
