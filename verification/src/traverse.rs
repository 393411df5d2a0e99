//! The graph query layer: downward closure by breadth-first search, and the
//! single upward ancestor chain.

use vstd::prelude::*;

use crate::graph::{Engine, Node};
use crate::reach::{
    closed_under_children, is_parent_path, lemma_no_dup_len_le, lemma_parent_path_no_dup,
    lemma_reach_in_closed, lemma_reaches_append, lemma_reaches_self, reaches,
};

verus! {

/// The parent of `n` on the first edge of `es` that leaves `n`, if any:
/// the deterministic pick used by the upward chain walk.
pub open spec fn first_parent(es: Seq<(u64, u64)>, n: u64) -> Option<u64>
    decreases es.len(),
{
    if es.len() == 0 {
        None
    } else if es[0].0 == n {
        Some(es[0].1)
    } else {
        first_parent(es.drop_first(), n)
    }
}

/// What `first_parent` returns is an edge of `es`; when it returns nothing,
/// `n` has no parent at all.
pub proof fn lemma_first_parent(es: Seq<(u64, u64)>, n: u64)
    ensures
        match first_parent(es, n) {
            Some(p) => es.contains((n, p)),
            None => forall|p: u64| !(#[trigger] es.contains((n, p))),
        },
    decreases es.len(),
{
    if es.len() == 0 {
        assert forall|p: u64| !(#[trigger] es.contains((n, p))) by {
            if es.contains((n, p)) {
                let k = choose|k: int| 0 <= k < es.len() && es[k] == (n, p);
            }
        }
    } else if es[0].0 == n {
        assert(es[0] == (n, es[0].1));
        assert(es.contains(es[0]));
    } else {
        lemma_first_parent(es.drop_first(), n);
        match first_parent(es, n) {
            Some(p) => {
                let k = choose|k: int|
                    0 <= k < es.drop_first().len() && es.drop_first()[k] == (n, p);
                assert(es[k + 1] == (n, p));
                assert(es.contains((n, p)));
            },
            None => {
                assert forall|p: u64| !(#[trigger] es.contains((n, p))) by {
                    if es.contains((n, p)) {
                        let k = choose|k: int| 0 <= k < es.len() && es[k] == (n, p);
                        assert(k != 0);
                        assert(es.drop_first()[k - 1] == (n, p));
                        assert(es.drop_first().contains((n, p)));
                    }
                }
            },
        }
    }
}

/// The upward chain from `n`: repeatedly follow `first_parent` until no
/// parent remains. The fuel bounds the walk; with fuel above the node count
/// it never runs out on an acyclic graph.
pub open spec fn chain_up(es: Seq<(u64, u64)>, n: u64, fuel: nat) -> Seq<u64>
    decreases fuel,
{
    if fuel == 0 {
        Seq::empty()
    } else {
        match first_parent(es, n) {
            None => Seq::empty(),
            Some(p) => seq![p] + chain_up(es, p, (fuel - 1) as nat),
        }
    }
}

impl Engine {
    /// A duplicate-free sequence of existing node identities is no longer
    /// than the node list.
    pub proof fn lemma_ids_len_bound(self, v: Seq<u64>)
        requires
            v.no_duplicates(),
            forall|k: int| 0 <= k < v.len() ==> self.has_node(#[trigger] v[k]),
        ensures
            v.len() <= self.nodes@.len(),
    {
        let ids = self.nodes@.map_values(|n: Node| n.id);
        assert forall|k: int| 0 <= k < v.len() implies ids.to_set().contains(#[trigger] v[k]) by {
            let i = choose|i: int|
                0 <= i < self.nodes@.len() && (#[trigger] self.nodes@[i]).id == v[k];
            assert(ids[i] == v[k]);
            assert(ids.contains(v[k]));
        }
        broadcast use vstd::seq_lib::seq_to_set_is_finite;

        lemma_no_dup_len_le(v, ids.to_set());
        ids.lemma_cardinality_of_set();
    }

    /// The downward closure of `start`: every node reachable from `start`
    /// along child edges, each exactly once.
    pub fn closure_from(&self, start: u64) -> (v: Vec<u64>)
        requires
            self.wf(),
            self.has_node(start),
        ensures
            v@.no_duplicates(),
            forall|x: u64| #[trigger] v@.contains(x) ==> reaches(self.edge_set(), start, x),
            forall|x: u64| #[trigger] reaches(self.edge_set(), start, x) ==> v@.contains(x),
            forall|k: int| 0 <= k < v@.len() ==> self.has_node(#[trigger] v@[k]),
    {
        let mut v: Vec<u64> = Vec::new();
        v.push(start);
        proof {
            lemma_reaches_self(self.edge_set(), start);
            assert(v@[0] == start);
            assert(v@.contains(start));
        }
        let mut head: usize = 0;
        while head < v.len()
            invariant
                self.wf(),
                self.has_node(start),
                head <= v@.len(),
                v@.len() <= self.nodes@.len(),
                v@.no_duplicates(),
                v@.contains(start),
                forall|k: int| 0 <= k < v@.len() ==> self.has_node(#[trigger] v@[k]),
                forall|k: int|
                    0 <= k < v@.len() ==> reaches(self.edge_set(), start, #[trigger] v@[k]),
                forall|i: int, c: u64|
                    0 <= i < head && #[trigger] self.edge_set().contains((c, v@[i]))
                        ==> v@.contains(c),
            decreases self.nodes@.len() - head,
        {
            let cur = v[head];
            let mut j: usize = 0;
            while j < self.edges.len()
                invariant
                    self.wf(),
                    self.has_node(start),
                    head < v@.len(),
                    v@.len() <= self.nodes@.len(),
                    v@.no_duplicates(),
                    v@.contains(start),
                    cur == v@[head as int],
                    j <= self.edges@.len(),
                    forall|k: int| 0 <= k < v@.len() ==> self.has_node(#[trigger] v@[k]),
                    forall|k: int|
                        0 <= k < v@.len() ==> reaches(self.edge_set(), start, #[trigger] v@[k]),
                    forall|i: int, c: u64|
                        0 <= i < head && #[trigger] self.edge_set().contains((c, v@[i]))
                            ==> v@.contains(c),
                    forall|m: int|
                        0 <= m < j && (#[trigger] self.edges@[m]).1 == cur ==> v@.contains(
                            self.edges@[m].0,
                        ),
                decreases self.edges@.len() - j,
            {
                let (c, pr) = self.edges[j];
                let ghost old_v = v@;
                if pr == cur && !crate::graph::ids_contain(&v, c) {
                    proof {
                        assert(self.edges@.contains((c, cur)));
                        assert(self.edge_set().contains((c, cur)));
                        lemma_reaches_append(self.edge_set(), start, cur, c);
                        assert(self.has_node(c)) by {
                            assert((#[trigger] self.edges@[j as int]).0 == c);
                        }
                    }
                    v.push(c);
                    proof {
                        assert(v@ == old_v.push(c));
                        assert(forall|k: int| 0 <= k < old_v.len() ==> v@[k] == old_v[k]);
                        assert forall|k: int| 0 <= k < v@.len() implies self.has_node(
                            #[trigger] v@[k],
                        ) by {
                            if k < v@.len() - 1 {
                                assert(v@[k] == old_v[k]);
                            }
                        }
                        assert(v@.no_duplicates());
                        assert(v@.contains(start)) by {
                            let k = choose|k: int| 0 <= k < old_v.len() && old_v[k] == start;
                            assert(v@[k] == start);
                        }
                        self.lemma_ids_len_bound(v@);
                        assert forall|i: int, ch: u64|
                            0 <= i < head && #[trigger] self.edge_set().contains(
                                (ch, v@[i]),
                            ) implies v@.contains(ch) by {
                            assert(v@[i] == old_v[i]);
                            assert(old_v.contains(ch));
                            let k = choose|k: int| 0 <= k < old_v.len() && old_v[k] == ch;
                            assert(v@[k] == ch);
                        }
                        assert forall|m: int|
                            0 <= m < j + 1 && (#[trigger] self.edges@[m]).1 == cur implies
                            v@.contains(self.edges@[m].0) by {
                            if m < j {
                                assert(old_v.contains(self.edges@[m].0));
                                let k = choose|k: int|
                                    0 <= k < old_v.len() && old_v[k] == self.edges@[m].0;
                                assert(v@[k] == self.edges@[m].0);
                            } else {
                                assert(v@[v@.len() - 1] == c);
                            }
                        }
                        assert(cur == v@[head as int]);
                    }
                } else {
                    proof {
                        assert forall|m: int|
                            0 <= m < j + 1 && (#[trigger] self.edges@[m]).1 == cur implies
                            v@.contains(self.edges@[m].0) by {
                            if m == j && self.edges@[m].1 == cur {
                                assert(v@.contains(c));
                            }
                        }
                    }
                }
                j = j + 1;
            }
            proof {
                assert forall|i: int, c: u64|
                    0 <= i < head + 1 && #[trigger] self.edge_set().contains(
                        (c, v@[i]),
                    ) implies v@.contains(c) by {
                    if i == head {
                        assert(self.edges@.contains((c, cur)));
                        let m = choose|m: int|
                            0 <= m < self.edges@.len() && self.edges@[m] == (c, cur);
                        assert((#[trigger] self.edges@[m]).1 == cur);
                    }
                }
            }
            head = head + 1;
        }
        proof {
            assert(closed_under_children(self.edge_set(), v@.to_set())) by {
                assert forall|c: u64, pr: u64|
                    v@.to_set().contains(pr) && #[trigger] self.edge_set().contains(
                        (c, pr),
                    ) implies v@.to_set().contains(c) by {
                    let i = choose|i: int| 0 <= i < v@.len() && v@[i] == pr;
                    assert(self.edge_set().contains((c, v@[i])));
                    assert(v@.contains(c));
                }
            }
            assert forall|x: u64| #[trigger] reaches(self.edge_set(), start, x) implies
            v@.contains(x) by {
                lemma_reach_in_closed(self.edge_set(), v@.to_set(), start, x);
            }
            assert forall|x: u64| #[trigger] v@.contains(x) implies reaches(
                self.edge_set(),
                start,
                x,
            ) by {
                let k = choose|k: int| 0 <= k < v@.len() && v@[k] == x;
                assert(reaches(self.edge_set(), start, v@[k]));
            }
        }
        v
    }

    /// Whether `candidate` is an ancestor of `of`: `of` lies in the downward
    /// closure of `candidate` (every node counts as its own ancestor here,
    /// so that linking a node under itself is refused too).
    pub fn is_ancestor(&self, candidate: u64, of: u64) -> (r: bool)
        requires
            self.wf(),
            self.has_node(candidate),
        ensures
            r == reaches(self.edge_set(), candidate, of),
    {
        let below = self.closure_from(candidate);
        crate::graph::ids_contain(&below, of)
    }

    /// The parent on the first edge leaving `n`, if any.
    pub fn first_parent_exec(&self, n: u64) -> (r: Option<u64>)
        ensures
            r == first_parent(self.edges@, n),
    {
        let mut k: usize = 0;
        proof {
            assert(self.edges@.skip(0) =~= self.edges@);
        }
        while k < self.edges.len()
            invariant
                k <= self.edges@.len(),
                first_parent(self.edges@, n) == first_parent(self.edges@.skip(k as int), n),
            decreases self.edges@.len() - k,
        {
            proof {
                assert(self.edges@.skip(k as int).len() > 0);
                assert(self.edges@.skip(k as int)[0] == self.edges@[k as int]);
                assert(self.edges@.skip(k as int).drop_first() =~= self.edges@.skip(k as int + 1));
            }
            if self.edges[k].0 == n {
                return Some(self.edges[k].1);
            }
            k = k + 1;
        }
        proof {
            assert(self.edges@.skip(k as int).len() == 0);
        }
        None
    }

    /// The upward ancestor chain of `node`, as `chain_up` describes it.
    pub open spec fn ancestor_chain(self, node: u64) -> Seq<u64> {
        chain_up(self.edges@, node, self.nodes@.len() + 1)
    }

    /// Walk the single upward chain from `node`: follow one parent at each
    /// step until a parentless node is reached.
    pub fn ancestor_chain_exec(&self, node: u64) -> (chain: Vec<u64>)
        requires
            self.wf(),
            self.has_node(node),
        ensures
            chain@ == self.ancestor_chain(node),
            forall|k: int| 0 <= k < chain@.len() ==> self.has_node(#[trigger] chain@[k]),
            (seq![node] + chain@).no_duplicates(),
    {
        let ghost fuel: nat = self.nodes@.len() + 1;
        let mut chain: Vec<u64> = Vec::new();
        let mut current: u64 = node;
        let mut next = self.first_parent_exec(node);
        proof {
            assert(seq![node] + chain@ =~= seq![node]);
            assert(is_parent_path(self.edge_set(), seq![node]));
            assert((seq![node] + chain@).last() == node);
            assert(chain_up(self.edges@, node, fuel) == chain@ + chain_up(
                self.edges@,
                current,
                (fuel - chain@.len()) as nat,
            )) by {
                assert(chain@ + chain_up(self.edges@, current, fuel) =~= chain_up(
                    self.edges@,
                    current,
                    fuel,
                ));
            }
        }
        while next.is_some()
            invariant
                self.wf(),
                self.has_node(node),
                self.has_node(current),
                next == first_parent(self.edges@, current),
                is_parent_path(self.edge_set(), seq![node] + chain@),
                (seq![node] + chain@).last() == current,
                (seq![node] + chain@).no_duplicates(),
                chain@.len() + 1 <= self.nodes@.len(),
                forall|k: int| 0 <= k < chain@.len() ==> self.has_node(#[trigger] chain@[k]),
                chain_up(self.edges@, node, fuel) == chain@ + chain_up(
                    self.edges@,
                    current,
                    (fuel - chain@.len()) as nat,
                ),
                fuel == self.nodes@.len() + 1,
            decreases self.nodes@.len() - chain@.len(),
        {
            let p = next.unwrap();
            proof {
                lemma_first_parent(self.edges@, current);
                assert(self.edges@.contains((current, p)));
                assert(self.edge_set().contains((current, p)));
                assert(self.has_node(p)) by {
                    let m = choose|m: int|
                        0 <= m < self.edges@.len() && self.edges@[m] == (current, p);
                    assert((#[trigger] self.edges@[m]).1 == p);
                }
                let q = seq![node] + chain@;
                let q2 = seq![node] + chain@.push(p);
                assert(q2 =~= q.push(p));
                assert(is_parent_path(self.edge_set(), q2)) by {
                    assert forall|i: int| 0 <= i < q2.len() - 1 implies #[trigger]
                        self.edge_set().contains((q2[i], q2[i + 1])) by {
                        if i < q.len() - 1 {
                            assert(q2[i] == q[i] && q2[i + 1] == q[i + 1]);
                            assert(self.edge_set().contains((q[i], q[i + 1])));
                        } else {
                            assert(q2[i] == q.last() && q2[i + 1] == p);
                        }
                    }
                }
                lemma_parent_path_no_dup(self.edge_set(), q2);
                self.lemma_ids_len_bound(q2);
                // the fuel never runs out: the chain so far is shorter than
                // the node count
                assert(q2.len() <= self.nodes@.len());
                let rem = (fuel - chain@.len()) as nat;
                assert(rem >= 2);
                assert(chain_up(self.edges@, current, rem) == seq![p] + chain_up(
                    self.edges@,
                    p,
                    (rem - 1) as nat,
                ));
                assert(chain@ + chain_up(self.edges@, current, rem) =~= chain@.push(p) + chain_up(
                    self.edges@,
                    p,
                    (rem - 1) as nat,
                ));
                assert((q2).last() == p);
            }
            chain.push(p);
            current = p;
            next = self.first_parent_exec(current);
        }
        proof {
            let rem = (fuel - chain@.len()) as nat;
            assert(chain_up(self.edges@, current, rem) == Seq::<u64>::empty());
            assert(chain@ + Seq::<u64>::empty() =~= chain@);
        }
        chain
    }
}

} // verus!
