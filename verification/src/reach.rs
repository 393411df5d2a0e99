//! Reachability over a set of child-to-parent edges.
//!
//! An edge is a pair `(child, parent)`. Traversal goes *downward*: a step
//! from `a` to `b` is possible when `(b, a)` is an edge, that is, when `b`
//! is a child of `a`. `reaches(es, a, b)` says that `b` lies in the downward
//! closure of `a` (in zero or more steps), and `acyclic(es)` says that no
//! edge closes a downward cycle.

use vstd::prelude::*;

verus! {

/// A downward path: consecutive elements are linked by a child edge,
/// `p[i + 1]` being a child of `p[i]`.
pub open spec fn is_child_path(es: Set<(u64, u64)>, p: Seq<u64>) -> bool {
    forall|i: int| 0 <= i < p.len() - 1 ==> #[trigger] es.contains((p[i + 1], p[i]))
}

/// An upward path: consecutive elements are linked by a parent edge,
/// `q[i + 1]` being a parent of `q[i]`.
pub open spec fn is_parent_path(es: Set<(u64, u64)>, q: Seq<u64>) -> bool {
    forall|i: int| 0 <= i < q.len() - 1 ==> #[trigger] es.contains((q[i], q[i + 1]))
}

/// `b` is in the downward closure of `a` (every node reaches itself).
pub open spec fn reaches(es: Set<(u64, u64)>, a: u64, b: u64) -> bool {
    exists|p: Seq<u64>|
        #![auto]
        p.len() >= 1 && p.first() == a && p.last() == b && is_child_path(es, p)
}

/// The downward closure of `a`.
pub open spec fn reach_set(es: Set<(u64, u64)>, a: u64) -> Set<u64> {
    Set::new(|b: u64| reaches(es, a, b))
}

/// No edge closes a cycle: no child of a node reaches that node downward.
/// This is equivalent to the absence of non-trivial downward cycles
/// (`lemma_acyclic_no_cycle`).
pub open spec fn acyclic(es: Set<(u64, u64)>) -> bool {
    forall|c: u64, pr: u64| #[trigger] es.contains((c, pr)) ==> !reaches(es, c, pr)
}

/// A node set closed under taking children: no edge leaves it downward.
pub open spec fn closed_under_children(es: Set<(u64, u64)>, s: Set<u64>) -> bool {
    forall|c: u64, pr: u64| s.contains(pr) && #[trigger] es.contains((c, pr)) ==> s.contains(c)
}

/// Every node reaches itself.
pub proof fn lemma_reaches_self(es: Set<(u64, u64)>, a: u64)
    ensures
        reaches(es, a, a),
{
    let p: Seq<u64> = seq![a];
    assert(p.len() >= 1 && p.first() == a && p.last() == a && is_child_path(es, p));
}

/// A single edge gives a one-step downward path.
pub proof fn lemma_reaches_step(es: Set<(u64, u64)>, a: u64, b: u64)
    requires
        es.contains((b, a)),
    ensures
        reaches(es, a, b),
{
    let p: Seq<u64> = seq![a, b];
    assert(p[0int + 1] == b && p[0] == a);
    assert(is_child_path(es, p));
    assert(p.len() >= 1 && p.first() == a && p.last() == b);
}

/// Reachability is transitive.
pub proof fn lemma_reaches_trans(es: Set<(u64, u64)>, a: u64, b: u64, c: u64)
    requires
        reaches(es, a, b),
        reaches(es, b, c),
    ensures
        reaches(es, a, c),
{
    let p = choose|p: Seq<u64>|
        #![auto]
        p.len() >= 1 && p.first() == a && p.last() == b && is_child_path(es, p);
    let q = choose|q: Seq<u64>|
        #![auto]
        q.len() >= 1 && q.first() == b && q.last() == c && is_child_path(es, q);
    let r = p + q.drop_first();
    assert(r.len() == p.len() + q.len() - 1);
    assert(r.first() == a);
    assert(r.last() == c) by {
        if q.len() == 1 {
            assert(r =~= p);
        } else {
            assert(r.last() == q.drop_first().last());
        }
    }
    assert forall|i: int| 0 <= i < r.len() - 1 implies #[trigger] es.contains((r[i + 1], r[i])) by {
        if i < p.len() - 1 {
            assert(r[i] == p[i] && r[i + 1] == p[i + 1]);
            assert(es.contains((p[i + 1], p[i])));
        } else if i == p.len() - 1 {
            // the junction: r[i] == p.last() == b == q.first()
            assert(r[i] == p[i]);
            assert(r[i + 1] == q.drop_first()[i + 1 - p.len()]);
            assert(r[i + 1] == q[1]);
            assert(es.contains((q[0int + 1], q[0])));
        } else {
            let j = i - p.len();
            assert(r[i] == q.drop_first()[j] && r[i + 1] == q.drop_first()[j + 1]);
            assert(r[i] == q[j + 1] && r[i + 1] == q[j + 2]);
            assert(es.contains((q[j + 1 + 1], q[j + 1])));
        }
    }
    assert(r.len() >= 1 && r.first() == a && r.last() == c && is_child_path(es, r));
}

/// Prepend a step: if `x` is a child of `a` and `x` reaches `b`, then `a`
/// reaches `b`.
pub proof fn lemma_reaches_prepend(es: Set<(u64, u64)>, a: u64, x: u64, b: u64)
    requires
        es.contains((x, a)),
        reaches(es, x, b),
    ensures
        reaches(es, a, b),
{
    lemma_reaches_step(es, a, x);
    lemma_reaches_trans(es, a, x, b);
}

/// Append a step: if `a` reaches `x` and `y` is a child of `x`, then `a`
/// reaches `y`.
pub proof fn lemma_reaches_append(es: Set<(u64, u64)>, a: u64, x: u64, y: u64)
    requires
        reaches(es, a, x),
        es.contains((y, x)),
    ensures
        reaches(es, a, y),
{
    lemma_reaches_step(es, x, y);
    lemma_reaches_trans(es, a, x, y);
}

/// Reachability is monotone in the edge set.
pub proof fn lemma_reaches_mono(es1: Set<(u64, u64)>, es2: Set<(u64, u64)>, a: u64, b: u64)
    requires
        es1.subset_of(es2),
        reaches(es1, a, b),
    ensures
        reaches(es2, a, b),
{
    let p = choose|p: Seq<u64>|
        #![auto]
        p.len() >= 1 && p.first() == a && p.last() == b && is_child_path(es1, p);
    assert forall|i: int| 0 <= i < p.len() - 1 implies #[trigger] es2.contains((p[i + 1], p[i])) by {
        assert(es1.contains((p[i + 1], p[i])));
    }
    assert(p.len() >= 1 && p.first() == a && p.last() == b && is_child_path(es2, p));
}

/// Removing edges cannot introduce a cycle.
pub proof fn lemma_acyclic_subset(es1: Set<(u64, u64)>, es2: Set<(u64, u64)>)
    requires
        es1.subset_of(es2),
        acyclic(es2),
    ensures
        acyclic(es1),
{
    assert forall|c: u64, pr: u64| #[trigger] es1.contains((c, pr)) implies !reaches(es1, c, pr) by {
        if reaches(es1, c, pr) {
            lemma_reaches_mono(es1, es2, c, pr);
        }
    }
}

/// A path in `es + {(c, pr)}` either avoids the new edge entirely, or can be
/// split at a use of it.
proof fn lemma_path_insert(es: Set<(u64, u64)>, c: u64, pr: u64, p: Seq<u64>)
    requires
        p.len() >= 1,
        is_child_path(es.insert((c, pr)), p),
    ensures
        reaches(es, p.first(), p.last()) || (reaches(es, p.first(), pr) && reaches(
            es,
            c,
            p.last(),
        )),
    decreases p.len(),
{
    if p.len() == 1 {
        lemma_reaches_self(es, p.first());
    } else {
        let rest = p.drop_first();
        assert forall|i: int| 0 <= i < rest.len() - 1 implies #[trigger] es.insert(
            (c, pr),
        ).contains((rest[i + 1], rest[i])) by {
            assert(rest[i] == p[i + 1] && rest[i + 1] == p[i + 2]);
            assert(es.insert((c, pr)).contains((p[i + 1 + 1], p[i + 1])));
        }
        lemma_path_insert(es, c, pr, rest);
        assert(es.insert((c, pr)).contains((p[0int + 1], p[0])));
        let step = (p[1], p[0]);
        if step == (c, pr) {
            // the first step uses the new edge: p[0] == pr, p[1] == c
            lemma_reaches_self(es, pr);
            if reaches(es, rest.first(), rest.last()) {
                assert(reaches(es, c, p.last()));
            } else {
                assert(reaches(es, c, p.last())) by {
                    lemma_reaches_trans(es, c, pr, p.last());
                }
            }
        } else {
            assert(es.contains((p[1], p[0])));
            if reaches(es, rest.first(), rest.last()) {
                lemma_reaches_prepend(es, p[0], p[1], p.last());
            } else {
                lemma_reaches_prepend(es, p[0], p[1], pr);
            }
        }
    }
}

/// Decomposition of reachability after inserting the edge `(c, pr)`.
pub proof fn lemma_reaches_insert(es: Set<(u64, u64)>, c: u64, pr: u64, a: u64, b: u64)
    requires
        reaches(es.insert((c, pr)), a, b),
    ensures
        reaches(es, a, b) || (reaches(es, a, pr) && reaches(es, c, b)),
{
    let p = choose|p: Seq<u64>|
        #![auto]
        p.len() >= 1 && p.first() == a && p.last() == b && is_child_path(es.insert((c, pr)), p);
    lemma_path_insert(es, c, pr, p);
}

/// Inserting an edge whose parent endpoint is not downward-reachable from its
/// child endpoint keeps the graph acyclic.
pub proof fn lemma_acyclic_insert(es: Set<(u64, u64)>, c: u64, pr: u64)
    requires
        acyclic(es),
        !reaches(es, c, pr),
    ensures
        acyclic(es.insert((c, pr))),
{
    let es2 = es.insert((c, pr));
    assert forall|c2: u64, pr2: u64| #[trigger] es2.contains((c2, pr2)) implies !reaches(
        es2,
        c2,
        pr2,
    ) by {
        if reaches(es2, c2, pr2) {
            lemma_reaches_insert(es, c, pr, c2, pr2);
            if reaches(es, c2, pr2) {
                assert((c2, pr2) != (c, pr));
                assert(es.contains((c2, pr2)));
                assert(false);
            } else {
                // reaches(es, c2, pr) && reaches(es, c, pr2)
                if (c2, pr2) == (c, pr) {
                    assert(false);
                } else {
                    assert(es.contains((c2, pr2)));
                    lemma_reaches_append(es, c, pr2, c2);
                    lemma_reaches_trans(es, c, c2, pr);
                    assert(false);
                }
            }
        }
    }
}

/// There are no non-trivial downward cycles in an acyclic edge set: any
/// downward path of two or more nodes ends somewhere else than it started.
pub proof fn lemma_acyclic_no_cycle(es: Set<(u64, u64)>, p: Seq<u64>)
    requires
        acyclic(es),
        is_child_path(es, p),
        p.len() >= 2,
    ensures
        p.first() != p.last(),
{
    let rest = p.drop_first();
    assert forall|i: int| 0 <= i < rest.len() - 1 implies #[trigger] es.contains(
        (rest[i + 1], rest[i]),
    ) by {
        assert(rest[i] == p[i + 1] && rest[i + 1] == p[i + 2]);
        assert(es.contains((p[i + 1 + 1], p[i + 1])));
    }
    assert(es.contains((p[0int + 1], p[0])));
    if p.first() == p.last() {
        assert(rest.len() >= 1 && rest.first() == p[1] && rest.last() == p[0] && is_child_path(
            es,
            rest,
        ));
        assert(reaches(es, p[1], p[0]));
        assert(!reaches(es, p[1], p[0]));
    }
}

/// A downward path starting inside a child-closed set stays inside it.
proof fn lemma_path_in_closed(es: Set<(u64, u64)>, s: Set<u64>, p: Seq<u64>)
    requires
        closed_under_children(es, s),
        is_child_path(es, p),
        p.len() >= 1,
        s.contains(p.first()),
    ensures
        s.contains(p.last()),
    decreases p.len(),
{
    if p.len() > 1 {
        let rest = p.drop_first();
        assert(es.contains((p[0int + 1], p[0])));
        assert(s.contains(p[1]));
        assert forall|i: int| 0 <= i < rest.len() - 1 implies #[trigger] es.contains(
            (rest[i + 1], rest[i]),
        ) by {
            assert(rest[i] == p[i + 1] && rest[i + 1] == p[i + 2]);
            assert(es.contains((p[i + 1 + 1], p[i + 1])));
        }
        lemma_path_in_closed(es, s, rest);
    }
}

/// Everything reachable from a member of a child-closed set is a member.
pub proof fn lemma_reach_in_closed(es: Set<(u64, u64)>, s: Set<u64>, a: u64, b: u64)
    requires
        closed_under_children(es, s),
        s.contains(a),
        reaches(es, a, b),
    ensures
        s.contains(b),
{
    let p = choose|p: Seq<u64>|
        #![auto]
        p.len() >= 1 && p.first() == a && p.last() == b && is_child_path(es, p);
    lemma_path_in_closed(es, s, p);
}

/// In an acyclic edge set, an upward path never revisits a node.
pub proof fn lemma_parent_path_no_dup(es: Set<(u64, u64)>, q: Seq<u64>)
    requires
        acyclic(es),
        is_parent_path(es, q),
    ensures
        q.no_duplicates(),
{
    if !q.no_duplicates() {
        let (i, j) = choose|i: int, j: int|
            0 <= i < q.len() && 0 <= j < q.len() && i != j && q[i] == q[j];
        let (lo, hi) = if i < j {
            (i, j)
        } else {
            (j, i)
        };
        let sub = q.subrange(lo, hi + 1);
        // sub, reversed, is a non-trivial downward cycle
        let r = sub.reverse();
        assert(r.len() == hi + 1 - lo >= 2);
        assert forall|k: int| 0 <= k < r.len() - 1 implies #[trigger] es.contains(
            (r[k + 1], r[k]),
        ) by {
            assert(r[k] == sub[sub.len() - 1 - k]);
            assert(r[k + 1] == sub[sub.len() - 2 - k]);
            let m = sub.len() - 2 - k;
            assert(sub[m] == q[lo + m] && sub[m + 1] == q[lo + m + 1]);
            assert(es.contains((q[lo + m], q[lo + m + 1])));
        }
        assert(r.first() == sub.last() && r.last() == sub.first());
        assert(r.first() == q[hi] && r.last() == q[lo]);
        lemma_acyclic_no_cycle(es, r);
    }
}

/// A duplicate-free sequence drawn from a finite set is no longer than the
/// set's cardinality.
pub proof fn lemma_no_dup_len_le(q: Seq<u64>, s: Set<u64>)
    requires
        q.no_duplicates(),
        s.finite(),
        forall|k: int| 0 <= k < q.len() ==> s.contains(#[trigger] q[k]),
    ensures
        q.len() <= s.len(),
{
    q.unique_seq_to_set();
    assert(q.to_set().subset_of(s)) by {
        assert forall|x: u64| q.to_set().contains(x) implies s.contains(x) by {
            assert(q.contains(x));
            let k = choose|k: int| 0 <= k < q.len() && q[k] == x;
            assert(s.contains(q[k]));
        }
    }
    vstd::set_lib::lemma_len_subset(q.to_set(), s);
}

} // verus!
