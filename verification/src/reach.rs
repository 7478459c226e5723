//! Which nodes of a graph can be reached from its roots, what they weigh
//! together, and why a depth-first traversal finds exactly them.

use crate::graph::GraphView;
use crate::graph_ops::discover;
use vstd::prelude::*;

verus! {

/// The node indices below `k`.
pub open spec fn below(k: nat) -> Set<u32> {
    Set::new(|a: u32| a < k)
}

impl GraphView {
    /// There is an edge from the item `i` of `p` to the next.
    pub open spec fn is_step(self, p: Seq<u32>, i: int) -> bool {
        self.has_edge(p[i], p[i + 1])
    }

    /// `p` is a walk: a list of nodes, each with an edge to the next.
    pub open spec fn is_walk(self, p: Seq<u32>) -> bool {
        &&& p.len() > 0
        &&& forall|i: int| 0 <= i < p.len() - 1 ==> #[trigger] self.is_step(p, i)
    }

    /// `p` is a walk from one of `starts` to `b`.
    pub open spec fn is_walk_to(self, starts: Seq<u32>, p: Seq<u32>, b: u32) -> bool {
        self.is_walk(p) && starts.contains(p[0]) && p.last() == b
    }

    /// A walk leads from one of `starts` to `b`.
    pub open spec fn reaches(self, starts: Seq<u32>, b: u32) -> bool {
        exists|p: Seq<u32>| #[trigger] self.is_walk_to(starts, p, b)
    }

    /// The nodes that a walk from one of `starts` leads to.
    pub open spec fn reachable(self, starts: Seq<u32>) -> Set<u32> {
        Set::new(|b: u32| self.reaches(starts, b))
    }

    /// The sum of the sizes of the nodes below `k` that are in `s`.
    pub open spec fn size_below(self, s: Set<u32>, k: nat) -> nat
        decreases k,
    {
        if k == 0 {
            0
        } else if s.contains((k - 1) as u32) {
            self.size_below(s, (k - 1) as nat) + self.nodes[k - 1].size as nat
        } else {
            self.size_below(s, (k - 1) as nat)
        }
    }

    /// The sum of the sizes of the nodes in `s`, each counted once.
    pub open spec fn size_of(self, s: Set<u32>) -> nat {
        self.size_below(s, self.nodes.len())
    }

    /// Each of `starts` is reached.
    pub proof fn lemma_reaches_start(self, starts: Seq<u32>, a: u32)
        requires
            starts.contains(a),
        ensures
            self.reaches(starts, a),
    {
        assert(self.is_walk_to(starts, seq![a], a));
    }

    /// What has an edge from a node that is reached is reached.
    pub proof fn lemma_reaches_step(self, starts: Seq<u32>, a: u32, b: u32)
        requires
            self.reaches(starts, a),
            self.has_edge(a, b),
        ensures
            self.reaches(starts, b),
    {
        let p = choose|p: Seq<u32>| #[trigger] self.is_walk_to(starts, p, a);
        let q = p.push(b);
        assert forall|i: int| 0 <= i < q.len() - 1 implies #[trigger] self.is_step(q, i) by {
            if i < p.len() - 1 {
                assert(self.is_step(p, i));
            }
        }
        assert(self.is_walk_to(starts, q, b));
    }

    /// A set that holds `starts` and, with a node, all that the node has an
    /// edge to, holds the end of every walk from one of `starts`.
    proof fn lemma_walk_stays(self, starts: Seq<u32>, closed: Set<u32>, p: Seq<u32>)
        requires
            self.is_walk(p),
            starts.contains(p[0]),
            forall|a: u32| starts.contains(a) ==> closed.contains(a),
            forall|a: u32, b: u32|
                closed.contains(a) && #[trigger] self.has_edge(a, b) ==> closed.contains(b),
        ensures
            closed.contains(p.last()),
        decreases p.len(),
    {
        if p.len() > 1 {
            let q = p.drop_last();
            assert forall|i: int| 0 <= i < q.len() - 1 implies #[trigger] self.is_step(q, i) by {
                assert(self.is_step(p, i));
            }
            self.lemma_walk_stays(starts, closed, q);
            assert(self.is_step(p, p.len() - 2));
        }
    }

    /// A set that holds `starts` and, with a node, all that the node has an
    /// edge to, holds every node that is reached.
    pub proof fn lemma_closed_holds_reachable(self, starts: Seq<u32>, closed: Set<u32>)
        requires
            forall|a: u32| starts.contains(a) ==> closed.contains(a),
            forall|a: u32, b: u32|
                closed.contains(a) && #[trigger] self.has_edge(a, b) ==> closed.contains(b),
        ensures
            self.reachable(starts).subset_of(closed),
    {
        assert forall|b: u32| self.reachable(starts).contains(b) implies closed.contains(b) by {
            let p = choose|p: Seq<u32>| #[trigger] self.is_walk_to(starts, p, b);
            self.lemma_walk_stays(starts, closed, p);
        }
    }

    /// No nodes weigh nothing.
    pub proof fn lemma_size_empty(self, k: nat)
        ensures
            self.size_below(Set::empty(), k) == 0,
        decreases k,
    {
        if k > 0 {
            self.lemma_size_empty((k - 1) as nat);
        }
    }

    /// A node more in the set adds its size to the sum.
    pub proof fn lemma_size_insert(self, s: Set<u32>, a: u32, k: nat)
        requires
            !s.contains(a),
            k <= self.nodes.len() <= u32::MAX,
        ensures
            self.size_below(s.insert(a), k) == self.size_below(s, k) + if a < k {
                self.nodes[a as int].size as nat
            } else {
                0
            },
        decreases k,
    {
        if k > 0 {
            self.lemma_size_insert(s, a, (k - 1) as nat);
        }
    }

    /// A part of a set weighs no more than the set.
    pub proof fn lemma_size_subset(self, s: Set<u32>, t: Set<u32>, k: nat)
        requires
            s.subset_of(t),
        ensures
            self.size_below(s, k) <= self.size_below(t, k),
        decreases k,
    {
        if k > 0 {
            self.lemma_size_subset(s, t, (k - 1) as nat);
        }
    }
}

/// There are `k` node indices below `k`.
pub proof fn lemma_below(k: nat)
    requires
        k <= u32::MAX + 1,
    ensures
        below(k).finite(),
        below(k).len() == k,
    decreases k,
{
    if k == 0 {
        assert(below(k) =~= Set::<u32>::empty());
    } else {
        lemma_below((k - 1) as nat);
        assert(below(k) =~= below((k - 1) as nat).insert((k - 1) as u32));
    }
}

/// A part of the node indices below `k` is finite and has `k` members at
/// most.
pub proof fn lemma_below_part(s: Set<u32>, k: nat)
    requires
        k <= u32::MAX + 1,
        s.subset_of(below(k)),
    ensures
        s.finite(),
        s.len() <= k,
{
    lemma_below(k);
    vstd::set_lib::lemma_len_subset(s, below(k));
}

/// A list without duplicates stays one when an item that it does not hold
/// is pushed, and then holds that item and what it held.
pub proof fn lemma_push_fresh(s: Seq<u32>, a: u32)
    requires
        s.no_duplicates(),
        !s.contains(a),
    ensures
        s.push(a).no_duplicates(),
        forall|b: u32| #[trigger] s.push(a).contains(b) <==> s.contains(b) || b == a,
{
    assert forall|b: u32| #[trigger] s.push(a).contains(b) <==> s.contains(b) || b == a by {
        vstd::seq_lib::lemma_seq_contains_after_push(s, a, b);
    }
    assert forall|i: int, j: int| 0 <= i < s.len() + 1 && 0 <= j < s.len() + 1 && i != j implies s.push(
        a,
    )[i] != s.push(a)[j] by {
        if i < s.len() {
            assert(s.contains(s[i]));
        }
        if j < s.len() {
            assert(s.contains(s[j]));
        }
    }
}

/// What a step of the traversal leaves: the map has its length; marked is
/// what was marked and every successor; the stack holds what it held and
/// every successor that was not marked, each once.
pub proof fn lemma_discover(stack: Seq<u32>, seen: Seq<bool>, succ: Seq<u32>)
    requires
        stack.no_duplicates(),
        forall|i: int| 0 <= i < stack.len() ==> stack[i] < seen.len() && seen[stack[i] as int],
        forall|i: int| 0 <= i < succ.len() ==> succ[i] < seen.len(),
    ensures
        discover(stack, seen, succ).1.len() == seen.len(),
        discover(stack, seen, succ).0.no_duplicates(),
        forall|a: u32|
            a < seen.len() ==> (discover(stack, seen, succ).1[a as int] <==> seen[a as int]
                || succ.contains(a)),
        forall|a: u32| #[trigger]
            discover(stack, seen, succ).0.contains(a) <==> stack.contains(a) || (succ.contains(a)
                && !seen[a as int]),
    decreases succ.len(),
{
    if succ.len() > 0 {
        let rest = succ.drop_last();
        let s = succ.last();
        let (st, se) = discover(stack, seen, rest);
        lemma_discover(stack, seen, rest);
        assert(succ =~= rest.push(s));
        assert forall|a: u32| succ.contains(a) <==> rest.contains(a) || a == s by {
            vstd::seq_lib::lemma_seq_contains_after_push(rest, s, a);
        }
        if !se[s as int] {
            assert(!st.contains(s));
            lemma_push_fresh(st, s);
        }
    }
}

} // verus!
