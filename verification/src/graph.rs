//! The dependency graph as mathematics: the nodes in the order of their
//! indices and, for each node, the nodes that it has an edge to.

use crate::depgraph::DerivationView;
use vstd::prelude::*;

verus! {

/// What a dependency graph holds. Node `i` is `nodes[i]`; `succ[i]` lists the
/// targets of the edges that leave node `i`, the edge added last first. An
/// edge that was added twice is listed twice.
pub struct GraphView {
    pub nodes: Seq<DerivationView>,
    pub succ: Seq<Seq<u32>>,
}

/// The sum of the lengths of the lists in `lists`.
pub open spec fn total_len(lists: Seq<Seq<u32>>) -> nat
    decreases lists.len(),
{
    if lists.len() == 0 {
        0
    } else {
        total_len(lists.drop_last()) + lists.last().len()
    }
}

/// Each item of `s` is less than the next.
pub open spec fn is_increasing(s: Seq<u32>) -> bool {
    forall|i: int, j: int| 0 <= i < j < s.len() ==> s[i] < s[j]
}

/// The sum of the sizes of `nodes`.
pub open spec fn size_sum(nodes: Seq<DerivationView>) -> nat
    decreases nodes.len(),
{
    if nodes.len() == 0 {
        0
    } else {
        size_sum(nodes.drop_last()) + nodes.last().size as nat
    }
}

impl GraphView {
    /// The graph without nodes.
    pub open spec fn empty() -> GraphView {
        GraphView { nodes: Seq::empty(), succ: Seq::empty() }
    }

    /// Every node has its list of successors, every edge ends at a node, and
    /// the nodes can be counted in 32 bits.
    pub open spec fn wf(self) -> bool {
        &&& self.nodes.len() <= u32::MAX
        &&& self.succ.len() == self.nodes.len()
        &&& forall|a: int, k: int|
            0 <= a < self.succ.len() && 0 <= k < self.succ[a].len() ==> (
            #[trigger] self.succ[a][k]) < self.nodes.len()
    }

    /// `a` is the index of a node.
    pub open spec fn has_node(self, a: u32) -> bool {
        a < self.nodes.len()
    }

    /// The sum of the sizes of all nodes.
    pub open spec fn total_size(self) -> nat {
        size_sum(self.nodes)
    }

    /// The number of edges.
    pub open spec fn edge_count(self) -> nat {
        total_len(self.succ)
    }

    /// The targets of the edges that leave `a`, the edge added last first.
    pub open spec fn successors(self, a: u32) -> Seq<u32> {
        if a < self.succ.len() {
            self.succ[a as int]
        } else {
            Seq::empty()
        }
    }

    /// There is an edge from `a` to `b`.
    pub open spec fn has_edge(self, a: u32, b: u32) -> bool {
        self.successors(a).contains(b)
    }

    /// Some edge ends at `b`.
    pub open spec fn has_incoming(self, b: u32) -> bool {
        exists|a: u32| self.has_edge(a, b)
    }

    /// `b` is a node that no edge ends at.
    pub open spec fn is_source(self, b: u32) -> bool {
        self.has_node(b) && !self.has_incoming(b)
    }

    /// No edge ends at a node that is flagged as a root.
    pub open spec fn flags_are_sources(self) -> bool {
        forall|b: u32| self.has_node(b) && self.nodes[b as int].is_root ==> !self.has_incoming(b)
    }

    /// The indices below `k` of the nodes that are flagged as roots, in
    /// rising order.
    pub open spec fn roots_below(self, k: nat) -> Seq<u32>
        decreases k,
    {
        if k == 0 {
            Seq::empty()
        } else if self.nodes[k - 1].is_root {
            self.roots_below((k - 1) as nat).push((k - 1) as u32)
        } else {
            self.roots_below((k - 1) as nat)
        }
    }

    /// The indices of the nodes that are flagged as roots, in rising order.
    pub open spec fn flagged_roots(self) -> Seq<u32> {
        self.roots_below(self.nodes.len())
    }

    /// The graph with one more node, `d`, which has no edges.
    pub open spec fn add_node(self, d: DerivationView) -> GraphView {
        GraphView { nodes: self.nodes.push(d), succ: self.succ.push(Seq::empty()) }
    }

    /// The graph with one more edge, from `a` to `b`.
    pub open spec fn add_edge(self, a: u32, b: u32) -> GraphView {
        GraphView {
            nodes: self.nodes,
            succ: self.succ.update(a as int, seq![b] + self.succ[a as int]),
        }
    }

    /// The graph with the nodes `ds` more, in their order.
    pub open spec fn with_nodes(self, ds: Seq<DerivationView>) -> GraphView
        decreases ds.len(),
    {
        if ds.len() == 0 {
            self
        } else {
            self.with_nodes(ds.drop_last()).add_node(ds.last())
        }
    }

    /// The graph with the edges `es` more, each from its first node to its
    /// second, in their order.
    pub open spec fn with_edges(self, es: Seq<(u32, u32)>) -> GraphView
        decreases es.len(),
    {
        if es.len() == 0 {
            self
        } else {
            self.with_edges(es.drop_last()).add_edge(es.last().0, es.last().1)
        }
    }

    /// The graph with the nodes `ds`, whose indices are their places in
    /// `ds`, and the edges `es`.
    pub open spec fn build(ds: Seq<DerivationView>, es: Seq<(u32, u32)>) -> GraphView {
        GraphView::empty().with_nodes(ds).with_edges(es)
    }

    /// The graph with `d` in the place of node `a`.
    pub open spec fn with_node(self, a: u32, d: DerivationView) -> GraphView {
        GraphView { nodes: self.nodes.update(a as int, d), succ: self.succ }
    }

    /// The graph in which node `a` has the size `size`.
    pub open spec fn with_size(self, a: u32, size: u64) -> GraphView {
        self.with_node(
            a,
            DerivationView {
                path: self.nodes[a as int].path,
                size,
                is_root: self.nodes[a as int].is_root,
            },
        )
    }
}

/// A node more adds its size to the sum.
pub proof fn lemma_size_sum_push(nodes: Seq<DerivationView>, d: DerivationView)
    ensures
        size_sum(nodes.push(d)) == size_sum(nodes) + d.size,
{
    assert(nodes.push(d).drop_last() =~= nodes);
}

/// Another node in the place of one changes the sum by the difference of
/// their sizes.
pub proof fn lemma_size_sum_update(nodes: Seq<DerivationView>, i: int, d: DerivationView)
    requires
        0 <= i < nodes.len(),
    ensures
        size_sum(nodes.update(i, d)) == size_sum(nodes) - nodes[i].size + d.size,
    decreases nodes.len(),
{
    let changed = nodes.update(i, d);
    if i == nodes.len() - 1 {
        assert(changed.drop_last() =~= nodes.drop_last());
    } else {
        assert(changed.drop_last() =~= nodes.drop_last().update(i, d));
        lemma_size_sum_update(nodes.drop_last(), i, d);
    }
}

/// A list more adds its length to the sum.
pub proof fn lemma_total_len_push(lists: Seq<Seq<u32>>, list: Seq<u32>)
    ensures
        total_len(lists.push(list)) == total_len(lists) + list.len(),
{
    assert(lists.push(list).drop_last() =~= lists);
}

/// Another list in the place of one changes the sum by the difference of
/// their lengths.
pub proof fn lemma_total_len_update(lists: Seq<Seq<u32>>, i: int, list: Seq<u32>)
    requires
        0 <= i < lists.len(),
    ensures
        total_len(lists.update(i, list)) == total_len(lists) - lists[i].len() + list.len(),
    decreases lists.len(),
{
    let changed = lists.update(i, list);
    if i == lists.len() - 1 {
        assert(changed.drop_last() =~= lists.drop_last());
    } else {
        assert(changed.drop_last() =~= lists.drop_last().update(i, list));
        lemma_total_len_update(lists.drop_last(), i, list);
    }
}

impl GraphView {
    /// A node more keeps the graph well formed and its edges as they are.
    pub proof fn lemma_add_node(self, d: DerivationView)
        requires
            self.wf(),
            self.nodes.len() < u32::MAX,
        ensures
            self.add_node(d).wf(),
            self.add_node(d).edge_count() == self.edge_count(),
            forall|a: u32, b: u32| #[trigger] self.add_node(d).has_edge(a, b) == self.has_edge(a, b),
    {
        lemma_total_len_push(self.succ, Seq::empty());
        let after = self.add_node(d);
        assert forall|a: int, k: int|
            0 <= a < after.succ.len() && 0 <= k < after.succ[a].len() implies (
        #[trigger] after.succ[a][k]) < after.nodes.len() by {
            assert(self.succ[a][k] < self.nodes.len());
        }
        assert forall|a: u32, b: u32| #[trigger] after.has_edge(a, b) == self.has_edge(a, b) by {
            if a < self.succ.len() {
                assert(after.successors(a) == self.successors(a));
            } else {
                assert(after.successors(a) =~= Seq::<u32>::empty());
            }
        }
    }

    /// Adding nodes to a graph without any gives a well-formed graph with
    /// these nodes and no edges.
    pub proof fn lemma_with_nodes(ds: Seq<DerivationView>)
        requires
            ds.len() <= u32::MAX,
        ensures
            GraphView::empty().with_nodes(ds).wf(),
            GraphView::empty().with_nodes(ds).nodes == ds,
            GraphView::empty().with_nodes(ds).edge_count() == 0,
            forall|a: u32, b: u32| !#[trigger] GraphView::empty().with_nodes(ds).has_edge(a, b),
        decreases ds.len(),
    {
        if ds.len() > 0 {
            let before = GraphView::empty().with_nodes(ds.drop_last());
            GraphView::lemma_with_nodes(ds.drop_last());
            before.lemma_add_node(ds.last());
            assert(ds.drop_last().push(ds.last()) =~= ds);
        } else {
            assert(GraphView::empty().nodes =~= ds);
            assert forall|a: u32, b: u32| !#[trigger] GraphView::empty().has_edge(a, b) by {
                assert(GraphView::empty().successors(a) =~= Seq::<u32>::empty());
            }
        }
    }

    /// Adding edges between the nodes of a well-formed graph keeps it well
    /// formed and keeps its nodes.
    pub proof fn lemma_with_edges(self, es: Seq<(u32, u32)>)
        requires
            self.wf(),
            forall|k: int|
                0 <= k < es.len() ==> self.has_node((#[trigger] es[k]).0) && self.has_node(es[k].1),
        ensures
            self.with_edges(es).wf(),
            self.with_edges(es).nodes == self.nodes,
            self.with_edges(es).edge_count() == self.edge_count() + es.len(),
        decreases es.len(),
    {
        if es.len() > 0 {
            assert forall|k: int| 0 <= k < es.drop_last().len() implies self.has_node(
                (#[trigger] es.drop_last()[k]).0,
            ) && self.has_node(es.drop_last()[k].1) by {
                assert(es.drop_last()[k] == es[k]);
            }
            self.lemma_with_edges(es.drop_last());
            self.with_edges(es.drop_last()).lemma_add_edge(es.last().0, es.last().1);
        }
    }

    /// An edge more between two nodes keeps the graph well formed; the
    /// edges are those before and the new one.
    pub proof fn lemma_add_edge(self, a: u32, b: u32)
        requires
            self.wf(),
            self.has_node(a),
            self.has_node(b),
        ensures
            self.add_edge(a, b).wf(),
            self.add_edge(a, b).edge_count() == self.edge_count() + 1,
            forall|x: u32, y: u32| #[trigger]
                self.add_edge(a, b).has_edge(x, y) <==> self.has_edge(x, y) || (x == a && y == b),
    {
        let list = seq![b] + self.succ[a as int];
        lemma_total_len_update(self.succ, a as int, list);
        let after = self.add_edge(a, b);
        assert forall|x: int, k: int|
            0 <= x < after.succ.len() && 0 <= k < after.succ[x].len() implies (
        #[trigger] after.succ[x][k]) < after.nodes.len() by {
            if x == a && k > 0 {
                assert(after.succ[x][k] == self.succ[x][k - 1]);
            } else if x != a {
                assert(after.succ[x][k] == self.succ[x][k]);
            }
        }
        assert forall|x: u32, y: u32| #[trigger]
            after.has_edge(x, y) <==> self.has_edge(x, y) || (x == a && y == b) by {
            if x == a {
                vstd::seq_lib::lemma_seq_concat_contains_all_elements(
                    seq![b],
                    self.succ[a as int],
                    y,
                );
                assert(seq![b].contains(y) <==> y == b) by {
                    if y == b {
                        assert(seq![b][0] == y);
                    }
                }
            } else if x < self.succ.len() {
                assert(after.successors(x) == self.successors(x));
            }
        }
    }
}

/// `roots_below(k)` rises, and holds exactly the indices below `k` of the
/// nodes that are flagged as roots.
pub proof fn lemma_roots_below(g: GraphView, k: nat)
    requires
        k <= g.nodes.len() <= u32::MAX,
    ensures
        is_increasing(g.roots_below(k)),
        forall|a: u32| g.roots_below(k).contains(a) <==> a < k && g.nodes[a as int].is_root,
    decreases k,
{
    if k > 0 {
        let prev = g.roots_below((k - 1) as nat);
        lemma_roots_below(g, (k - 1) as nat);
        if g.nodes[k - 1].is_root {
            let last = (k - 1) as u32;
            let all = prev.push(last);
            assert forall|a: u32| all.contains(a) <==> a < k && g.nodes[a as int].is_root by {
                vstd::seq_lib::lemma_seq_contains_after_push(prev, last, a);
            }
            assert forall|i: int, j: int| 0 <= i < j < all.len() implies all[i] < all[j] by {
                assert(prev.contains(all[i]));
            }
        }
    }
}

} // verus!
