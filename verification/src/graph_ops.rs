//! The operations of `petgraph` that the library calls. What each is taken
//! to do is stated here and believed; nothing in this file is proved.

use crate::depgraph::{DepGraph, Derivation, DerivationView, RootDfs};
use crate::graph::{is_increasing, total_len, GraphView};
use vstd::prelude::*;

verus! {

/// `petgraph::graph::Graph`, of which the verifier sees nothing inside.
#[verifier::external_type_specification]
#[verifier::external_body]
#[verifier::reject_recursive_types(N)]
#[verifier::reject_recursive_types(E)]
#[verifier::reject_recursive_types(Ty)]
#[verifier::reject_recursive_types(Ix)]
pub struct ExGraph<N, E, Ty, Ix>(petgraph::graph::Graph<N, E, Ty, Ix>);

/// `petgraph::Directed`, the marker of a graph with directed edges.
#[verifier::external_type_specification]
#[verifier::external_body]
pub struct ExDirected(petgraph::Directed);

/// `petgraph::graph::NodeIndex`, the index of a node.
#[verifier::external_type_specification]
#[verifier::external_body]
#[verifier::reject_recursive_types(Ix)]
pub struct ExNodeIndex<Ix>(petgraph::graph::NodeIndex<Ix>);

/// `petgraph::visit::Dfs`, a depth-first traversal: a stack of nodes and a
/// map of the nodes discovered.
#[verifier::external_type_specification]
#[verifier::external_body]
#[verifier::reject_recursive_types(N)]
#[verifier::reject_recursive_types(VM)]
pub struct ExDfs<N, VM>(petgraph::visit::Dfs<N, VM>);

/// `fixedbitset::FixedBitSet`, the map of discovered nodes of a traversal.
#[verifier::external_type_specification]
#[verifier::external_body]
pub struct ExFixedBitSet(fixedbitset::FixedBitSet);

/// The weights of the nodes of `g`, in the order of the node indices.
pub uninterp spec fn graph_nodes(g: DepGraph) -> Seq<DerivationView>;

/// For each node of `g`, in the order of the node indices, what
/// `Graph::neighbors` yields for it, each node index as a number: the targets
/// of the edges that leave the node, the edge added last first.
pub uninterp spec fn graph_successors(g: DepGraph) -> Seq<Seq<u32>>;

/// The stack of `d`, the node that is visited next last, each node index as
/// a number.
pub uninterp spec fn dfs_stack(d: RootDfs) -> Seq<u32>;

/// The bits of the map of discovered nodes of `d`, bit `i` for node `i`.
pub uninterp spec fn dfs_discovered(d: RootDfs) -> Seq<bool>;

/// What `Dfs::next` does with the neighbors `succ` of the node that it has
/// taken off the stack: going through them in order, each one that `seen`
/// does not mark yet is marked and pushed on `stack`.
pub open spec fn discover(stack: Seq<u32>, seen: Seq<bool>, succ: Seq<u32>) -> (
    Seq<u32>,
    Seq<bool>,
)
    decreases succ.len(),
{
    if succ.len() == 0 {
        (stack, seen)
    } else {
        let (st, se) = discover(stack, seen, succ.drop_last());
        let s = succ.last();
        if se[s as int] {
            (st, se)
        } else {
            (st.push(s), se.update(s as int, true))
        }
    }
}

/// What `g` holds.
pub open spec fn graph_view(g: DepGraph) -> GraphView {
    GraphView { nodes: graph_nodes(g), succ: graph_successors(g) }
}

/// `Graph::new`: a graph without nodes and edges.
#[verifier::external_body]
pub(crate) fn graph_new() -> (g: DepGraph)
    ensures
        graph_nodes(g) == Seq::<DerivationView>::empty(),
        graph_successors(g) == Seq::<Seq<u32>>::empty(),
{
    petgraph::graph::Graph::new()
}

/// `Clone::clone` of a graph: a graph with the same nodes, under the same
/// indices, and the same edges.
#[verifier::external_body]
pub(crate) fn graph_clone(g: &DepGraph) -> (copy: DepGraph)
    ensures
        graph_nodes(copy) == graph_nodes(*g),
        graph_successors(copy) == graph_successors(*g),
{
    g.clone()
}

/// `Graph::node_count`: the number of nodes. A graph with 32-bit indices
/// holds at most `u32::MAX` nodes, so the count fits the result; every node
/// has its list of neighbors, and every neighbor is a node of the graph.
#[verifier::external_body]
pub(crate) fn graph_node_count(g: &DepGraph) -> (n: u32)
    ensures
        n == graph_nodes(*g).len(),
        n == graph_successors(*g).len(),
        forall|a: int, k: int|
            0 <= a < graph_successors(*g).len() && 0 <= k < graph_successors(*g)[a].len() ==> (
            #[trigger] graph_successors(*g)[a][k]) < n,
{
    g.node_count() as u32
}

/// `Graph::edge_count`: the number of edges, each of which is in the list
/// of neighbors of the one node that it leaves. A graph with 32-bit indices
/// holds at most `u32::MAX` edges, so the count fits the result.
#[verifier::external_body]
pub(crate) fn graph_edge_count(g: &DepGraph) -> (m: u32)
    ensures
        m == total_len(graph_successors(*g)),
{
    g.edge_count() as u32
}

/// `Graph::add_node`: appends a node with the weight `d` and no edges, and
/// returns its index, which is the number of nodes before. It panics where
/// the graph holds `u32::MAX` nodes.
#[verifier::external_body]
pub(crate) fn graph_add_node(g: &mut DepGraph, d: Derivation) -> (idx: u32)
    requires
        graph_nodes(*old(g)).len() < u32::MAX,
    ensures
        idx == graph_nodes(*old(g)).len(),
        graph_nodes(*final(g)) == graph_nodes(*old(g)).push(d@),
        graph_successors(*final(g)) == graph_successors(*old(g)).push(Seq::empty()),
{
    g.add_node(d).index() as u32
}

/// `Graph::add_edge`: adds an edge from `a` to `b`, which `neighbors` then
/// yields first for `a`; the nodes stay. It panics where `a` or `b` is no
/// node, and where the graph holds `u32::MAX` edges.
#[verifier::external_body]
pub(crate) fn graph_add_edge(g: &mut DepGraph, a: u32, b: u32)
    requires
        a < graph_nodes(*old(g)).len(),
        b < graph_nodes(*old(g)).len(),
        total_len(graph_successors(*old(g))) < u32::MAX,
    ensures
        graph_nodes(*final(g)) == graph_nodes(*old(g)),
        graph_successors(*final(g)) == graph_successors(*old(g)).update(
            a as int,
            seq![b] + graph_successors(*old(g))[a as int],
        ),
{
    g.add_edge(
        petgraph::graph::NodeIndex::new(a as usize),
        petgraph::graph::NodeIndex::new(b as usize),
        (),
    );
}

/// Indexing a graph by a node index: the weight of node `a`. It panics where
/// `a` is no node.
#[verifier::external_body]
pub(crate) fn graph_node(g: &DepGraph, a: u32) -> (d: &Derivation)
    requires
        a < graph_nodes(*g).len(),
    ensures
        d@ == graph_nodes(*g)[a as int],
{
    &g[petgraph::graph::NodeIndex::new(a as usize)]
}

/// Indexing a graph mutably by a node index: the weight of node `a`, to be
/// changed in place; the other nodes and the edges stay. It panics where `a`
/// is no node.
#[verifier::external_body]
pub(crate) fn graph_node_mut(g: &mut DepGraph, a: u32) -> (d: &mut Derivation)
    requires
        a < graph_nodes(*old(g)).len(),
    ensures
        d@ == graph_nodes(*old(g))[a as int],
        graph_nodes(*final(g)) == graph_nodes(*old(g)).update(a as int, final(d)@),
        graph_successors(*final(g)) == graph_successors(*old(g)),
{
    &mut g[petgraph::graph::NodeIndex::new(a as usize)]
}

/// `Graph::neighbors`, asked for its first item: the target of the edge
/// that was added last among those that leave `a`, and `None` where no edge
/// leaves `a` or `a` is no node.
#[verifier::external_body]
pub(crate) fn graph_first_neighbor(g: &DepGraph, a: u32) -> (r: Option<u32>)
    ensures
        r == (if graph_view(*g).successors(a).len() > 0 {
            Some(graph_view(*g).successors(a)[0])
        } else {
            None
        }),
{
    g.neighbors(petgraph::graph::NodeIndex::new(a as usize)).next().map(|b| b.index() as u32)
}

/// `Graph::externals` in the direction `Incoming`: the nodes that no edge
/// ends at, in the order of their indices.
#[verifier::external_body]
pub(crate) fn graph_sources(g: &DepGraph) -> (r: Vec<u32>)
    ensures
        is_increasing(r@),
        forall|b: u32| r@.contains(b) <==> graph_view(*g).is_source(b),
{
    g.externals(petgraph::Direction::Incoming).map(|b| b.index() as u32).collect()
}

/// `Dfs::empty`: a traversal of `g` with an empty stack and no node
/// discovered; its map has one bit for each node of `g`.
#[verifier::external_body]
pub(crate) fn dfs_empty(g: &DepGraph) -> (d: RootDfs)
    ensures
        dfs_stack(d) == Seq::<u32>::empty(),
        dfs_discovered(d) == Seq::new(graph_nodes(*g).len(), |i: int| false),
{
    petgraph::visit::Dfs::empty(g)
}

/// `VisitMap::visit` on the map of discovered nodes: marks `a` and says
/// whether it was unmarked before. It panics where the map has no bit for
/// `a`.
#[verifier::external_body]
pub(crate) fn dfs_visit(d: &mut RootDfs, a: u32) -> (fresh: bool)
    requires
        a < dfs_discovered(*old(d)).len(),
    ensures
        fresh == !dfs_discovered(*old(d))[a as int],
        dfs_discovered(*final(d)) == dfs_discovered(*old(d)).update(a as int, true),
        dfs_stack(*final(d)) == dfs_stack(*old(d)),
{
    petgraph::visit::VisitMap::visit(
        &mut d.discovered,
        petgraph::graph::NodeIndex::<u32>::new(a as usize),
    )
}

/// `Vec::push` on the stack of the traversal.
#[verifier::external_body]
pub(crate) fn dfs_push(d: &mut RootDfs, a: u32)
    ensures
        dfs_stack(*final(d)) == dfs_stack(*old(d)).push(a),
        dfs_discovered(*final(d)) == dfs_discovered(*old(d)),
{
    d.stack.push(petgraph::graph::NodeIndex::new(a as usize))
}

/// `Dfs::next`: with an empty stack it returns `None` and changes nothing.
/// Else it takes the last node off the stack, goes through the neighbors of
/// that node in `g` in their order, marks and pushes each one that is not yet
/// marked, and returns the node. It panics where the map has no bit for a
/// neighbor.
#[verifier::external_body]
pub(crate) fn dfs_next(d: &mut RootDfs, g: &DepGraph) -> (r: Option<u32>)
    requires
        graph_nodes(*g).len() <= dfs_discovered(*old(d)).len(),
    ensures
        r == (if dfs_stack(*old(d)).len() == 0 {
            None
        } else {
            Some(dfs_stack(*old(d)).last())
        }),
        r is None ==> dfs_stack(*final(d)) == dfs_stack(*old(d)) && dfs_discovered(*final(d))
            == dfs_discovered(*old(d)),
        r matches Some(a) ==> (dfs_stack(*final(d)), dfs_discovered(*final(d))) == discover(
            dfs_stack(*old(d)).drop_last(),
            dfs_discovered(*old(d)),
            graph_view(*g).successors(a),
        ),
{
    d.next(g).map(|a| a.index() as u32)
}

} // verus!
