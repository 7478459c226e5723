//! Hard links between store entries: moving the size of a file that several
//! entries share into a node of its own, and guessing from a sample of the
//! links directory whether the store was ever optimised.

use crate::bytes::join_bytes;
use crate::depgraph::{DepGraph, DepInfos, Derivation, DerivationView};
use crate::graph::{lemma_size_sum_push, lemma_size_sum_update, GraphView};
use crate::graph_ops::{
    graph_add_edge, graph_add_node, graph_edge_count, graph_first_neighbor, graph_node,
    graph_node_count, graph_node_mut, graph_view,
};
use std::collections::BTreeMap;
use vstd::prelude::*;

verus! {

/// How the path of a shared node begins: `shared:`.
pub const SHARED_MARK: [u8; 7] = [0x73, 0x68, 0x61, 0x72, 0x65, 0x64, 0x3a];

/// Who owns the file with a given inode, as far as the pass has seen.
#[derive(Clone, Copy, Debug, PartialEq, Eq)]
pub enum Owner {
    /// The file was seen once, in the entry with this node index.
    One(u32),
    /// The file was seen at least twice; its size is in the shared node with
    /// this index.
    Several(u32),
}

/// A regular file that a walk of a store entry came upon.
#[derive(Clone, Copy, Debug, PartialEq, Eq)]
pub struct FileSighting {
    /// The index of the node whose entry was walked.
    pub node: u32,
    /// The inode number of the file.
    pub ino: u64,
    /// The length of the file in bytes.
    pub len: u64,
}

/// The state of a refinement pass: the graph, and the owner of each inode
/// seen so far.
pub struct PassView {
    pub graph: GraphView,
    pub owners: Map<u64, Owner>,
}

/// The shared node made for a file of `len` bytes that was first seen in the
/// entry `first`.
pub open spec fn shared_node(first: DerivationView, len: u64) -> DerivationView {
    DerivationView { path: SHARED_MARK@ + first.name(), size: len, is_root: false }
}

impl GraphView {
    /// Node `a` is a store entry to be walked: no root, and its path is one
    /// of the file system.
    pub open spec fn is_walkable(self, a: u32) -> bool {
        &&& self.has_node(a)
        &&& !self.nodes[a as int].is_root
        &&& self.nodes[a as int].is_absolute()
    }

    /// Node `a` can stand for a shared file: it is neither a root nor a
    /// store entry that is walked.
    pub open spec fn is_shared(self, a: u32) -> bool {
        &&& self.has_node(a)
        &&& !self.nodes[a as int].is_root
        &&& !self.nodes[a as int].is_absolute()
    }

    /// The graph in which node `a` is `by` bytes smaller.
    pub open spec fn shrunk(self, a: u32, by: u64) -> GraphView {
        self.with_size(a, (self.nodes[a as int].size - by) as u64)
    }

    /// The graph after a file of `len` bytes, first seen in `first`, was seen
    /// again in `node`: a shared node for the file, an edge to it from
    /// `first`, whose size loses `len`, and the same for `node`.
    pub open spec fn share(self, first: u32, node: u32, len: u64) -> GraphView {
        let shared = self.nodes.len() as u32;
        self.add_node(shared_node(self.nodes[first as int], len)).add_edge(first, shared).shrunk(
            first,
            len,
        ).add_edge(node, shared).shrunk(node, len)
    }

    /// The graph after a file of `len` bytes, whose size is in the node
    /// `shared` already, was seen in `node`: an edge from `node` to `shared`,
    /// and `node` loses `len`.
    pub open spec fn join(self, shared: u32, node: u32, len: u64) -> GraphView {
        self.add_edge(node, shared).shrunk(node, len)
    }
}

impl GraphView {
    /// The size of a node can change without any other change to the graph.
    pub proof fn lemma_shrunk(self, a: u32, by: u64)
        requires
            self.wf(),
            self.has_node(a),
        ensures
            self.shrunk(a, by).wf(),
            self.shrunk(a, by).total_size() == self.total_size() - self.nodes[a as int].size + (
            self.nodes[a as int].size - by) as u64,
            self.shrunk(a, by).succ == self.succ,
            self.shrunk(a, by).nodes.len() == self.nodes.len(),
            forall|x: u32, y: u32| #[trigger] self.shrunk(a, by).has_edge(x, y) == self.has_edge(x, y),
            forall|x: int|
                0 <= x < self.nodes.len() ==> {
                    &&& (#[trigger] self.shrunk(a, by).nodes[x]).is_root == self.nodes[x].is_root
                    &&& self.shrunk(a, by).nodes[x].path == self.nodes[x].path
                    &&& x != a ==> self.shrunk(a, by).nodes[x].size == self.nodes[x].size
                },
    {
        let after = self.shrunk(a, by);
        assert forall|x: u32, y: u32| #[trigger] after.has_edge(x, y) == self.has_edge(x, y) by {
            assert(after.successors(x) == self.successors(x));
        }
        lemma_size_sum_update(self.nodes, a as int, after.nodes[a as int]);
    }

    /// What joining a shared node does: the graph stays well formed, gains
    /// the one edge from `node` to `shared`, and only the size of `node`
    /// changes.
    pub proof fn lemma_join(self, shared: u32, node: u32, len: u64)
        requires
            self.wf(),
            self.has_node(shared),
            self.has_node(node),
        ensures
            self.join(shared, node, len).wf(),
            self.join(shared, node, len).nodes.len() == self.nodes.len(),
            self.join(shared, node, len).edge_count() == self.edge_count() + 1,
            forall|x: u32, y: u32| #[trigger]
                self.join(shared, node, len).has_edge(x, y) <==> self.has_edge(x, y) || (x == node
                    && y == shared),
            forall|x: int|
                0 <= x < self.nodes.len() ==> {
                    &&& (#[trigger] self.join(shared, node, len).nodes[x]).is_root
                        == self.nodes[x].is_root
                    &&& self.join(shared, node, len).nodes[x].path == self.nodes[x].path
                    &&& x != node ==> self.join(shared, node, len).nodes[x].size
                        == self.nodes[x].size
                },
    {
        self.lemma_add_edge(node, shared);
        self.add_edge(node, shared).lemma_shrunk(node, len);
    }

    /// What sharing a file does: the graph stays well formed and gains one
    /// node, the shared one, and the two edges to it from `first` and from
    /// `node`; of the nodes before, only the sizes of these two change.
    pub proof fn lemma_share(self, first: u32, node: u32, len: u64)
        requires
            self.wf(),
            self.has_node(first),
            self.has_node(node),
            self.nodes.len() < u32::MAX,
        ensures
            self.share(first, node, len).wf(),
            self.share(first, node, len).nodes.len() == self.nodes.len() + 1,
            self.share(first, node, len).edge_count() == self.edge_count() + 2,
            self.share(first, node, len).nodes[self.nodes.len() as int].path == shared_node(
                self.nodes[first as int],
                len,
            ).path,
            self.share(first, node, len).nodes[self.nodes.len() as int].is_root == false,
            forall|x: u32, y: u32| #[trigger]
                self.share(first, node, len).has_edge(x, y) <==> self.has_edge(x, y) || (y
                    == self.nodes.len() && (x == first || x == node)),
            forall|x: int|
                0 <= x < self.nodes.len() ==> {
                    &&& (#[trigger] self.share(first, node, len).nodes[x]).is_root
                        == self.nodes[x].is_root
                    &&& self.share(first, node, len).nodes[x].path == self.nodes[x].path
                    &&& x != first && x != node ==> self.share(first, node, len).nodes[x].size
                        == self.nodes[x].size
                },
    {
        let shared = self.nodes.len() as u32;
        let g1 = self.add_node(shared_node(self.nodes[first as int], len));
        let g2 = g1.add_edge(first, shared);
        let g3 = g2.shrunk(first, len);
        let g4 = g3.add_edge(node, shared);
        let g5 = g4.shrunk(node, len);
        self.lemma_add_node(shared_node(self.nodes[first as int], len));
        g1.lemma_add_edge(first, shared);
        g2.lemma_shrunk(first, len);
        g3.lemma_add_edge(node, shared);
        g4.lemma_shrunk(node, len);
        assert forall|x: u32, y: u32| #[trigger]
            g5.has_edge(x, y) <==> self.has_edge(x, y) || (y == self.nodes.len() && (x == first
                || x == node)) by {
            assert(g5.has_edge(x, y) == g4.has_edge(x, y));
            assert(g4.has_edge(x, y) <==> g3.has_edge(x, y) || (x == node && y == shared));
            assert(g3.has_edge(x, y) == g2.has_edge(x, y));
            assert(g2.has_edge(x, y) <==> g1.has_edge(x, y) || (x == first && y == shared));
            assert(g1.has_edge(x, y) == self.has_edge(x, y));
        }
        assert forall|x: int| 0 <= x < self.nodes.len() implies {
            &&& (#[trigger] g5.nodes[x]).is_root == self.nodes[x].is_root
            &&& g5.nodes[x].path == self.nodes[x].path
            &&& x != first && x != node ==> g5.nodes[x].size == self.nodes[x].size
        } by {
            assert(g1.nodes[x] == self.nodes[x]);
            assert(g2.nodes[x] == g1.nodes[x]);
            assert(g4.nodes[x] == g3.nodes[x]);
        }
    }
}

impl PassView {
    /// The state at the start of a pass over `graph`: no inode seen.
    pub open spec fn start(graph: GraphView) -> PassView {
        PassView { graph, owners: Map::empty() }
    }

    /// Every owner is a node of the graph: a store entry that is walked
    /// where the file was seen once, and else a node that is neither a root
    /// nor walked, as a shared node is.
    pub open spec fn owners_in_graph(self) -> bool {
        forall|ino: u64| #[trigger]
            self.owners.contains_key(ino) ==> match self.owners[ino] {
                Owner::One(a) => self.graph.is_walkable(a),
                Owner::Several(a) => self.graph.is_shared(a),
            }
    }

    /// The sighting `f` can be recorded: the graph has room for what it
    /// adds, and no size falls below zero. A sighting in a node that is not
    /// walked changes nothing and always fits.
    pub open spec fn fits(self, f: FileSighting) -> bool {
        if !self.graph.is_walkable(f.node) || !self.owners.contains_key(f.ino) {
            true
        } else {
            match self.owners[f.ino] {
                Owner::One(first) => {
                    &&& self.graph.nodes.len() < u32::MAX
                    &&& self.graph.edge_count() + 2 <= u32::MAX
                    &&& self.graph.nodes[first as int].size >= f.len
                    &&& self.graph.nodes[f.node as int].size >= f.len
                    &&& first == f.node ==> self.graph.nodes[first as int].size >= 2 * f.len
                },
                Owner::Several(_) => {
                    &&& self.graph.edge_count() < u32::MAX
                    &&& self.graph.nodes[f.node as int].size >= f.len
                },
            }
        }
    }

    /// The state after the sighting `f`. A sighting in a node that is not
    /// walked changes nothing. The first sighting of an inode records its
    /// owner. The second makes the shared node, and the third and later ones
    /// join it.
    pub open spec fn record(self, f: FileSighting) -> PassView {
        if !self.graph.is_walkable(f.node) {
            self
        } else if !self.owners.contains_key(f.ino) {
            PassView { graph: self.graph, owners: self.owners.insert(f.ino, Owner::One(f.node)) }
        } else {
            match self.owners[f.ino] {
                Owner::One(first) => PassView {
                    graph: self.graph.share(first, f.node, f.len),
                    owners: self.owners.insert(
                        f.ino,
                        Owner::Several(self.graph.nodes.len() as u32),
                    ),
                },
                Owner::Several(shared) => PassView {
                    graph: self.graph.join(shared, f.node, f.len),
                    owners: self.owners,
                },
            }
        }
    }

    /// The state after the sightings `fs`, in their order.
    pub open spec fn record_all(self, fs: Seq<FileSighting>) -> PassView
        decreases fs.len(),
    {
        if fs.len() == 0 {
            self
        } else {
            self.record_all(fs.drop_last()).record(fs.last())
        }
    }

    /// The bytes that the sightings `fs` find counted once too often: the
    /// length of each sighting, in a store entry that is walked, of a file
    /// whose inode was seen before.
    pub open spec fn shared_bytes(self, fs: Seq<FileSighting>) -> nat
        decreases fs.len(),
    {
        if fs.len() == 0 {
            0
        } else {
            let before = self.record_all(fs.drop_last());
            let f = fs.last();
            if before.graph.is_walkable(f.node) && before.owners.contains_key(f.ino) {
                self.shared_bytes(fs.drop_last()) + f.len as nat
            } else {
                self.shared_bytes(fs.drop_last())
            }
        }
    }

    /// Each of the sightings `fs` can be recorded in its turn.
    pub open spec fn fits_all(self, fs: Seq<FileSighting>) -> bool {
        forall|k: int| 0 <= k < fs.len() ==> #[trigger] self.record_all(fs.take(k)).fits(fs[k])
    }
}

impl PassView {
    /// Recording a sighting that fits keeps the graph well formed and the
    /// owners in it.
    pub proof fn lemma_record_keeps_order(self, f: FileSighting)
        requires
            self.graph.wf(),
            self.owners_in_graph(),
            self.fits(f),
        ensures
            self.record(f).graph.wf(),
            self.record(f).owners_in_graph(),
            self.graph.nodes.len() <= self.record(f).graph.nodes.len(),
    {
        if self.graph.is_walkable(f.node) && self.owners.contains_key(f.ino) {
            match self.owners[f.ino] {
                Owner::One(first) => {
                    self.graph.lemma_share(first, f.node, f.len);
                },
                Owner::Several(shared) => {
                    self.graph.lemma_join(shared, f.node, f.len);
                },
            }
        }
    }

    /// Recording a sighting changes no node but store entries that are
    /// walked: a root, a node without a path of the file system and a shared
    /// node stay as they are.
    pub proof fn lemma_record_keeps_unwalked(self, f: FileSighting, x: u32)
        requires
            self.graph.wf(),
            self.owners_in_graph(),
            self.fits(f),
            self.graph.has_node(x),
            !self.graph.is_walkable(x),
        ensures
            self.record(f).graph.nodes[x as int] == self.graph.nodes[x as int],
    {
        if self.graph.is_walkable(f.node) && self.owners.contains_key(f.ino) {
            match self.owners[f.ino] {
                Owner::One(first) => {
                    self.graph.lemma_share(first, f.node, f.len);
                },
                Owner::Several(shared) => {
                    self.graph.lemma_join(shared, f.node, f.len);
                },
            }
        }
    }

    /// What a sighting does to the sum of all sizes: the sighting of a file
    /// whose inode was seen before, in a store entry that is walked, takes
    /// the length of the file from the sum once; any other leaves the sum as
    /// it is. So a file with several links is counted once in the end.
    pub proof fn lemma_record_total_size(self, f: FileSighting)
        requires
            self.graph.wf(),
            self.owners_in_graph(),
            self.fits(f),
        ensures
            self.record(f).graph.total_size() == self.graph.total_size() - if self.graph.is_walkable(
                f.node,
            ) && self.owners.contains_key(f.ino) {
                f.len as int
            } else {
                0
            },
    {
        let g = self.graph;
        if g.is_walkable(f.node) && self.owners.contains_key(f.ino) {
            match self.owners[f.ino] {
                Owner::One(first) => {
                    let shared = g.nodes.len() as u32;
                    let g1 = g.add_node(shared_node(g.nodes[first as int], f.len));
                    let g2 = g1.add_edge(first, shared);
                    let g3 = g2.shrunk(first, f.len);
                    let g4 = g3.add_edge(f.node, shared);
                    g.lemma_add_node(shared_node(g.nodes[first as int], f.len));
                    lemma_size_sum_push(g.nodes, shared_node(g.nodes[first as int], f.len));
                    g1.lemma_add_edge(first, shared);
                    g2.lemma_shrunk(first, f.len);
                    g3.lemma_add_edge(f.node, shared);
                    g4.lemma_shrunk(f.node, f.len);
                },
                Owner::Several(shared) => {
                    g.lemma_add_edge(f.node, shared);
                    g.add_edge(f.node, shared).lemma_shrunk(f.node, f.len);
                },
            }
        }
    }
}

impl PassView {
    /// A pass of sightings that fit keeps the graph well formed and the
    /// owners in it, and takes from the sum of all sizes exactly the bytes
    /// that were counted once too often.
    pub proof fn lemma_record_all(self, fs: Seq<FileSighting>)
        requires
            self.graph.wf(),
            self.owners_in_graph(),
            self.fits_all(fs),
        ensures
            self.record_all(fs).graph.wf(),
            self.record_all(fs).owners_in_graph(),
            self.graph.nodes.len() <= self.record_all(fs).graph.nodes.len(),
            self.record_all(fs).graph.total_size() + self.shared_bytes(fs)
                == self.graph.total_size(),
        decreases fs.len(),
    {
        if fs.len() > 0 {
            let head = fs.drop_last();
            assert forall|k: int| 0 <= k < head.len() implies #[trigger] self.record_all(
                head.take(k),
            ).fits(head[k]) by {
                assert(head.take(k) =~= fs.take(k));
                assert(self.record_all(fs.take(k)).fits(fs[k]));
            }
            self.lemma_record_all(head);
            assert(fs.take(fs.len() - 1) =~= head);
            assert(self.record_all(fs.take(fs.len() - 1)).fits(fs[fs.len() - 1]));
            self.record_all(head).lemma_record_keeps_order(fs.last());
            self.record_all(head).lemma_record_total_size(fs.last());
        }
    }
}

/// A file of `len` bytes with the inode `ino` that is seen in two store
/// entries, first in `a` and then in `b`: the pass leaves one node more, the
/// shared node, named after `a` and of the size `len`; `a` and `b` each have
/// an edge to it and are `len` bytes smaller than before, so that the three
/// together weigh what `a` and `b` weighed before, less `len`. Nothing else
/// changes.
pub proof fn lemma_file_in_two_entries(g: GraphView, a: u32, b: u32, ino: u64, len: u64)
    requires
        g.wf(),
        g.is_walkable(a),
        g.is_walkable(b),
        a != b,
        PassView::start(g).fits_all(
            seq![FileSighting { node: a, ino, len }, FileSighting { node: b, ino, len }],
        ),
    ensures
        ({
            let after = PassView::start(g).record_all(
                seq![FileSighting { node: a, ino, len }, FileSighting { node: b, ino, len }],
            ).graph;
            let shared = g.nodes.len() as u32;
            &&& after.wf()
            &&& after.nodes.len() == g.nodes.len() + 1
            &&& after.nodes[shared as int] == shared_node(g.nodes[a as int], len)
            &&& after.nodes[shared as int].path == SHARED_MARK@ + g.nodes[a as int].name()
            &&& after.nodes[shared as int].size == len
            &&& after.has_edge(a, shared)
            &&& after.has_edge(b, shared)
            &&& after.nodes[a as int].size == g.nodes[a as int].size - len
            &&& after.nodes[b as int].size == g.nodes[b as int].size - len
            &&& after.nodes[a as int].size + after.nodes[b as int].size
                + after.nodes[shared as int].size == g.nodes[a as int].size
                + g.nodes[b as int].size - len
            &&& forall|x: int|
                0 <= x < g.nodes.len() && x != a && x != b ==> after.nodes[x] == g.nodes[x]
            &&& forall|x: u32, y: u32| #[trigger]
                after.has_edge(x, y) <==> g.has_edge(x, y) || (y == shared && (x == a || x == b))
        }),
{
    let first = FileSighting { node: a, ino, len };
    let second = FileSighting { node: b, ino, len };
    let both = seq![first, second];
    let start = PassView::start(g);
    assert(both.take(0) =~= Seq::<FileSighting>::empty());
    assert(both.take(1) =~= seq![first]);
    assert(both.drop_last() =~= seq![first]);
    assert(seq![first].drop_last() =~= Seq::<FileSighting>::empty());
    assert(start.record_all(Seq::<FileSighting>::empty()) == start);
    assert(start.record_all(seq![first]) == start.record(first));
    let mid = start.record(first);
    assert(mid.owners[ino] == Owner::One(a));
    assert(start.record_all(both) == mid.record(second));
    assert(mid.fits(both[1]));
    g.lemma_share(a, b, len);
    let shared = g.nodes.len() as u32;
    let g1 = g.add_node(shared_node(g.nodes[a as int], len));
    let g2 = g1.add_edge(a, shared);
    let g3 = g2.shrunk(a, len);
    let g4 = g3.add_edge(b, shared);
    let after = g4.shrunk(b, len);
    assert(after == g.share(a, b, len));
    assert(after.nodes[shared as int] == shared_node(g.nodes[a as int], len));
    assert forall|x: int| 0 <= x < g.nodes.len() && x != a && x != b implies after.nodes[x]
        == g.nodes[x] by {
        assert(g1.nodes[x] == g.nodes[x]);
    }
}

/// Where a graph gains only edges that end at `shared`, which is no root,
/// and the flags of its nodes stay, no edge ends at a root after as before.
proof fn lemma_sources_kept(before: GraphView, after: GraphView, shared: u32)
    requires
        before.flags_are_sources(),
        before.nodes.len() <= after.nodes.len(),
        after.has_node(shared),
        !after.nodes[shared as int].is_root,
        forall|x: u32, y: u32| #[trigger] after.has_edge(x, y) ==> before.has_edge(x, y) || y == shared,
        forall|x: int|
            0 <= x < before.nodes.len() ==> (#[trigger] after.nodes[x]).is_root
                == before.nodes[x].is_root,
        forall|x: int|
            before.nodes.len() <= x < after.nodes.len() ==> !(#[trigger] after.nodes[x]).is_root,
    ensures
        after.flags_are_sources(),
{
    assert forall|b: u32| after.has_node(b) && after.nodes[b as int].is_root implies !after.has_incoming(
        b,
    ) by {
        if after.has_incoming(b) {
            let a = choose|a: u32| after.has_edge(a, b);
            assert(before.has_edge(a, b));
            assert(before.has_incoming(b));
        }
    }
}

/// The state of a pass in which `di` is the graph and `owners` the map of
/// the inodes seen.
pub open spec fn pass_view(di: DepInfos, owners: BTreeMap<u64, Owner>) -> PassView {
    PassView { graph: di@.graph, owners: owners@ }
}

/// Takes `by` bytes from the size of node `a`.
fn shrink(g: &mut DepGraph, a: u32, by: u64)
    requires
        graph_view(*old(g)).has_node(a),
        graph_view(*old(g)).nodes[a as int].size >= by,
    ensures
        graph_view(*final(g)) == graph_view(*old(g)).shrunk(a, by),
{
    let d = graph_node_mut(g, a);
    d.size = d.size - by;
}

/// Whether the sighting `f` can be recorded: see [`PassView::fits`].
pub fn sighting_fits(di: &DepInfos, owners: &BTreeMap<u64, Owner>, f: FileSighting) -> (r: bool)
    requires
        pass_view(*di, *owners).owners_in_graph(),
    ensures
        r == pass_view(*di, *owners).fits(f),
{
    let n = graph_node_count(&di.graph);
    if f.node >= n {
        return true;
    }
    let entry = graph_node(&di.graph, f.node);
    if entry.is_root || entry.path_as_os_str().is_none() {
        return true;
    }
    match owners.get(&f.ino) {
        None => true,
        Some(owner) => {
            let edges = graph_edge_count(&di.graph);
            match *owner {
                Owner::One(first) => {
                    let first_size = graph_node(&di.graph, first).size;
                    n < u32::MAX && edges < u32::MAX - 1 && first_size >= f.len && entry.size
                        >= f.len && (first != f.node || first_size - f.len >= f.len)
                },
                Owner::Several(_) => edges < u32::MAX && entry.size >= f.len,
            }
        },
    }
}

/// Records one sighting of a regular file: see [`PassView::record`].
pub fn record_file(di: &mut DepInfos, owners: &mut BTreeMap<u64, Owner>, f: FileSighting)
    requires
        pass_view(*old(di), *old(owners)).owners_in_graph(),
        pass_view(*old(di), *old(owners)).fits(f),
    ensures
        pass_view(*final(di), *final(owners)) == pass_view(*old(di), *old(owners)).record(f),
        final(di).roots == old(di).roots,
        pass_view(*final(di), *final(owners)).owners_in_graph(),
        old(di).wf() ==> final(di).wf(),
{
    let n = graph_node_count(&di.graph);
    if f.node >= n {
        return ;
    }
    let entry = graph_node(&di.graph, f.node);
    if entry.is_root || entry.path_as_os_str().is_none() {
        return ;
    }
    let ghost before = pass_view(*di, *owners);
    let known = match owners.get(&f.ino) {
        None => None,
        Some(owner) => Some(*owner),
    };
    match known {
        None => {
            owners.insert(f.ino, Owner::One(f.node));
        },
        Some(Owner::One(first)) => {
            let path = join_bytes(SHARED_MARK.as_slice(), graph_node(&di.graph, first).name());
            let shared = graph_add_node(
                &mut di.graph,
                Derivation { path, size: f.len, is_root: false },
            );
            proof {
                let g0 = before.graph;
                let g1 = g0.add_node(shared_node(g0.nodes[first as int], f.len));
                let g2 = g1.add_edge(first, shared);
                let g3 = g2.shrunk(first, f.len);
                g0.lemma_add_node(shared_node(g0.nodes[first as int], f.len));
                g1.lemma_add_edge(first, shared);
                g2.lemma_shrunk(first, f.len);
                g0.lemma_share(first, f.node, f.len);
            }
            graph_add_edge(&mut di.graph, first, shared);
            shrink(&mut di.graph, first, f.len);
            graph_add_edge(&mut di.graph, f.node, shared);
            shrink(&mut di.graph, f.node, f.len);
            owners.insert(f.ino, Owner::Several(shared));
            proof {
                if old(di).wf() {
                    lemma_sources_kept(before.graph, di@.graph, shared);
                }
            }
        },
        Some(Owner::Several(shared)) => {
            proof {
                before.graph.lemma_join(shared, f.node, f.len);
            }
            graph_add_edge(&mut di.graph, f.node, shared);
            shrink(&mut di.graph, f.node, f.len);
            proof {
                if old(di).wf() {
                    lemma_sources_kept(before.graph, di@.graph, shared);
                }
            }
        },
    }
}

/// Records the sightings in their order for as long as each fits, and
/// returns how many were recorded: all of them exactly where all fit, and
/// else the place of the first that does not. The graph is then as the
/// sightings before that one leave it.
pub fn refine_fitting(di: &mut DepInfos, sightings: &Vec<FileSighting>) -> (done: usize)
    ensures
        done <= sightings@.len(),
        PassView::start(old(di)@.graph).fits_all(sightings@.take(done as int)),
        done < sightings@.len() ==> !PassView::start(old(di)@.graph).record_all(
            sightings@.take(done as int),
        ).fits(sightings@[done as int]),
        final(di)@.graph == PassView::start(old(di)@.graph).record_all(
            sightings@.take(done as int),
        ).graph,
        final(di).roots == old(di).roots,
        old(di).wf() ==> final(di).wf(),
{
    let mut owners: BTreeMap<u64, Owner> = BTreeMap::new();
    let ghost start = PassView::start(di@.graph);
    let mut i: usize = 0;
    while i < sightings.len()
        invariant
            i <= sightings@.len(),
            old(di).wf() ==> di.wf(),
            di.roots == old(di).roots,
            start == PassView::start(old(di)@.graph),
            start.fits_all(sightings@.take(i as int)),
            pass_view(*di, owners).owners_in_graph(),
            pass_view(*di, owners) == start.record_all(sightings@.take(i as int)),
        decreases sightings@.len() - i,
    {
        if !sighting_fits(di, &owners, sightings[i]) {
            return i;
        }
        proof {
            let next = sightings@.take(i + 1);
            assert(next.drop_last() =~= sightings@.take(i as int));
            assert forall|k: int| 0 <= k < next.len() implies #[trigger] start.record_all(
                next.take(k),
            ).fits(next[k]) by {
                assert(next.take(k) =~= sightings@.take(i as int).take(k));
                if k == i {
                    assert(next.take(k) =~= sightings@.take(i as int));
                }
            }
        }
        record_file(di, &mut owners, sightings[i]);
        i += 1;
    }
    i
}

/// Moves the size of every file that several store entries share into a
/// shared node. `sightings` lists the regular files that the walks of the
/// store entries came upon, in the order of the walks; the graph afterwards
/// is the one that recording them one by one leaves.
///
/// A second pass over the same graph starts with no inode known and takes
/// the shared sizes from the entries once more: refine a graph once.
pub fn refine_optimized_store(di: &mut DepInfos, sightings: &Vec<FileSighting>)
    requires
        PassView::start(old(di)@.graph).fits_all(sightings@),
    ensures
        final(di)@.graph == PassView::start(old(di)@.graph).record_all(sightings@).graph,
        final(di).roots == old(di).roots,
        old(di).wf() ==> final(di).wf(),
{
    let ghost start = PassView::start(di@.graph);
    let done = refine_fitting(di, sightings);
    proof {
        if done < sightings@.len() {
            assert(start.record_all(sightings@.take(done as int)).fits(sightings@[done as int]));
        }
        assert(sightings@.take(sightings@.len() as int) =~= sightings@);
    }
}

/// An entry of the links directory, as far as it was looked at.
#[derive(Clone, Copy, Debug, PartialEq, Eq)]
pub struct LinkEntry {
    /// The entry is a regular file.
    pub is_file: bool,
    /// The number of hard links to the entry.
    pub nlink: u64,
}

/// The name of the links directory, which lies beside the store entries:
/// `.links`.
pub const LINKS_DIR: [u8; 6] = [0x2e, 0x6c, 0x69, 0x6e, 0x6b, 0x73];

/// The number of entries of the links directory that are looked at.
pub const SAMPLE_SIZE: usize = 10;

/// Among the entries that are looked at, one has more than one hard link,
/// and it and all before it are regular files.
pub open spec fn sample_shows_links(sample: Seq<LinkEntry>) -> bool {
    exists|k: int|
        0 <= k < sample.len() && k < SAMPLE_SIZE && (#[trigger] sample[k]).nlink > 1 && forall|
            j: int,
        | 0 <= j <= k ==> (#[trigger] sample[j]).is_file
}

/// The directory has no more entries than are looked at, and each is a
/// regular file with one hard link at most.
pub open spec fn sample_shows_none(sample: Seq<LinkEntry>) -> bool {
    &&& sample.len() <= SAMPLE_SIZE
    &&& forall|j: int|
        0 <= j < sample.len() ==> (#[trigger] sample[j]).is_file && sample[j].nlink <= 1
}

/// What a sample of the links directory says of the store: optimised,
/// not optimised, or nothing.
pub open spec fn sample_verdict(sample: Seq<LinkEntry>) -> Option<bool> {
    if sample_shows_links(sample) {
        Some(true)
    } else if sample_shows_none(sample) {
        Some(false)
    } else {
        None
    }
}

impl GraphView {
    /// The store entry from whose place the links directory is found: the
    /// neighbor that the first of `roots` got last. `None` where there is no
    /// root, or where the path of that entry is none of the file system.
    pub open spec fn links_anchor(self, roots: Seq<u32>) -> Option<u32> {
        if roots.len() == 0 {
            None
        } else {
            let entry = self.successors(roots[0])[0];
            if self.nodes[entry as int].is_absolute() {
                Some(entry)
            } else {
                None
            }
        }
    }
}

/// Whether the first root, if there is one, has a neighbor.
pub fn first_root_has_child(di: &DepInfos) -> (r: bool)
    ensures
        r == (di.roots@.len() > 0 ==> di@.graph.successors(di.roots@[0]).len() > 0),
{
    di.roots.len() == 0 || graph_first_neighbor(&di.graph, di.roots[0]).is_some()
}

/// The path of the store entry beside which the links directory lies: see
/// [`GraphView::links_anchor`]. The first root must have a neighbor.
pub fn links_anchor(di: &DepInfos) -> (r: Option<&[u8]>)
    requires
        di.roots@.len() > 0 ==> di@.graph.successors(di.roots@[0]).len() > 0,
    ensures
        match di@.graph.links_anchor(di.roots@) {
            Some(entry) => r matches Some(path) && path@ == di@.graph.nodes[entry as int].path,
            None => r is None,
        },
{
    if di.roots.len() == 0 {
        return None;
    }
    let n = graph_node_count(&di.graph);
    match graph_first_neighbor(&di.graph, di.roots[0]) {
        None => None,
        Some(entry) => {
            assert(di@.graph.successors(di.roots@[0])[0] < n);
            graph_node(&di.graph, entry).path_as_os_str()
        },
    }
}

/// Whether the store was optimised, as far as a look at no more than
/// [`SAMPLE_SIZE`] entries of the links directory tells. `sample` holds the
/// entries of that directory in the order in which it yields them; no more
/// than the first `SAMPLE_SIZE` are looked at, and one more only counts.
/// `None` is the answer where there is no root or no links directory to be
/// found from the graph, and where the sample does not tell.
pub fn store_is_optimised(di: &DepInfos, sample: &Vec<LinkEntry>) -> (r: Option<bool>)
    requires
        di.roots@.len() > 0 ==> di@.graph.successors(di.roots@[0]).len() > 0,
    ensures
        r == (if di@.graph.links_anchor(di.roots@) is Some {
            sample_verdict(sample@)
        } else {
            None
        }),
{
    if links_anchor(di).is_none() {
        return None;
    }
    let mut i: usize = 0;
    while i < sample.len() && i < SAMPLE_SIZE
        invariant
            i <= sample@.len(),
            i <= SAMPLE_SIZE,
            di@.graph.links_anchor(di.roots@) is Some,
            forall|j: int| 0 <= j < i ==> (#[trigger] sample@[j]).is_file && sample@[j].nlink <= 1,
        decreases sample@.len() - i,
    {
        if !sample[i].is_file {
            assert(!sample_shows_links(sample@)) by {
                if sample_shows_links(sample@) {
                    let k = choose|k: int|
                        0 <= k < sample@.len() && k < SAMPLE_SIZE && (#[trigger] sample@[k]).nlink
                            > 1 && forall|j: int| 0 <= j <= k ==> (#[trigger] sample@[j]).is_file;
                    if k < i {
                        assert(sample@[k].nlink <= 1);
                    } else {
                        assert(sample@[i as int].is_file);
                    }
                }
            }
            assert(!sample@[i as int].is_file);
            return None;
        }
        if sample[i].nlink > 1 {
            assert(sample_shows_links(sample@)) by {
                assert(sample@[i as int].nlink > 1);
                assert forall|j: int| 0 <= j <= i implies (#[trigger] sample@[j]).is_file by {}
            }
            return Some(true);
        }
        i += 1;
    }
    assert(!sample_shows_links(sample@)) by {
        if sample_shows_links(sample@) {
            let k = choose|k: int|
                0 <= k < sample@.len() && k < SAMPLE_SIZE && (#[trigger] sample@[k]).nlink > 1
                    && forall|j: int| 0 <= j <= k ==> (#[trigger] sample@[j]).is_file;
            assert(sample@[k].nlink <= 1);
        }
    }
    if sample.len() > SAMPLE_SIZE {
        None
    } else {
        Some(false)
    }
}

} // verus!
