use crate::bytes::{
    first_index, is_absent, is_first_at, is_last_at, last_index, lemma_first_index,
    lemma_first_index_is, lemma_index_of_absent, lemma_last_index, lemma_last_index_is,
    starts_with,
};
use crate::graph::{lemma_roots_below, GraphView};
use crate::graph_ops::{
    dfs_discovered, dfs_empty, dfs_next, dfs_push, dfs_stack, dfs_visit, graph_add_edge,
    graph_add_node, graph_clone, graph_edge_count, graph_new, graph_node, graph_node_count,
    graph_sources, graph_view,
};
use crate::reach::{below, lemma_below_part, lemma_discover, lemma_push_fresh};
use vstd::prelude::*;
use vstd::slice::slice_to_vec;

verus! {

/// The byte that separates the components of a path.
pub const SLASH: u8 = 0x2f;

/// The byte that ends the hash at the head of a store entry's file name.
pub const DASH: u8 = 0x2d;

/// How the path of a root held in memory begins: `{memory:`.
pub const MEMORY_MARK: [u8; 8] = [0x7b, 0x6d, 0x65, 0x6d, 0x6f, 0x72, 0x79, 0x3a];

/// How the path of a temporary root begins: `{temp:`.
pub const TEMP_MARK: [u8; 6] = [0x7b, 0x74, 0x65, 0x6d, 0x70, 0x3a];

/// What a [`Derivation`] is, as mathematics: its path as a sequence of
/// bytes, its size and its root flag.
pub struct DerivationView {
    pub path: Seq<u8>,
    pub size: u64,
    pub is_root: bool,
}

/// A node of the dependency graph: one store entry, a root, or a synthetic
/// node that stands for content shared between entries.
#[derive(Clone, Debug, PartialEq, Eq, PartialOrd, Ord)]
pub struct Derivation {
    pub path: Vec<u8>,
    pub size: u64,
    pub is_root: bool,
}

impl View for Derivation {
    type V = DerivationView;

    open spec fn view(&self) -> DerivationView {
        DerivationView { path: self.path@, size: self.size, is_root: self.is_root }
    }
}

impl DerivationView {
    /// The name of the node: the whole path for a root and for a path
    /// without `/`; else what follows the last `/` and, in that, the first
    /// `-`, or all of what follows the last `/` where it holds no `-`.
    pub open spec fn name(self) -> Seq<u8> {
        if self.is_root {
            self.path
        } else {
            match last_index(self.path, SLASH) {
                None => self.path,
                Some(i) => {
                    let file = self.path.skip(i + 1);
                    match first_index(file, DASH) {
                        None => file,
                        Some(j) => file.skip(j + 1),
                    }
                },
            }
        }
    }

    /// The name of a root is its whole path.
    pub proof fn lemma_name_of_root(self)
        requires
            self.is_root,
        ensures
            self.name() == self.path,
    {
    }

    /// The name of a node whose path holds no `/` is the whole path.
    pub proof fn lemma_name_without_slash(self)
        requires
            is_absent(self.path, SLASH),
        ensures
            self.name() == self.path,
    {
        lemma_index_of_absent(self.path, SLASH);
    }

    /// Where the last `/` of the path is at `i` and no `-` follows it, the
    /// name of a node that is no root is what follows that `/`.
    pub proof fn lemma_name_without_dash(self, i: int)
        requires
            !self.is_root,
            is_last_at(self.path, SLASH, i),
            is_absent(self.path.skip(i + 1), DASH),
        ensures
            self.name() == self.path.skip(i + 1),
    {
        lemma_last_index_is(self.path, SLASH, i);
        lemma_index_of_absent(self.path.skip(i + 1), DASH);
    }

    /// Where the last `/` of the path is at `i` and the first `-` after it
    /// is `j` bytes further on, the name of a node that is no root is what
    /// follows that `-`.
    pub proof fn lemma_name_after_dash(self, i: int, j: int)
        requires
            !self.is_root,
            is_last_at(self.path, SLASH, i),
            is_first_at(self.path.skip(i + 1), DASH, j),
        ensures
            self.name() == self.path.skip(i + 1 + j + 1),
    {
        lemma_last_index_is(self.path, SLASH, i);
        lemma_first_index_is(self.path.skip(i + 1), DASH, j);
        assert(self.path.skip(i + 1).skip(j + 1) =~= self.path.skip(i + 1 + j + 1));
    }

    /// The path begins with one of the two marks of a transient root.
    pub open spec fn is_transient_root(self) -> bool {
        MEMORY_MARK@.is_prefix_of(self.path) || TEMP_MARK@.is_prefix_of(self.path)
    }

    /// The path is one of the file system: it begins with `/`.
    pub open spec fn is_absolute(self) -> bool {
        self.path.len() > 0 && self.path[0] == SLASH
    }
}

impl Derivation {
    /// An empty, zero-sized node that is no root.
    pub fn dummy() -> (d: Self)
        ensures
            d@ == (DerivationView { path: Seq::empty(), size: 0, is_root: false }),
    {
        Derivation { path: Vec::new(), size: 0, is_root: false }
    }

    /// The name of the node, `blah` where the path is
    /// `/nix/store/<hash>-blah`.
    pub fn name(&self) -> (r: &[u8])
        ensures
            r@ == self@.name(),
    {
        let whole = self.path.as_slice();
        if self.is_root {
            whole
        } else {
            proof {
                lemma_last_index(whole@, SLASH);
            }
            match memchr::memrchr(SLASH, whole) {
                None => whole,
                Some(i) => {
                    let end = whole.len();
                    let file = &whole[i + 1..end];
                    assert(file@ =~= whole@.skip(i + 1));
                    proof {
                        lemma_first_index(file@, DASH);
                    }
                    match memchr::memchr(DASH, file) {
                        None => file,
                        Some(j) => {
                            let end = file.len();
                            let rest = &file[j + 1..end];
                            assert(rest@ =~= file@.skip(j + 1));
                            rest
                        },
                    }
                },
            }
        }
    }

    /// Whether this node is a root held in memory or a temporary one.
    pub fn is_transient_root(&self) -> (r: bool)
        ensures
            r == self@.is_transient_root(),
    {
        starts_with(self.path.as_slice(), MEMORY_MARK.as_slice()) || starts_with(
            self.path.as_slice(),
            TEMP_MARK.as_slice(),
        )
    }

    /// The bytes of the path where it is one of the file system, that is
    /// where it begins with `/`.
    pub fn path_as_os_str(&self) -> (r: Option<&[u8]>)
        ensures
            r.is_some() == self@.is_absolute(),
            r matches Some(p) ==> p@ == self.path@,
    {
        if self.path.len() > 0 && self.path[0] == SLASH {
            Some(self.path.as_slice())
        } else {
            None
        }
    }
}

/// The weight of an edge: nothing.
pub type Edge = ();

/// The dependency graph: a directed graph of derivations with 32-bit
/// indices.
pub type DepGraph = petgraph::graph::Graph<Derivation, Edge, petgraph::Directed>;

/// A depth-first traversal of a dependency graph.
pub type RootDfs = petgraph::visit::Dfs<petgraph::graph::NodeIndex, fixedbitset::FixedBitSet>;

/// The number of nodes of `g`.
pub fn node_count(g: &DepGraph) -> (n: u32)
    ensures
        n == graph_view(*g).nodes.len(),
        graph_view(*g).wf(),
{
    graph_node_count(g)
}

/// The number of edges of `g`.
pub fn edge_count(g: &DepGraph) -> (m: u32)
    ensures
        m == graph_view(*g).edge_count(),
{
    graph_edge_count(g)
}

/// Adds to `g` a node with the given path, size and root flag. Its index is
/// the number of nodes that `g` held before.
pub fn register_node(g: &mut DepGraph, path: Vec<u8>, size: u64, is_root: bool)
    requires
        graph_view(*old(g)).nodes.len() < u32::MAX,
    ensures
        graph_view(*final(g)) == graph_view(*old(g)).add_node(
            DerivationView { path: path@, size, is_root },
        ),
{
    graph_add_node(g, Derivation { path, size, is_root });
}

/// Adds to `g` an edge from node `from` to node `to`.
pub fn register_edge(g: &mut DepGraph, from: u32, to: u32)
    requires
        graph_view(*old(g)).has_node(from),
        graph_view(*old(g)).has_node(to),
        graph_view(*old(g)).edge_count() < u32::MAX,
    ensures
        graph_view(*final(g)) == graph_view(*old(g)).add_edge(from, to),
{
    graph_add_edge(g, from, to);
}

/// What a [`DepInfos`] is, as mathematics: what its graph holds, and the
/// list of its roots.
pub struct DepInfosView {
    pub graph: GraphView,
    pub roots: Seq<u32>,
}

impl DepInfosView {
    /// The list of roots holds exactly the indices of the nodes that are
    /// flagged as roots.
    pub open spec fn roots_match_flags(self) -> bool {
        forall|a: u32|
            self.roots.contains(a) <==> self.graph.has_node(a) && self.graph.nodes[a as int].is_root
    }

    /// The nodes that a walk from a root leads to.
    pub open spec fn reachable(self) -> Set<u32> {
        self.graph.reachable(self.roots)
    }

    /// The sum of the sizes of the nodes that a walk from a root leads to,
    /// each counted once.
    pub open spec fn reachable_size(self) -> nat {
        self.graph.size_of(self.reachable())
    }

    /// Every listed root is a node of the graph.
    pub open spec fn roots_in_graph(self) -> bool {
        forall|k: int| 0 <= k < self.roots.len() ==> self.graph.has_node(#[trigger] self.roots[k])
    }

    /// Node `a` is listed as a root exactly where it is flagged as one, and
    /// then no edge ends at it.
    pub open spec fn node_is_coherent(self, a: u32) -> bool {
        &&& self.graph.nodes[a as int].is_root <==> self.roots.contains(a)
        &&& self.graph.nodes[a as int].is_root ==> !self.graph.has_incoming(a)
    }

    /// The graph is well formed, the list of roots holds exactly the nodes
    /// that are flagged as roots, and no edge ends at one of them.
    pub open spec fn coherent(self) -> bool {
        &&& self.graph.wf()
        &&& self.roots_match_flags()
        &&& self.graph.flags_are_sources()
    }
}

impl DepInfosView {
    /// In a coherent value the listed roots are exactly the nodes that are
    /// flagged as roots, and each of them is a node that no edge ends at.
    pub proof fn lemma_roots_of_coherent(self)
        requires
            self.coherent(),
        ensures
            self.roots_in_graph(),
            self.roots.to_set() == Set::new(
                |a: u32| self.graph.has_node(a) && self.graph.nodes[a as int].is_root,
            ),
            self.roots.to_set().subset_of(Set::new(|a: u32| self.graph.is_source(a))),
    {
        assert forall|k: int| 0 <= k < self.roots.len() implies self.graph.has_node(
            #[trigger] self.roots[k],
        ) by {
            assert(self.roots.contains(self.roots[k]));
        }
        assert(self.roots.to_set() =~= Set::new(
            |a: u32| self.graph.has_node(a) && self.graph.nodes[a as int].is_root,
        ));
    }
}

/// A dependency graph, with the list of the indices of its roots.
#[derive(Debug)]
pub struct DepInfos {
    pub graph: DepGraph,
    pub roots: Vec<u32>,
}

impl View for DepInfos {
    type V = DepInfosView;

    open spec fn view(&self) -> DepInfosView {
        DepInfosView { graph: graph_view(self.graph), roots: self.roots@ }
    }
}

impl Clone for DepInfos {
    /// A copy with the same graph and the same list of roots.
    fn clone(&self) -> (copy: Self)
        ensures
            copy@ == self@,
    {
        DepInfos { graph: graph_clone(&self.graph), roots: self.roots.clone() }
    }
}

impl DepInfos {
    /// The invariant of the type: graph and list of roots are coherent.
    pub open spec fn wf(&self) -> bool {
        self@.coherent()
    }

    /// Pairs `g` with the list of its roots: the indices of the nodes that
    /// are flagged as roots, in rising order. The result is coherent exactly
    /// where no edge of `g` ends at a flagged node.
    pub fn new_from_graph(g: DepGraph) -> (di: Self)
        ensures
            di.graph == g,
            di.roots@ == graph_view(g).flagged_roots(),
            di@.graph.wf(),
            di@.roots_match_flags(),
            di.wf() <==> graph_view(g).flags_are_sources(),
    {
        let n = graph_node_count(&g);
        let mut roots: Vec<u32> = Vec::new();
        let mut a: u32 = 0;
        while a < n
            invariant
                a <= n == graph_view(g).nodes.len(),
                roots@ == graph_view(g).roots_below(a as nat),
            decreases n - a,
        {
            if graph_node(&g, a).is_root {
                roots.push(a);
            }
            a += 1;
        }
        proof {
            lemma_roots_below(graph_view(g), n as nat);
        }
        DepInfos { graph: g, roots }
    }

    /// The sum of the sizes of all the nodes that can be reached from a
    /// root, each counted once, or `None` where the sum is more than a `u64`
    /// holds.
    pub fn checked_reachable_size(&self) -> (r: Option<u64>)
        requires
            self@.roots_in_graph(),
        ensures
            r == (if self@.reachable_size() <= u64::MAX {
                Some(self@.reachable_size() as u64)
            } else {
                None
            }),
    {
        let ghost g = self@.graph;
        let n = graph_node_count(&self.graph);
        let mut dfs = dfs_empty(&self.graph);
        assert forall|k: int| 0 <= k < self.roots@.len() implies (#[trigger] self.roots@[k])
            < n by {
            assert(self@.graph.has_node(self@.roots[k]));
        }
        let mut i: usize = 0;
        while i < self.roots.len()
            invariant
                i <= self.roots@.len(),
                n == g.nodes.len(),
                forall|k: int| 0 <= k < self.roots@.len() ==> (#[trigger] self.roots@[k]) < n,
                dfs_discovered(dfs).len() == n,
                dfs_stack(dfs).no_duplicates(),
                forall|a: u32|
                    a < n ==> (dfs_discovered(dfs)[a as int] <==> dfs_stack(dfs).contains(a)),
                forall|k: int|
                    0 <= k < dfs_stack(dfs).len() ==> self.roots@.contains(
                        #[trigger] dfs_stack(dfs)[k],
                    ),
                forall|k: int| 0 <= k < i ==> dfs_discovered(dfs)[(#[trigger] self.roots@[k]) as int],
            decreases self.roots@.len() - i,
        {
            let root = self.roots[i];
            assert(self.roots@.contains(root));
            let ghost stack = dfs_stack(dfs);
            if dfs_visit(&mut dfs, root) {
                dfs_push(&mut dfs, root);
                proof {
                    assert(!stack.contains(root));
                    lemma_push_fresh(stack, root);
                }
            }
            i += 1;
        }
        let mut sum: u64 = 0;
        let ghost mut done: Set<u32> = Set::empty();
        proof {
            assert forall|a: u32| a < n && dfs_discovered(dfs)[a as int] implies g.reaches(
                self.roots@,
                a,
            ) by {
                let k = choose|k: int| 0 <= k < dfs_stack(dfs).len() && dfs_stack(dfs)[k] == a;
                assert(self.roots@.contains(dfs_stack(dfs)[k]));
                g.lemma_reaches_start(self.roots@, a);
            }
            assert forall|k: int| 0 <= k < dfs_stack(dfs).len() implies (#[trigger] dfs_stack(
                dfs,
            )[k]) < n by {
                assert(self.roots@.contains(dfs_stack(dfs)[k]));
            }
            g.lemma_size_empty(n as nat);
        }
        loop
            invariant
                g.wf(),
                g == self@.graph,
                n == g.nodes.len(),
                dfs_discovered(dfs).len() == n,
                dfs_stack(dfs).no_duplicates(),
                done.subset_of(below(n as nat)),
                sum == g.size_of(done),
                forall|a: u32|
                    a < n ==> (dfs_discovered(dfs)[a as int] <==> done.contains(a) || dfs_stack(
                        dfs,
                    ).contains(a)),
                forall|k: int|
                    0 <= k < dfs_stack(dfs).len() ==> (#[trigger] dfs_stack(dfs)[k]) < n
                        && !done.contains(dfs_stack(dfs)[k]),
                forall|a: u32, b: u32|
                    done.contains(a) && #[trigger] g.has_edge(a, b) ==> b < n && dfs_discovered(
                        dfs,
                    )[b as int],
                forall|a: u32|
                    a < n && dfs_discovered(dfs)[a as int] ==> #[trigger] g.reaches(self.roots@, a),
                forall|k: int|
                    0 <= k < self.roots@.len() ==> (#[trigger] self.roots@[k]) < n
                        && dfs_discovered(dfs)[self.roots@[k] as int],
            ensures
                done == self@.reachable(),
                sum == g.size_of(done),
            decreases n - done.len(),
        {
            let ghost stack = dfs_stack(dfs);
            let ghost seen = dfs_discovered(dfs);
            proof {
                lemma_below_part(done, n as nat);
            }
            match dfs_next(&mut dfs, &self.graph) {
                None => {
                    proof {
                        assert forall|a: u32| self.roots@.contains(a) implies done.contains(a) by {
                            let k = choose|k: int| 0 <= k < self.roots@.len() && self.roots@[k] == a;
                            assert(self.roots@[k] < n && seen[self.roots@[k] as int]);
                        }
                        g.lemma_closed_holds_reachable(self.roots@, done);
                        assert(done =~= self@.reachable());
                    }
                    break ;
                },
                Some(a) => {
                    let ghost rest = stack.drop_last();
                    let ghost succ = g.successors(a);
                    proof {
                        assert(stack[stack.len() - 1] == a);
                        assert(stack.contains(a));
                        assert(stack =~= rest.push(a));
                        assert forall|b: u32| stack.contains(b) <==> rest.contains(b) || b == a by {
                            vstd::seq_lib::lemma_seq_contains_after_push(rest, a, b);
                        }
                        assert(!rest.contains(a)) by {
                            if rest.contains(a) {
                                let k = choose|k: int| 0 <= k < rest.len() && rest[k] == a;
                                assert(stack[k] == stack[stack.len() - 1]);
                            }
                        }
                        assert forall|k: int| 0 <= k < rest.len() implies rest[k] < seen.len()
                            && seen[rest[k] as int] by {
                            assert(stack[k] == rest[k]);
                            assert(stack.contains(stack[k]));
                        }
                        lemma_discover(rest, seen, succ);
                        assert forall|b: u32| succ.contains(b) implies g.reaches(self.roots@, b) by {
                            assert(g.has_edge(a, b));
                            g.lemma_reaches_step(self.roots@, a, b);
                        }
                        g.lemma_size_insert(done, a, n as nat);
                        g.lemma_size_subset(done.insert(a), self@.reachable(), n as nat);
                        lemma_below_part(done.insert(a), n as nat);
                    }
                    let size = graph_node(&self.graph, a).size;
                    match sum.checked_add(size) {
                        None => {
                            return None;
                        },
                        Some(more) => {
                            sum = more;
                        },
                    }
                    proof {
                        done = done.insert(a);
                        assert forall|k: int| 0 <= k < dfs_stack(dfs).len() implies (
                        #[trigger] dfs_stack(dfs)[k]) < n && !done.contains(dfs_stack(dfs)[k]) by {
                            let b = dfs_stack(dfs)[k];
                            assert(dfs_stack(dfs).contains(b));
                            if rest.contains(b) {
                                let j = choose|j: int| 0 <= j < rest.len() && rest[j] == b;
                                assert(stack[j] == b);
                            }
                        }
                    }
                },
            }
        }
        Some(sum)
    }

    /// The sum of the sizes of all the nodes that can be reached from a
    /// root, each counted once.
    pub fn reachable_size(&self) -> (sum: u64)
        requires
            self@.roots_in_graph(),
            self@.reachable_size() <= u64::MAX,
        ensures
            sum == self@.reachable_size(),
    {
        self.checked_reachable_size().unwrap()
    }

    /// A traversal that visits, depth first, the nodes that can be reached
    /// from a root: the roots are on its stack, the first of them lowest, and
    /// no node is marked as discovered.
    pub fn dfs(&self) -> (d: RootDfs)
        ensures
            dfs_stack(d) == self.roots@,
            dfs_discovered(d) == Seq::new(self@.graph.nodes.len(), |i: int| false),
    {
        let mut d = dfs_empty(&self.graph);
        let mut i: usize = 0;
        while i < self.roots.len()
            invariant
                i <= self.roots@.len(),
                dfs_stack(d) == self.roots@.take(i as int),
                dfs_discovered(d) == Seq::new(self@.graph.nodes.len(), |i: int| false),
            decreases self.roots@.len() - i,
        {
            dfs_push(&mut d, self.roots[i]);
            assert(self.roots@.take(i + 1) =~= self.roots@.take(i as int).push(self.roots@[i as int]));
            i += 1;
        }
        assert(self.roots@.take(self.roots@.len() as int) =~= self.roots@);
        d
    }

    /// The paths of the roots, in the order of the list of roots.
    pub fn roots_name(&self) -> (names: Vec<Vec<u8>>)
        requires
            self@.roots_in_graph(),
        ensures
            names@.len() == self.roots@.len(),
            forall|k: int|
                0 <= k < names@.len() ==> (#[trigger] names@[k])@
                    == self@.graph.nodes[self.roots@[k] as int].path,
    {
        let n = graph_node_count(&self.graph);
        let mut names: Vec<Vec<u8>> = Vec::new();
        let mut i: usize = 0;
        while i < self.roots.len()
            invariant
                i <= self.roots@.len(),
                self@.roots_in_graph(),
                n == self@.graph.nodes.len(),
                names@.len() == i,
                forall|k: int|
                    0 <= k < names@.len() ==> (#[trigger] names@[k])@
                        == self@.graph.nodes[self.roots@[k] as int].path,
            decreases self.roots@.len() - i,
        {
            let root = self.roots[i];
            assert(self@.graph.has_node(self@.roots[i as int]));
            names.push(slice_to_vec(graph_node(&self.graph, root).path.as_slice()));
            i += 1;
        }
        names
    }

    /// Whether the list of roots holds exactly the nodes that are flagged
    /// as roots, and no edge ends at one of them.
    pub fn roots_attr_coherent(&self) -> (r: bool)
        ensures
            r == self@.coherent(),
    {
        let ghost g = self@.graph;
        let n = graph_node_count(&self.graph);
        assert(g.wf());
        let mut listed = falses(n);
        let mut i: usize = 0;
        while i < self.roots.len()
            invariant
                i <= self.roots@.len(),
                listed@.len() == n,
                n == g.nodes.len(),
                g == self@.graph,
                forall|a: u32|
                    a < n ==> (listed@[a as int] <==> self.roots@.take(i as int).contains(a)),
                forall|k: int| 0 <= k < i ==> (#[trigger] self.roots@[k]) < n,
            decreases self.roots@.len() - i,
        {
            let root = self.roots[i];
            if root >= n {
                assert(self.roots@.contains(root));
                assert(!g.has_node(root));
                return false;
            }
            listed.set(root as usize, true);
            proof {
                let before = self.roots@.take(i as int);
                assert(self.roots@.take(i + 1) =~= before.push(root));
                assert forall|a: u32| #[trigger]
                    before.push(root).contains(a) <==> before.contains(a) || a == root by {
                    vstd::seq_lib::lemma_seq_contains_after_push(before, root, a);
                }
            }
            i += 1;
        }
        assert(self.roots@.take(self.roots@.len() as int) =~= self.roots@);
        assert forall|a: u32| self.roots@.contains(a) implies a < n by {
            let k = choose|k: int| 0 <= k < self.roots@.len() && self.roots@[k] == a;
            assert(self.roots@[k] < n);
        }
        let sources = graph_sources(&self.graph);
        let mut source = falses(n);
        let mut j: usize = 0;
        while j < sources.len()
            invariant
                j <= sources@.len(),
                source@.len() == n,
                n == g.nodes.len(),
                forall|b: u32| sources@.contains(b) <==> g.is_source(b),
                forall|a: u32|
                    a < n ==> (source@[a as int] <==> sources@.take(j as int).contains(a)),
            decreases sources@.len() - j,
        {
            let b = sources[j];
            assert(sources@.contains(b));
            assert(g.is_source(b));
            source.set(b as usize, true);
            proof {
                let before = sources@.take(j as int);
                assert(sources@.take(j + 1) =~= before.push(b));
                assert forall|a: u32| #[trigger]
                    before.push(b).contains(a) <==> before.contains(a) || a == b by {
                    vstd::seq_lib::lemma_seq_contains_after_push(before, b, a);
                }
            }
            j += 1;
        }
        assert(sources@.take(sources@.len() as int) =~= sources@);
        let mut a: u32 = 0;
        while a < n
            invariant
                a <= n,
                n == g.nodes.len(),
                g == self@.graph,
                listed@.len() == n,
                source@.len() == n,
                forall|b: u32| self.roots@.contains(b) ==> b < n,
                forall|b: u32| b < n ==> (listed@[b as int] <==> self.roots@.contains(b)),
                forall|b: u32| b < n ==> (source@[b as int] <==> g.is_source(b)),
                forall|b: u32| b < a ==> #[trigger] self@.node_is_coherent(b),
            decreases n - a,
        {
            let d = graph_node(&self.graph, a);
            assert(listed@[a as int] <==> self.roots@.contains(a));
            assert(source@[a as int] <==> g.is_source(a));
            assert(g.has_node(a));
            if d.is_root != listed[a as usize] {
                return false;
            }
            if d.is_root && !source[a as usize] {
                assert(g.has_incoming(a));
                return false;
            }
            a += 1;
        }
        assert forall|b: u32|
            self.roots@.contains(b) <==> g.has_node(b) && g.nodes[b as int].is_root by {
            if self.roots@.contains(b) || g.has_node(b) {
                assert(self@.node_is_coherent(b));
            }
        }
        assert forall|b: u32| g.has_node(b) && g.nodes[b as int].is_root implies !g.has_incoming(
            b,
        ) by {
            assert(self@.node_is_coherent(b));
        }
        true
    }

    /// The dependency graph that a store has handed over: the nodes `nodes`
    /// in their order, and an edge from the first to the second node of each
    /// pair of `edges`; `status` is what the store said of the handing over.
    /// Any status but 0 is a failure, and is returned as it is.
    pub fn read_from_store(nodes: Vec<Derivation>, edges: &Vec<(u32, u32)>, status: i32) -> (r:
        Result<Self, i32>)
        requires
            status == 0 ==> nodes@.len() <= u32::MAX && edges@.len() <= u32::MAX,
            status == 0 ==> forall|k: int|
                0 <= k < edges@.len() ==> (#[trigger] edges@[k]).0 < nodes@.len() && edges@[k].1
                    < nodes@.len(),
        ensures
            match r {
                Ok(di) => {
                    &&& status == 0
                    &&& di@.graph == GraphView::build(views(nodes@), edges@)
                    &&& di.roots@ == di@.graph.flagged_roots()
                    &&& di.wf() <==> di@.graph.flags_are_sources()
                },
                Err(code) => status != 0 && code == status,
            },
    {
        if status != 0 {
            return Err(status);
        }
        let ghost ds = views(nodes@);
        let mut g = graph_new();
        assert(graph_view(g) == GraphView::empty().with_nodes(ds.take(0)));
        for d in it: nodes
            invariant
                it.seq().len() <= u32::MAX,
                views(it.seq()) == ds,
                graph_view(g) == GraphView::empty().with_nodes(ds.take(it.index())),
        {
            proof {
                GraphView::lemma_with_nodes(ds.take(it.index()));
                assert(ds.take(it.index() + 1).drop_last() =~= ds.take(it.index()));
            }
            graph_add_node(&mut g, d);
        }
        assert(ds.take(ds.len() as int) =~= ds);
        let ghost base = graph_view(g);
        proof {
            GraphView::lemma_with_nodes(ds);
        }
        let mut k: usize = 0;
        while k < edges.len()
            invariant
                k <= edges@.len() <= u32::MAX,
                base.wf(),
                base.edge_count() == 0,
                base.nodes.len() == ds.len(),
                forall|k: int|
                    0 <= k < edges@.len() ==> (#[trigger] edges@[k]).0 < ds.len() && edges@[k].1
                        < ds.len(),
                graph_view(g) == base.with_edges(edges@.take(k as int)),
            decreases edges@.len() - k,
        {
            proof {
                base.lemma_with_edges(edges@.take(k as int));
                assert(edges@.take(k + 1).drop_last() =~= edges@.take(k as int));
            }
            let (from, to) = edges[k];
            register_edge(&mut g, from, to);
            k += 1;
        }
        assert(edges@.take(edges@.len() as int) =~= edges@);
        Ok(DepInfos::new_from_graph(g))
    }
}

/// What each of `ds` is, as mathematics.
pub open spec fn views(ds: Seq<Derivation>) -> Seq<DerivationView> {
    ds.map_values(|d: Derivation| d@)
}

/// `n` times `false`.
fn falses(n: u32) -> (v: Vec<bool>)
    ensures
        v@ == Seq::new(n as nat, |i: int| false),
{
    let mut v: Vec<bool> = Vec::new();
    let mut i: u32 = 0;
    while i < n
        invariant
            i <= n,
            v@ == Seq::new(i as nat, |i: int| false),
        decreases n - i,
    {
        v.push(false);
        assert(v@ =~= Seq::new((i + 1) as nat, |i: int| false));
        i += 1;
    }
    v
}

} // verus!
