use nix_du::depgraph::{
    edge_count, node_count, register_edge, register_node, DepGraph, DepInfos, Derivation,
};
use petgraph::graph::NodeIndex;

fn node(path: &str, size: u64, is_root: bool) -> Derivation {
    Derivation { path: path.as_bytes().to_vec(), size, is_root }
}

fn successors(g: &DepGraph, a: u32) -> Vec<u32> {
    g.neighbors(NodeIndex::new(a as usize)).map(|b| b.index() as u32).collect()
}

/// A root over a diamond: R -> A, A -> B, A -> C, B -> D, C -> D.
fn diamond() -> DepInfos {
    let nodes = vec![
        node("/gcroots/r", 0, true),
        node("/nix/store/aaa-a", 1, false),
        node("/nix/store/bbb-b", 10, false),
        node("/nix/store/ccc-c", 100, false),
        node("/nix/store/ddd-d", 1000, false),
    ];
    let edges = vec![(0, 1), (1, 2), (1, 3), (2, 4), (3, 4)];
    DepInfos::read_from_store(nodes, &edges, 0).unwrap()
}

#[test]
fn counts_of_nodes_and_edges() {
    let mut g = DepGraph::new();
    assert_eq!(node_count(&g), 0);
    assert_eq!(edge_count(&g), 0);
    register_node(&mut g, b"a".to_vec(), 0, false);
    register_node(&mut g, b"b".to_vec(), 0, false);
    register_edge(&mut g, 0, 1);
    register_edge(&mut g, 0, 1);
    register_edge(&mut g, 1, 1);
    assert_eq!(node_count(&g), 2);
    assert_eq!(edge_count(&g), 3);
    let di = diamond();
    assert_eq!(node_count(&di.graph), 5);
    assert_eq!(edge_count(&di.graph), 5);
}

#[test]
fn register_node_appends() {
    let mut g = DepGraph::new();
    register_node(&mut g, b"/nix/store/aaa-a".to_vec(), 7, false);
    register_node(&mut g, b"/gcroots/r".to_vec(), 0, true);
    assert_eq!(g.node_count(), 2);
    assert_eq!(g[NodeIndex::new(0)], node("/nix/store/aaa-a", 7, false));
    assert_eq!(g[NodeIndex::new(1)], node("/gcroots/r", 0, true));
    assert_eq!(g.edge_count(), 0);
}

#[test]
fn register_edge_adds_the_edge_as_given() {
    let mut g = DepGraph::new();
    register_node(&mut g, b"a".to_vec(), 0, false);
    register_node(&mut g, b"b".to_vec(), 0, false);
    register_node(&mut g, b"c".to_vec(), 0, false);
    register_edge(&mut g, 0, 1);
    register_edge(&mut g, 0, 2);
    register_edge(&mut g, 2, 2);
    register_edge(&mut g, 0, 1);
    assert_eq!(g.edge_count(), 4);
    assert_eq!(successors(&g, 0), vec![1, 2, 1]);
    assert_eq!(successors(&g, 1), Vec::<u32>::new());
    assert_eq!(successors(&g, 2), vec![2]);
    assert_eq!(g.node_count(), 3);
}

#[test]
fn new_from_graph_lists_the_flagged_nodes_in_order() {
    let mut g = DepGraph::new();
    register_node(&mut g, b"/gcroots/r1".to_vec(), 0, true);
    register_node(&mut g, b"/nix/store/aaa-a".to_vec(), 5, false);
    register_node(&mut g, b"{memory:1}".to_vec(), 0, true);
    register_node(&mut g, b"/nix/store/bbb-b".to_vec(), 6, false);
    register_edge(&mut g, 0, 1);
    register_edge(&mut g, 2, 3);
    let di = DepInfos::new_from_graph(g);
    assert_eq!(di.roots, vec![0, 2]);
    assert_eq!(di.graph.node_count(), 4);
    assert_eq!(di.graph.edge_count(), 2);
    assert!(di.roots_attr_coherent());
}

#[test]
fn new_from_graph_of_nothing() {
    let di = DepInfos::new_from_graph(DepGraph::new());
    assert!(di.roots.is_empty());
    assert!(di.roots_attr_coherent());
    assert_eq!(di.reachable_size(), 0);
    assert_eq!(di.checked_reachable_size(), Some(0));
}

#[test]
fn a_root_with_an_edge_to_it_is_incoherent() {
    let mut g = DepGraph::new();
    register_node(&mut g, b"/gcroots/r".to_vec(), 0, true);
    register_node(&mut g, b"/nix/store/aaa-a".to_vec(), 5, false);
    register_edge(&mut g, 1, 0);
    let di = DepInfos::new_from_graph(g);
    assert_eq!(di.roots, vec![0]);
    assert!(!di.roots_attr_coherent());
}

#[test]
fn a_root_with_a_loop_is_incoherent() {
    let mut g = DepGraph::new();
    register_node(&mut g, b"/gcroots/r".to_vec(), 0, true);
    register_edge(&mut g, 0, 0);
    assert!(!DepInfos::new_from_graph(g).roots_attr_coherent());
}

#[test]
fn a_wrong_list_of_roots_is_incoherent() {
    let mut di = diamond();
    assert!(di.roots_attr_coherent());
    di.roots = vec![];
    assert!(!di.roots_attr_coherent());
    di.roots = vec![0, 1];
    assert!(!di.roots_attr_coherent());
    di.roots = vec![1];
    assert!(!di.roots_attr_coherent());
    di.roots = vec![0, 5];
    assert!(!di.roots_attr_coherent());
    di.roots = vec![0, 0];
    assert!(di.roots_attr_coherent());
    di.roots = vec![0];
    assert!(di.roots_attr_coherent());
}

#[test]
fn sources_need_not_be_roots() {
    let nodes = vec![node("/gcroots/r", 0, true), node("/nix/store/aaa-a", 1, false)];
    let di = DepInfos::read_from_store(nodes, &vec![], 0).unwrap();
    assert_eq!(di.roots, vec![0]);
    assert!(di.roots_attr_coherent());
    assert_eq!(di.reachable_size(), 0);
}

#[test]
fn reachable_size_counts_the_end_of_a_diamond_once() {
    let di = diamond();
    assert_eq!(di.reachable_size(), 1111);
    assert_eq!(di.checked_reachable_size(), Some(1111));
}

#[test]
fn reachable_size_leaves_out_what_no_root_leads_to() {
    let nodes = vec![
        node("/gcroots/r", 3, true),
        node("/nix/store/aaa-a", 10, false),
        node("/nix/store/bbb-b", 100, false),
        node("/nix/store/ccc-c", 1000, false),
    ];
    let edges = vec![(0, 1), (2, 1), (2, 3)];
    let di = DepInfos::read_from_store(nodes, &edges, 0).unwrap();
    assert_eq!(di.reachable_size(), 13);
}

#[test]
fn reachable_size_with_several_roots_and_a_cycle() {
    let nodes = vec![
        node("/gcroots/r1", 1, true),
        node("/gcroots/r2", 2, true),
        node("/nix/store/aaa-a", 10, false),
        node("/nix/store/bbb-b", 20, false),
        node("/nix/store/ccc-c", 40, false),
    ];
    let edges = vec![(0, 2), (1, 2), (1, 3), (2, 3), (3, 2), (3, 3), (0, 2)];
    let di = DepInfos::read_from_store(nodes, &edges, 0).unwrap();
    assert!(di.roots_attr_coherent());
    assert_eq!(di.reachable_size(), 33);
}

#[test]
fn reachable_size_counts_a_root_listed_twice_once() {
    let mut di = diamond();
    di.graph[NodeIndex::new(0)].size = 5;
    di.roots = vec![0, 0];
    assert!(di.roots_attr_coherent());
    assert_eq!(di.reachable_size(), 1116);
}

#[test]
fn checked_reachable_size_tells_an_overflow() {
    let nodes = vec![
        node("/gcroots/r", 0, true),
        node("/nix/store/aaa-a", u64::MAX, false),
        node("/nix/store/bbb-b", 1, false),
    ];
    let di = DepInfos::read_from_store(nodes, &vec![(0, 1), (0, 2)], 0).unwrap();
    assert_eq!(di.checked_reachable_size(), None);
    let nodes = vec![
        node("/gcroots/r", 0, true),
        node("/nix/store/aaa-a", u64::MAX - 1, false),
        node("/nix/store/bbb-b", 1, false),
    ];
    let di = DepInfos::read_from_store(nodes, &vec![(0, 1), (0, 2)], 0).unwrap();
    assert_eq!(di.checked_reachable_size(), Some(u64::MAX));
    assert_eq!(di.reachable_size(), u64::MAX);
}

#[test]
fn dfs_starts_at_the_roots() {
    let di = diamond();
    let mut dfs = di.dfs();
    assert_eq!(dfs.stack, vec![NodeIndex::new(0)]);
    assert_eq!(dfs.discovered.len(), 5);
    assert_eq!(dfs.discovered.count_ones(..), 0);
    let mut order = Vec::new();
    while let Some(a) = dfs.next(&di.graph) {
        order.push(a.index());
    }
    assert_eq!(order, vec![0, 1, 2, 4, 3]);
}

#[test]
fn dfs_can_be_made_again() {
    let di = diamond();
    let mut first = di.dfs();
    while first.next(&di.graph).is_some() {}
    let mut second = di.dfs();
    let mut count = 0;
    while second.next(&di.graph).is_some() {
        count += 1;
    }
    assert_eq!(count, 5);
}

#[test]
fn read_from_store_builds_nodes_and_edges_in_order() {
    let di = diamond();
    assert_eq!(di.graph.node_count(), 5);
    assert_eq!(di.graph.edge_count(), 5);
    assert_eq!(di.graph[NodeIndex::new(0)], node("/gcroots/r", 0, true));
    assert_eq!(di.graph[NodeIndex::new(4)], node("/nix/store/ddd-d", 1000, false));
    assert_eq!(successors(&di.graph, 0), vec![1]);
    assert_eq!(successors(&di.graph, 1), vec![3, 2]);
    assert_eq!(successors(&di.graph, 2), vec![4]);
    assert_eq!(successors(&di.graph, 3), vec![4]);
    assert_eq!(successors(&di.graph, 4), Vec::<u32>::new());
    assert_eq!(di.roots, vec![0]);
    assert!(di.roots_attr_coherent());
}

#[test]
fn read_from_store_hands_a_failure_on() {
    let nodes = vec![node("/gcroots/r", 0, true)];
    assert_eq!(DepInfos::read_from_store(nodes, &vec![], 1).err(), Some(1));
    assert_eq!(DepInfos::read_from_store(vec![], &vec![], -7).err(), Some(-7));
    assert_eq!(DepInfos::read_from_store(vec![], &vec![(3, 4)], i32::MIN).err(), Some(i32::MIN));
}

#[test]
fn read_from_store_of_an_empty_store() {
    let di = DepInfos::read_from_store(vec![], &vec![], 0).unwrap();
    assert_eq!(di.graph.node_count(), 0);
    assert!(di.roots.is_empty());
}

#[test]
fn roots_name_gives_the_paths_of_the_roots() {
    let nodes = vec![
        node("/gcroots/r1", 0, true),
        node("/nix/store/aaa-a", 5, false),
        node("{temp:1}", 0, true),
    ];
    let di = DepInfos::read_from_store(nodes, &vec![(0, 1), (2, 1)], 0).unwrap();
    assert_eq!(di.roots_name(), vec![b"/gcroots/r1".to_vec(), b"{temp:1}".to_vec()]);
}

#[test]
fn a_clone_is_a_graph_of_its_own() {
    let di = diamond();
    let mut copy = di.clone();
    assert_eq!(copy.roots, di.roots);
    assert_eq!(copy.graph.node_count(), 5);
    assert_eq!(successors(&copy.graph, 1), vec![3, 2]);
    register_node(&mut copy.graph, b"/nix/store/eee-e".to_vec(), 1, false);
    register_edge(&mut copy.graph, 4, 5);
    copy.graph[NodeIndex::new(1)].size = 50;
    assert_eq!(di.graph.node_count(), 5);
    assert_eq!(di.graph.edge_count(), 5);
    assert_eq!(di.reachable_size(), 1111);
    assert_eq!(copy.reachable_size(), 1161);
}
