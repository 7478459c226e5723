use nix_du::depgraph::{DepInfos, Derivation};
use nix_du::opt::{
    first_root_has_child, links_anchor, store_is_optimised, LinkEntry, LINKS_DIR, SAMPLE_SIZE,
};

fn node(path: &str, size: u64, is_root: bool) -> Derivation {
    Derivation { path: path.as_bytes().to_vec(), size, is_root }
}

fn file(nlink: u64) -> LinkEntry {
    LinkEntry { is_file: true, nlink }
}

fn other(nlink: u64) -> LinkEntry {
    LinkEntry { is_file: false, nlink }
}

fn store() -> DepInfos {
    let nodes = vec![
        node("/gcroots/r", 0, true),
        node("/nix/store/aaa-a", 1, false),
        node("/nix/store/bbb-b", 2, false),
    ];
    DepInfos::read_from_store(nodes, &vec![(0, 1), (0, 2)], 0).unwrap()
}

fn without_roots() -> DepInfos {
    let nodes = vec![node("/nix/store/aaa-a", 1, false), node("/nix/store/bbb-b", 2, false)];
    DepInfos::read_from_store(nodes, &vec![(0, 1)], 0).unwrap()
}

#[test]
fn sample_size_is_ten() {
    assert_eq!(SAMPLE_SIZE, 10);
}

#[test]
fn the_links_directory_is_called_links() {
    assert_eq!(&LINKS_DIR[..], &b".links"[..]);
}

#[test]
fn first_root_has_child_looks_at_the_first_root_only() {
    assert!(first_root_has_child(&store()));
    assert!(first_root_has_child(&without_roots()));
    let nodes = vec![
        node("/gcroots/r1", 0, true),
        node("/gcroots/r2", 0, true),
        node("/nix/store/aaa-a", 1, false),
    ];
    let di = DepInfos::read_from_store(nodes, &vec![(1, 2)], 0).unwrap();
    assert!(!first_root_has_child(&di));
    let mut di = di;
    di.roots = vec![1, 0];
    assert!(first_root_has_child(&di));
}

#[test]
fn without_roots_nothing_is_known() {
    let di = without_roots();
    assert_eq!(links_anchor(&di), None);
    assert_eq!(store_is_optimised(&di, &vec![]), None);
    assert_eq!(store_is_optimised(&di, &vec![file(1)]), None);
    assert_eq!(store_is_optimised(&di, &vec![file(2)]), None);
}

#[test]
fn the_anchor_is_the_neighbor_that_the_first_root_got_last() {
    assert_eq!(links_anchor(&store()), Some(&b"/nix/store/bbb-b"[..]));
}

#[test]
fn an_anchor_without_a_path_tells_nothing() {
    let nodes = vec![node("/gcroots/r", 0, true), node("{memory:1}", 1, false)];
    let di = DepInfos::read_from_store(nodes, &vec![(0, 1)], 0).unwrap();
    assert_eq!(links_anchor(&di), None);
    assert_eq!(store_is_optimised(&di, &vec![file(2)]), None);
    assert_eq!(store_is_optimised(&di, &vec![file(1)]), None);
}

#[test]
fn eleven_entries_with_one_link_each_tell_nothing() {
    let di = store();
    assert_eq!(store_is_optimised(&di, &vec![file(1); 11]), None);
    assert_eq!(store_is_optimised(&di, &vec![file(1); 50]), None);
}

#[test]
fn up_to_ten_entries_with_one_link_each_say_no() {
    let di = store();
    assert_eq!(store_is_optimised(&di, &vec![]), Some(false));
    assert_eq!(store_is_optimised(&di, &vec![file(1)]), Some(false));
    assert_eq!(store_is_optimised(&di, &vec![file(1); 10]), Some(false));
    assert_eq!(store_is_optimised(&di, &vec![file(0), file(1)]), Some(false));
}

#[test]
fn an_entry_with_more_links_among_the_first_ten_says_yes() {
    let di = store();
    assert_eq!(store_is_optimised(&di, &vec![file(2)]), Some(true));
    assert_eq!(store_is_optimised(&di, &vec![file(1), file(1), file(3), file(1)]), Some(true));
    let mut sample = vec![file(1); 9];
    sample.push(file(2));
    assert_eq!(store_is_optimised(&di, &sample), Some(true));
    sample.push(file(1));
    sample.push(file(1));
    assert_eq!(store_is_optimised(&di, &sample), Some(true));
}

#[test]
fn the_eleventh_entry_is_not_looked_at() {
    let di = store();
    let mut sample = vec![file(1); 10];
    sample.push(file(2));
    assert_eq!(store_is_optimised(&di, &sample), None);
    let mut sample = vec![file(1); 10];
    sample.push(other(1));
    assert_eq!(store_is_optimised(&di, &sample), None);
}

#[test]
fn an_entry_that_is_no_file_tells_nothing() {
    let di = store();
    assert_eq!(store_is_optimised(&di, &vec![other(1)]), None);
    assert_eq!(store_is_optimised(&di, &vec![other(2)]), None);
    assert_eq!(store_is_optimised(&di, &vec![file(1), other(1), file(2)]), None);
}

#[test]
fn what_comes_first_decides() {
    let di = store();
    assert_eq!(store_is_optimised(&di, &vec![file(2), other(1)]), Some(true));
    assert_eq!(store_is_optimised(&di, &vec![other(1), file(2)]), None);
}
