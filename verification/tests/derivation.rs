use nix_du::bytes::{join_bytes, starts_with};
use nix_du::depgraph::Derivation;

fn drv(path: &[u8], is_root: bool) -> Derivation {
    Derivation { path: path.to_vec(), size: 0, is_root }
}

#[test]
fn dummy_is_empty() {
    let d = Derivation::dummy();
    assert!(d.path.is_empty());
    assert_eq!(d.size, 0);
    assert!(!d.is_root);
}

#[test]
fn name_strips_directory_and_hash() {
    assert_eq!(drv(b"/nix/store/abcdef-foo-1.0", false).name(), &b"foo-1.0"[..]);
}

#[test]
fn name_of_a_root_is_the_whole_path() {
    let d = drv(b"/nix/var/nix/gcroots/auto/abcdef-foo", true);
    assert_eq!(d.name(), &b"/nix/var/nix/gcroots/auto/abcdef-foo"[..]);
}

#[test]
fn name_without_slash_is_the_whole_path() {
    assert_eq!(drv(b"abcdef-foo-1.0", false).name(), &b"abcdef-foo-1.0"[..]);
    assert_eq!(drv(b"{memory:12}", false).name(), &b"{memory:12}"[..]);
}

#[test]
fn name_without_dash_is_what_follows_the_last_slash() {
    assert_eq!(drv(b"/nix/store/foo", false).name(), &b"foo"[..]);
}

#[test]
fn name_uses_the_last_slash_and_the_first_dash_after_it() {
    assert_eq!(drv(b"/a-b/c-d/hash-x-y-z", false).name(), &b"x-y-z"[..]);
    assert_eq!(drv(b"/nix-store/plain", false).name(), &b"plain"[..]);
}

#[test]
fn name_at_the_edges() {
    assert_eq!(drv(b"", false).name(), &b""[..]);
    assert_eq!(drv(b"/", false).name(), &b""[..]);
    assert_eq!(drv(b"/nix/store/", false).name(), &b""[..]);
    assert_eq!(drv(b"/nix/store/abc-", false).name(), &b""[..]);
    assert_eq!(drv(b"/nix/store/-foo", false).name(), &b"foo"[..]);
    assert_eq!(drv(b"-", false).name(), &b"-"[..]);
}

#[test]
fn transient_roots_begin_with_a_mark() {
    assert!(drv(b"{memory:0x1234}", true).is_transient_root());
    assert!(drv(b"{temp:1234}", true).is_transient_root());
    assert!(drv(b"{memory:", false).is_transient_root());
    assert!(drv(b"{temp:", false).is_transient_root());
}

#[test]
fn other_paths_are_no_transient_roots() {
    assert!(!drv(b"/nix/store/abcdef-foo", false).is_transient_root());
    assert!(!drv(b"", false).is_transient_root());
    assert!(!drv(b"{memory", true).is_transient_root());
    assert!(!drv(b"{temp", true).is_transient_root());
    assert!(!drv(b" {memory:1}", true).is_transient_root());
    assert!(!drv(b"{Memory:1}", true).is_transient_root());
    assert!(!drv(b"shared:foo", false).is_transient_root());
}

#[test]
fn path_as_os_str_is_there_for_absolute_paths_only() {
    assert_eq!(drv(b"/nix/store/abcdef-foo", false).path_as_os_str(), Some(&b"/nix/store/abcdef-foo"[..]));
    assert_eq!(drv(b"/", true).path_as_os_str(), Some(&b"/"[..]));
    assert_eq!(drv(b"", false).path_as_os_str(), None);
    assert_eq!(drv(b"{memory:1}", true).path_as_os_str(), None);
    assert_eq!(drv(b"shared:foo", false).path_as_os_str(), None);
    assert_eq!(drv(b"nix/store", false).path_as_os_str(), None);
}

#[test]
fn starts_with_compares_the_head() {
    assert!(starts_with(b"abc", b""));
    assert!(starts_with(b"abc", b"ab"));
    assert!(starts_with(b"abc", b"abc"));
    assert!(!starts_with(b"abc", b"abcd"));
    assert!(!starts_with(b"abc", b"b"));
    assert!(starts_with(b"", b""));
}

#[test]
fn join_bytes_puts_one_after_the_other() {
    assert_eq!(join_bytes(b"shared:", b"foo"), b"shared:foo".to_vec());
    assert_eq!(join_bytes(b"", b""), Vec::<u8>::new());
    assert_eq!(join_bytes(b"a", b""), b"a".to_vec());
}

#[test]
fn derivations_compare_by_path_then_size_then_flag() {
    let a = Derivation { path: b"/a".to_vec(), size: 9, is_root: true };
    let b = Derivation { path: b"/b".to_vec(), size: 1, is_root: false };
    assert!(a < b);
    assert_eq!(a.clone(), a);
    assert_ne!(a, b);
}
