use harmony::paths::{
    is_relative_linear_path, is_safe_relative_path, join_path, Paths, SlotError, SlotInfos, SyncId,
};

#[test]
fn plain_relative_paths_are_linear() {
    assert!(is_relative_linear_path("a"));
    assert!(is_relative_linear_path("sub/b.txt"));
    assert!(is_relative_linear_path("a/b/c.txt"));
    assert!(is_relative_linear_path("a/.hidden"));
    assert!(is_relative_linear_path("a/..."));
    assert!(is_relative_linear_path("a..b/c."));
    assert!(is_relative_linear_path(""));
}

#[test]
fn rooted_and_dotted_paths_are_not_linear() {
    assert!(!is_relative_linear_path("/etc/passwd"));
    assert!(!is_relative_linear_path("/"));
    assert!(!is_relative_linear_path("."));
    assert!(!is_relative_linear_path(".."));
    assert!(!is_relative_linear_path("../x"));
    assert!(!is_relative_linear_path("./x"));
    assert!(!is_relative_linear_path("a/../b"));
    assert!(!is_relative_linear_path("a/./b"));
    assert!(!is_relative_linear_path("a/.."));
}

#[test]
fn safe_relative_paths() {
    assert!(is_safe_relative_path("a.txt"));
    assert!(is_safe_relative_path("sub/b.txt"));
    assert!(is_safe_relative_path(".git/config"));
    assert!(is_safe_relative_path("a/..b"));
    assert!(!is_safe_relative_path(""));
    assert!(!is_safe_relative_path("/a"));
    assert!(!is_safe_relative_path("a/../../b"));
    assert!(!is_safe_relative_path("./a"));
    assert!(!is_safe_relative_path(".."));
    assert!(!is_safe_relative_path("a/."));
}

#[test]
fn join_puts_one_separator() {
    assert_eq!(join_path("/data", "slots"), "/data/slots");
    assert_eq!(join_path("/data/", "slots"), "/data/slots");
    assert_eq!(join_path("", "slots"), "slots");
    assert_eq!(join_path("/", "slots"), "/slots");
    assert_eq!(join_path("a", "b/c"), "a/b/c");
    assert_eq!(join_path("a", ""), "a/");
}

#[test]
fn layout_of_a_slot() {
    let paths = Paths::new("/srv/harmony".to_string());
    let slot = SlotInfos::new("photos".to_string(), None).unwrap();
    let id = SyncId("abcDEF0123456789abcDEF0123456789".to_string());
    assert_eq!(paths.app_data_file(), "/srv/harmony/state.json");
    assert_eq!(paths.slot_root_dir(&slot), "/srv/harmony/slots/photos");
    assert_eq!(paths.slot_content_dir(&slot), "/srv/harmony/slots/photos/content");
    assert_eq!(
        paths.slot_transfer_dir(&slot, &id),
        "/srv/harmony/slots/photos/open-sync-abcDEF0123456789abcDEF0123456789"
    );
    assert_eq!(
        paths.slot_pending_dir(&slot, &id),
        "/srv/harmony/slots/photos/open-sync-abcDEF0123456789abcDEF0123456789/pending"
    );
    assert_eq!(
        paths.slot_completion_dir(&slot, &id),
        "/srv/harmony/slots/photos/open-sync-abcDEF0123456789abcDEF0123456789/complete"
    );
}

#[test]
fn layout_of_a_linked_slot() {
    let paths = Paths::new("/srv/harmony".to_string());
    let slot = SlotInfos::new("music".to_string(), Some("/mnt/music".to_string())).unwrap();
    let id = SyncId("x".repeat(32));
    assert_eq!(paths.slot_content_dir(&slot), "/mnt/music");
    assert_eq!(paths.slot_root_dir(&slot), "/srv/harmony/slots/music");
    assert_eq!(
        paths.slot_pending_dir(&slot, &id),
        format!("/srv/harmony/slots/music/open-sync-{}/pending", "x".repeat(32))
    );
}

fn error_of(name: &str, linked: Option<&str>) -> SlotError {
    SlotInfos::new(name.to_string(), linked.map(|l| l.to_string())).unwrap_err()
}

#[test]
fn slot_names_are_checked() {
    assert_eq!(error_of("", None), SlotError::EmptyName);
    assert_eq!(error_of("   ", None), SlotError::EmptyName);
    assert_eq!(error_of(" \t\u{a0}\u{3000}", None), SlotError::EmptyName);
    assert_eq!(error_of("\n", None), SlotError::EmptyName);
    assert_eq!(error_of("a/b", None), SlotError::ForbiddenChar('/'));
    assert_eq!(error_of("a\\b", None), SlotError::ForbiddenChar('\\'));
    assert_eq!(error_of("a<b", None), SlotError::ForbiddenChar('<'));
    assert_eq!(error_of("a>b", None), SlotError::ForbiddenChar('>'));
    assert_eq!(error_of("a:b", None), SlotError::ForbiddenChar(':'));
    assert_eq!(error_of("a\"b", None), SlotError::ForbiddenChar('"'));
    assert_eq!(error_of("a|b", None), SlotError::ForbiddenChar('|'));
    assert_eq!(error_of("a?b", None), SlotError::ForbiddenChar('?'));
    assert_eq!(error_of("a*b", None), SlotError::ForbiddenChar('*'));
    assert_eq!(error_of("a\rb", None), SlotError::ForbiddenChar('\r'));
    assert_eq!(error_of("a\nb", None), SlotError::ForbiddenChar('\n'));
    assert_eq!(error_of("a\0b", None), SlotError::ForbiddenChar('\0'));
    // the first in the order of the forbidden characters, not of the name
    assert_eq!(error_of("a*b/c", None), SlotError::ForbiddenChar('/'));
    assert_eq!(error_of("?>", None), SlotError::ForbiddenChar('>'));
    // the name is looked at before the linked path
    assert_eq!(error_of("a/b", Some("relative")), SlotError::ForbiddenChar('/'));
    let ok = SlotInfos::new(" my slot ".to_string(), None).unwrap();
    assert_eq!(ok.name(), " my slot ");
    assert_eq!(ok.linked(), None);
}

#[test]
fn linked_paths_are_checked() {
    assert_eq!(error_of("s", Some("relative/path")), SlotError::LinkedPathNotRooted);
    assert_eq!(error_of("s", Some("")), SlotError::LinkedPathNotRooted);
    assert_eq!(error_of("s", Some("/a/./b")), SlotError::LinkedPathHasCurrentDir);
    assert_eq!(error_of("s", Some("/a/../b")), SlotError::LinkedPathHasParentDir);
    assert_eq!(error_of("s", Some("/a/../b/.")), SlotError::LinkedPathHasCurrentDir);
    assert_eq!(error_of("s", Some("/..")), SlotError::LinkedPathHasParentDir);
    let ok = SlotInfos::new("s".to_string(), Some("/mnt/data/.cache".to_string())).unwrap();
    assert_eq!(ok.linked(), Some("/mnt/data/.cache"));
    let copy = ok.duplicate();
    assert_eq!(copy.name(), "s");
    assert_eq!(copy.linked(), Some("/mnt/data/.cache"));
}

#[test]
fn slots_are_parsed() {
    let plain = SlotInfos::parse("photos").unwrap();
    assert_eq!(plain.name(), "photos");
    assert_eq!(plain.linked(), None);
    let linked = SlotInfos::parse("photos:/mnt/photos").unwrap();
    assert_eq!(linked.name(), "photos");
    assert_eq!(linked.linked(), Some("/mnt/photos"));
    let accents = SlotInfos::parse("été:/mnt/été").unwrap();
    assert_eq!(accents.name(), "été");
    assert_eq!(accents.linked(), Some("/mnt/été"));
    // cut at the first colon only
    assert_eq!(SlotInfos::parse("a:/b:c").unwrap().linked(), Some("/b:c"));
    assert_eq!(SlotInfos::parse(":/mnt").unwrap_err(), SlotError::EmptyName);
    assert_eq!(SlotInfos::parse("a:").unwrap_err(), SlotError::LinkedPathNotRooted);
    assert_eq!(SlotInfos::parse("a:b").unwrap_err(), SlotError::LinkedPathNotRooted);
    assert_eq!(SlotInfos::parse("a?:/b").unwrap_err(), SlotError::ForbiddenChar('?'));
    assert_eq!(SlotInfos::parse("").unwrap_err(), SlotError::EmptyName);
    assert_eq!(SlotInfos::parse("a:/b/..").unwrap_err(), SlotError::LinkedPathHasParentDir);
}
