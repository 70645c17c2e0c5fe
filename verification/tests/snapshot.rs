use harmony::snapshot::{
    make_snapshot, path_components, snapshot_item, EntryKind, SnapshotBuilder, SnapshotError,
    SnapshotFileMetadata, SnapshotItemMetadata, SnapshotOptions, SnapshotOptionsError, Visit,
    WalkEntry,
};

fn strings(v: &[&str]) -> Vec<String> {
    v.iter().map(|s| s.to_string()).collect()
}

fn options(paths: &[&str], names: &[&str], exts: &[&str]) -> SnapshotOptions {
    SnapshotOptions {
        ignore_paths: strings(paths),
        ignore_names: strings(names),
        ignore_exts: strings(exts),
    }
}

fn file_entry(path: &str, size: u64, secs: u64, nanos: u32) -> WalkEntry {
    WalkEntry {
        relative_path: Some(path.to_string()),
        kind: EntryKind::File,
        size,
        modified: Some((secs, nanos)),
    }
}

fn dir_entry(path: &str) -> WalkEntry {
    WalkEntry {
        relative_path: Some(path.to_string()),
        kind: EntryKind::Directory,
        size: 4096,
        modified: Some((1, 1)),
    }
}

#[test]
fn options_in_order_pass() {
    assert!(options(&[], &[], &[]).validate().is_ok());
    assert!(options(&["a/b", "c"], &["node_modules", ".git"], &["tmp", "o", ""]).validate().is_ok());
}

#[test]
fn the_first_offending_option_is_reported() {
    match options(&["a", "/b", "/c"], &["x/y"], &[".z"]).validate() {
        Err(SnapshotOptionsError::AbsolutePath(p)) => assert_eq!(p, "/b"),
        other => panic!("{:?}", other),
    }
    match options(&["a"], &["ok", "x/y", "z\\w"], &[".z"]).validate() {
        Err(SnapshotOptionsError::NameWithSeparator(n)) => assert_eq!(n, "x/y"),
        other => panic!("{:?}", other),
    }
    match options(&["a"], &["z\\w"], &[]).validate() {
        Err(SnapshotOptionsError::NameWithSeparator(n)) => assert_eq!(n, "z\\w"),
        other => panic!("{:?}", other),
    }
    match options(&["a"], &["ok"], &["tmp", "tar.gz", ".z"]).validate() {
        Err(SnapshotOptionsError::ExtensionWithDot(e)) => assert_eq!(e, "tar.gz"),
        other => panic!("{:?}", other),
    }
}

#[test]
fn components_leave_empty_pieces_out() {
    let parts = |p: &str| -> Vec<String> {
        path_components(p).into_iter().map(|c| c.into_iter().collect()).collect()
    };
    assert_eq!(parts("a/b/c"), strings(&["a", "b", "c"]));
    assert_eq!(parts("/a//b/"), strings(&["a", "b"]));
    assert_eq!(parts(""), Vec::<String>::new());
    assert_eq!(parts("///"), Vec::<String>::new());
}

#[test]
fn ignored_paths_are_matched_by_components() {
    let o = options(&["build", "src/gen"], &[], &[]);
    assert!(o.should_ignore("build", false));
    assert!(o.should_ignore("build/out.o", true));
    assert!(o.should_ignore("src/gen", false));
    assert!(o.should_ignore("src/gen/a/b.rs", true));
    assert!(!o.should_ignore("builder", false));
    assert!(!o.should_ignore("build2/x", true));
    assert!(!o.should_ignore("src/generated", false));
    assert!(!o.should_ignore("src", false));
    assert!(!o.should_ignore("x/build", false));
    assert!(!o.should_ignore("x/src/gen", false));
    let trailing = options(&["build/"], &[], &[]);
    assert!(trailing.should_ignore("build/x", true));
    assert!(!trailing.should_ignore("buil", true));
}

#[test]
fn ignored_names_are_matched_anywhere() {
    let o = options(&[], &["node_modules", ".git"], &[]);
    assert!(o.should_ignore("node_modules", false));
    assert!(o.should_ignore("a/node_modules", false));
    assert!(o.should_ignore("a/node_modules/b/c.js", true));
    assert!(o.should_ignore(".git/config", true));
    assert!(!o.should_ignore("node_modules2", false));
    assert!(!o.should_ignore("a/my_node_modules/b", true));
    assert!(!o.should_ignore("a/.gitignore", true));
}

#[test]
fn ignored_extensions_are_those_of_files() {
    let o = options(&[], &[], &["tmp", "gz"]);
    assert!(o.should_ignore("a.tmp", true));
    assert!(o.should_ignore("x/y/a.b.tmp", true));
    assert!(o.should_ignore("a.tar.gz", true));
    assert!(!o.should_ignore("a.tmp", false));
    assert!(!o.should_ignore("a.TMP", true));
    assert!(!o.should_ignore("a.tmp2", true));
    assert!(!o.should_ignore("tmp", true));
    assert!(!o.should_ignore(".tmp", true));
    assert!(!o.should_ignore("x.tmp/a", true));
    assert!(!o.should_ignore("a.tmp.", true));
    assert!(o.should_ignore("..tmp", true));
    let empty = options(&[], &[], &[""]);
    assert!(empty.should_ignore("a.", true));
    assert!(!empty.should_ignore("a", true));
    assert!(!empty.should_ignore("..", true));
}

#[test]
fn no_option_ignores_nothing() {
    let o = options(&[], &[], &[]);
    assert!(!o.should_ignore("a/b.c", true));
    assert!(!o.should_ignore("", false));
    // an empty path to ignore has no components: everything lies below it
    assert!(options(&[""], &[], &[]).should_ignore("a/b.c", true));
}

#[test]
fn options_from_items() {
    let o = SnapshotOptions::from_ignore_items(
        strings(&["/build", "node_modules", "//x", "a/b", "/", ".git", "/été"]),
        strings(&["tmp"]),
    );
    assert_eq!(o.ignore_paths, strings(&["build", "/x", "", "été"]));
    assert_eq!(o.ignore_names, strings(&["node_modules", "a/b", ".git"]));
    assert_eq!(o.ignore_exts, strings(&["tmp"]));
}

#[test]
fn entries_become_items() {
    let item = snapshot_item(file_entry("a/b.txt", 3, 1_700_000_000, 42)).unwrap();
    assert_eq!(item.relative_path, "a/b.txt");
    assert_eq!(
        item.metadata,
        SnapshotItemMetadata::File(SnapshotFileMetadata {
            size: 3,
            last_modif_date_s: 1_700_000_000,
            last_modif_date_ns: 42
        })
    );
    let item = snapshot_item(dir_entry("a")).unwrap();
    assert_eq!(item.relative_path, "a");
    assert_eq!(item.metadata, SnapshotItemMetadata::Directory);
    let item = snapshot_item(WalkEntry {
        relative_path: Some("d".to_string()),
        kind: EntryKind::Directory,
        size: 0,
        modified: None,
    })
    .unwrap();
    assert_eq!(item.metadata, SnapshotItemMetadata::Directory);
}

#[test]
fn entries_that_cannot_become_items() {
    let entry = |path: Option<&str>, kind, modified| WalkEntry {
        relative_path: path.map(|p| p.to_string()),
        kind,
        size: 1,
        modified,
    };
    assert!(matches!(
        snapshot_item(entry(Some("l"), EntryKind::Symlink, Some((1, 1)))),
        Err(SnapshotError::SymlinkUnsupported)
    ));
    assert!(matches!(
        snapshot_item(entry(None, EntryKind::Symlink, None)),
        Err(SnapshotError::SymlinkUnsupported)
    ));
    assert!(matches!(
        snapshot_item(entry(Some("s"), EntryKind::Other, Some((1, 1)))),
        Err(SnapshotError::UnknownItemType)
    ));
    assert!(matches!(
        snapshot_item(entry(Some("f"), EntryKind::File, None)),
        Err(SnapshotError::NoModificationTime)
    ));
    assert!(matches!(
        snapshot_item(entry(None, EntryKind::File, None)),
        Err(SnapshotError::NoModificationTime)
    ));
    assert!(matches!(
        snapshot_item(entry(None, EntryKind::File, Some((1, 1)))),
        Err(SnapshotError::InvalidUtf8)
    ));
    assert!(matches!(
        snapshot_item(entry(None, EntryKind::Directory, Some((1, 1)))),
        Err(SnapshotError::InvalidUtf8)
    ));
}

#[test]
fn a_builder_records_and_skips() {
    let mut builder = SnapshotBuilder::new(options(&["out"], &[".git"], &["tmp"])).unwrap();
    assert_eq!(builder.visit(dir_entry("src")).unwrap(), Visit::Recorded(1));
    assert_eq!(builder.visit(file_entry("src/a.rs", 10, 5, 6)).unwrap(), Visit::Recorded(2));
    assert_eq!(builder.visit(dir_entry(".git")).unwrap(), Visit::SkippedSubtree);
    assert_eq!(builder.visit(dir_entry("out")).unwrap(), Visit::SkippedSubtree);
    assert_eq!(builder.visit(file_entry("src/a.tmp", 1, 1, 1)).unwrap(), Visit::Skipped);
    assert_eq!(builder.visit(file_entry("out/x", 1, 1, 1)).unwrap(), Visit::Skipped);
    assert_eq!(builder.visit(dir_entry("src/x.tmp")).unwrap(), Visit::Recorded(3));
    // a link that is left out does no harm; one that is not fails the snapshot
    let link = |path: &str| WalkEntry {
        relative_path: Some(path.to_string()),
        kind: EntryKind::Symlink,
        size: 0,
        modified: None,
    };
    assert_eq!(builder.visit(link("out/link")).unwrap(), Visit::Skipped);
    assert!(matches!(builder.visit(link("src/link")), Err(SnapshotError::SymlinkUnsupported)));
    assert!(matches!(
        builder.visit(WalkEntry {
            relative_path: None,
            kind: EntryKind::File,
            size: 0,
            modified: Some((1, 1))
        }),
        Err(SnapshotError::InvalidUtf8)
    ));
    assert_eq!(builder.visit(file_entry("b", 2, 3, 4)).unwrap(), Visit::Recorded(4));
    let result = builder.finish("/root/tree".to_string());
    assert_eq!(result.snapshot.from_dir, "/root/tree");
    let paths: Vec<&str> =
        result.snapshot.items.iter().map(|i| i.relative_path.as_str()).collect();
    assert_eq!(paths, vec!["src", "src/a.rs", "src/x.tmp", "b"]);
    assert_eq!(
        result.snapshot.items[3].metadata,
        SnapshotItemMetadata::File(SnapshotFileMetadata {
            size: 2,
            last_modif_date_s: 3,
            last_modif_date_ns: 4
        })
    );
}

#[test]
fn a_builder_needs_options_in_order() {
    match SnapshotBuilder::new(options(&["/abs"], &[], &[])) {
        Err(SnapshotError::InvalidOptions(SnapshotOptionsError::AbsolutePath(p))) => {
            assert_eq!(p, "/abs")
        }
        other => panic!("{:?}", other),
    }
}

#[test]
fn a_snapshot_of_a_walk() {
    let entries = vec![
        file_entry("a.txt", 3, 1_700_000_000, 0),
        dir_entry("sub"),
        file_entry("sub/b.txt", 5, 1_700_000_001, 0),
        dir_entry("target"),
        file_entry("target/big.bin", 1000, 1, 1),
        file_entry("notes.swp", 1, 1, 1),
    ];
    let result =
        make_snapshot("/home/me/tree".to_string(), entries, options(&[], &["target"], &["swp"]))
            .unwrap();
    assert_eq!(result.snapshot.from_dir, "/home/me/tree");
    let items: Vec<(&str, SnapshotItemMetadata)> =
        result.snapshot.items.iter().map(|i| (i.relative_path.as_str(), i.metadata)).collect();
    let file = |size, secs| {
        SnapshotItemMetadata::File(SnapshotFileMetadata {
            size,
            last_modif_date_s: secs,
            last_modif_date_ns: 0,
        })
    };
    assert_eq!(
        items,
        vec![
            ("a.txt", file(3, 1_700_000_000)),
            ("sub", SnapshotItemMetadata::Directory),
            ("sub/b.txt", file(5, 1_700_000_001)),
        ]
    );
}

#[test]
fn a_snapshot_fails_on_its_first_bad_entry() {
    let bad = |kind| WalkEntry {
        relative_path: Some("bad".to_string()),
        kind,
        size: 0,
        modified: None,
    };
    let made = make_snapshot(
        "/t".to_string(),
        vec![dir_entry("a"), bad(EntryKind::Other), bad(EntryKind::Symlink)],
        options(&[], &[], &[]),
    );
    assert!(matches!(made, Err(SnapshotError::UnknownItemType)));
    let made = make_snapshot(
        "/t".to_string(),
        vec![bad(EntryKind::Symlink)],
        options(&[], &[], &["x.y"]),
    );
    assert!(matches!(
        made,
        Err(SnapshotError::InvalidOptions(SnapshotOptionsError::ExtensionWithDot(_)))
    ));
    let made = make_snapshot("/t".to_string(), vec![], options(&[], &[], &[])).unwrap();
    assert!(made.snapshot.items.is_empty());
}

#[test]
fn two_walks_of_one_tree_record_the_same_items() {
    let walk = |order: &[usize]| {
        let all = [
            ("a.txt", Some(3u64)),
            ("sub", None),
            ("sub/b.txt", Some(5)),
            ("x.log", Some(9)),
            ("c", Some(1)),
        ];
        let entries = order
            .iter()
            .map(|&i| match all[i].1 {
                Some(size) => file_entry(all[i].0, size, 7, 7),
                None => dir_entry(all[i].0),
            })
            .collect();
        let mut items: Vec<(String, SnapshotItemMetadata)> =
            make_snapshot("/t".to_string(), entries, options(&[], &[], &["log"]))
                .unwrap()
                .snapshot
                .items
                .into_iter()
                .map(|i| (i.relative_path, i.metadata))
                .collect();
        items.sort_by(|a, b| a.0.cmp(&b.0));
        items
    };
    let first = walk(&[0, 1, 2, 3, 4]);
    let second = walk(&[4, 2, 3, 0, 1]);
    assert_eq!(first, second);
    assert_eq!(first.len(), 4);
}

#[test]
fn an_entry_outside_the_root_is_refused() {
    for bad in ["../x", "/etc/passwd", "./x", "a/../b", "a/./b", "..", ".", "", "a/.."] {
        match snapshot_item(file_entry(bad, 1, 1, 1)) {
            Err(SnapshotError::UnsafePath(p)) => assert_eq!(p, bad),
            other => panic!("{:?} gave {:?}", bad, other),
        }
        match snapshot_item(dir_entry(bad)) {
            Err(SnapshotError::UnsafePath(p)) => assert_eq!(p, bad),
            other => panic!("{:?} gave {:?}", bad, other),
        }
        let mut builder = SnapshotBuilder::new(options(&[], &[], &[])).unwrap();
        assert!(matches!(builder.visit(file_entry(bad, 1, 1, 1)), Err(SnapshotError::UnsafePath(_))));
        assert_eq!(builder.visit(file_entry("fine", 1, 1, 1)).unwrap(), Visit::Recorded(1));
        assert_eq!(builder.finish("/t".to_string()).snapshot.items.len(), 1);
        let made = make_snapshot(
            "/t".to_string(),
            vec![file_entry("ok", 1, 1, 1), dir_entry(bad), file_entry("late", 1, 1, 1)],
            options(&[], &[], &[]),
        );
        assert!(matches!(made, Err(SnapshotError::UnsafePath(p)) if p == bad));
    }
    // the kind of an entry is looked at before its path
    let link = WalkEntry {
        relative_path: Some("../l".to_string()),
        kind: EntryKind::Symlink,
        size: 0,
        modified: None,
    };
    assert!(matches!(snapshot_item(link), Err(SnapshotError::SymlinkUnsupported)));
    // an entry that is left out is not looked at further
    let mut builder = SnapshotBuilder::new(options(&[], &[".."], &[])).unwrap();
    assert_eq!(builder.visit(dir_entry("../x")).unwrap(), Visit::SkippedSubtree);
}

#[test]
fn every_recorded_path_is_a_plain_relative_one() {
    let entries = vec![
        dir_entry("a"),
        file_entry("a/b.txt", 1, 1, 1),
        file_entry(".hidden", 1, 1, 1),
        dir_entry("a/..."),
        file_entry("a/skip.tmp", 1, 1, 1),
    ];
    let made = make_snapshot("/t".to_string(), entries, options(&[], &[], &["tmp"])).unwrap();
    let paths: Vec<&str> = made.snapshot.items.iter().map(|i| i.relative_path.as_str()).collect();
    assert_eq!(paths, vec!["a", "a/b.txt", ".hidden", "a/..."]);
    for p in paths {
        assert!(!p.is_empty() && !p.starts_with('/'));
        assert!(p.split('/').all(|c| c != "." && c != ".."));
    }
}
