use harmony::diffing::{
    Diff, DiffApplyOps, DiffItem, DiffItemAdded, DiffItemDeleted, DiffItemModified,
    DiffItemTypeChanged, DiffType,
};
use harmony::snapshot::{Snapshot, SnapshotFileMetadata, SnapshotItem, SnapshotItemMetadata};

fn file(size: u64, secs: u64, nanos: u32) -> SnapshotItemMetadata {
    SnapshotItemMetadata::File(SnapshotFileMetadata {
        size,
        last_modif_date_s: secs,
        last_modif_date_ns: nanos,
    })
}

fn meta(size: u64, secs: u64, nanos: u32) -> SnapshotFileMetadata {
    SnapshotFileMetadata { size, last_modif_date_s: secs, last_modif_date_ns: nanos }
}

fn snapshot(items: Vec<(&str, SnapshotItemMetadata)>) -> Snapshot {
    Snapshot {
        from_dir: String::from("/tree"),
        items: items
            .into_iter()
            .map(|(p, m)| SnapshotItem { relative_path: p.to_string(), metadata: m })
            .collect(),
    }
}

fn paths<T>(bucket: &[(String, T)]) -> Vec<&str> {
    bucket.iter().map(|(p, _)| p.as_str()).collect()
}

#[test]
fn new_sorts_items_into_their_lists_in_order() {
    let items = vec![
        DiffItem {
            path: "b".to_string(),
            status: DiffType::Deleted(DiffItemDeleted { prev: SnapshotItemMetadata::Directory }),
        },
        DiffItem {
            path: "a".to_string(),
            status: DiffType::Added(DiffItemAdded { new: file(1, 2, 3) }),
        },
        DiffItem {
            path: "d".to_string(),
            status: DiffType::Modified(DiffItemModified { prev: meta(1, 1, 1), new: meta(2, 2, 2) }),
        },
        DiffItem {
            path: "c".to_string(),
            status: DiffType::Added(DiffItemAdded { new: SnapshotItemMetadata::Directory }),
        },
        DiffItem {
            path: "e".to_string(),
            status: DiffType::TypeChanged(DiffItemTypeChanged {
                prev: SnapshotItemMetadata::Directory,
                new: file(7, 8, 9),
            }),
        },
    ];
    let diff = Diff::new(items);
    assert_eq!(paths(&diff.added), vec!["a", "c"]);
    assert_eq!(diff.added[0].1.new, file(1, 2, 3));
    assert_eq!(diff.added[1].1.new, SnapshotItemMetadata::Directory);
    assert_eq!(paths(&diff.modified), vec!["d"]);
    assert_eq!(diff.modified[0].1, DiffItemModified { prev: meta(1, 1, 1), new: meta(2, 2, 2) });
    assert_eq!(paths(&diff.type_changed), vec!["e"]);
    assert_eq!(paths(&diff.deleted), vec!["b"]);
}

#[test]
fn fresh_sync_adds_everything() {
    let local = snapshot(vec![
        ("sub/b.txt", file(5, 1700000001, 0)),
        ("sub", SnapshotItemMetadata::Directory),
        ("a.txt", file(3, 1700000000, 0)),
    ]);
    let remote = snapshot(vec![]);
    let diff = Diff::build(&local, &remote);
    assert_eq!(paths(&diff.added), vec!["a.txt", "sub", "sub/b.txt"]);
    assert_eq!(diff.added[0].1.new, file(3, 1700000000, 0));
    assert_eq!(diff.added[1].1.new, SnapshotItemMetadata::Directory);
    assert_eq!(diff.added[2].1.new, file(5, 1700000001, 0));
    assert!(diff.modified.is_empty());
    assert!(diff.type_changed.is_empty());
    assert!(diff.deleted.is_empty());

    let ops = diff.ops();
    assert_eq!(ops.create_dirs, vec!["sub".to_string()]);
    assert_eq!(
        ops.send_files,
        vec![
            ("a.txt".to_string(), meta(3, 1700000000, 0)),
            ("sub/b.txt".to_string(), meta(5, 1700000001, 0)),
        ]
    );
    assert!(ops.delete_files.is_empty());
    assert!(ops.delete_empty_dirs.is_empty());
    assert_eq!(ops.transfer_size(), Some(8));
}

#[test]
fn equal_trees_have_an_empty_diff() {
    let local = snapshot(vec![
        ("a.txt", file(3, 10, 0)),
        ("sub", SnapshotItemMetadata::Directory),
        ("sub/b.txt", file(5, 11, 500)),
    ]);
    let remote = snapshot(vec![
        ("sub/b.txt", file(5, 11, 500)),
        ("a.txt", file(3, 10, 0)),
        ("sub", SnapshotItemMetadata::Directory),
    ]);
    let diff = Diff::build(&local, &remote);
    assert!(diff.is_empty());
    assert!(diff.added.is_empty() && diff.modified.is_empty());
    assert!(diff.type_changed.is_empty() && diff.deleted.is_empty());
}

#[test]
fn type_change_from_directory_to_file() {
    let local = snapshot(vec![("x", file(2, 5, 0))]);
    let remote = snapshot(vec![("x", SnapshotItemMetadata::Directory)]);
    let diff = Diff::build(&local, &remote);
    assert_eq!(paths(&diff.type_changed), vec!["x"]);
    assert_eq!(
        diff.type_changed[0].1,
        DiffItemTypeChanged { prev: SnapshotItemMetadata::Directory, new: file(2, 5, 0) }
    );
    assert!(diff.added.is_empty() && diff.modified.is_empty() && diff.deleted.is_empty());
    let ops = DiffApplyOps::new(&diff);
    assert_eq!(ops.send_files, vec![("x".to_string(), meta(2, 5, 0))]);
    assert_eq!(ops.delete_empty_dirs, vec!["x".to_string()]);
    assert!(ops.create_dirs.is_empty());
    assert!(ops.delete_files.is_empty());
}

#[test]
fn type_change_from_file_to_directory() {
    let local = snapshot(vec![("x", SnapshotItemMetadata::Directory)]);
    let remote = snapshot(vec![("x", file(2, 5, 0))]);
    let ops = Diff::build(&local, &remote).ops();
    assert_eq!(ops.create_dirs, vec!["x".to_string()]);
    assert_eq!(ops.delete_files, vec!["x".to_string()]);
    assert!(ops.send_files.is_empty());
    assert!(ops.delete_empty_dirs.is_empty());
}

#[test]
fn modification_within_a_second_is_dropped_and_deletion_stays() {
    let t = 1_700_000_000;
    let local = snapshot(vec![("keep.txt", file(5, t, 300_000_000))]);
    let remote = snapshot(vec![("old.txt", file(10, t, 0)), ("keep.txt", file(5, t, 0))]);
    let diff = Diff::build(&local, &remote);
    assert_eq!(paths(&diff.modified), vec!["keep.txt"]);
    assert_eq!(
        diff.modified[0].1,
        DiffItemModified { prev: meta(5, t, 0), new: meta(5, t, 300_000_000) }
    );
    let diff = diff.apply_time_granularity(1, 0);
    assert!(diff.modified.is_empty());
    assert!(diff.added.is_empty());
    assert!(diff.type_changed.is_empty());
    assert_eq!(paths(&diff.deleted), vec!["old.txt"]);
    let ops = diff.ops();
    assert!(ops.send_files.is_empty());
    assert_eq!(ops.delete_files, vec!["old.txt".to_string()]);
    assert_eq!(ops.transfer_size(), Some(0));
}

#[test]
fn granularity_counts_to_the_nanosecond() {
    let entry = |prev: SnapshotFileMetadata, new: SnapshotFileMetadata| Diff {
        added: vec![],
        modified: vec![("f".to_string(), DiffItemModified { prev, new })],
        type_changed: vec![],
        deleted: vec![],
    };
    // exactly one second apart, either way: dropped
    assert!(entry(meta(5, 10, 0), meta(5, 11, 0)).apply_time_granularity(1, 0).modified.is_empty());
    assert!(entry(meta(5, 11, 0), meta(5, 10, 0)).apply_time_granularity(1, 0).modified.is_empty());
    assert!(entry(meta(5, 10, 999_999_999), meta(5, 11, 999_999_999))
        .apply_time_granularity(1, 0)
        .modified
        .is_empty());
    // one nanosecond more: kept
    assert_eq!(entry(meta(5, 10, 0), meta(5, 11, 1)).apply_time_granularity(1, 0).modified.len(), 1);
    assert_eq!(entry(meta(5, 11, 1), meta(5, 10, 0)).apply_time_granularity(1, 0).modified.len(), 1);
    // a different size is always kept
    assert_eq!(entry(meta(5, 10, 0), meta(6, 10, 0)).apply_time_granularity(1, 0).modified.len(), 1);
    // no granularity: only equal times are dropped
    assert_eq!(entry(meta(5, 10, 0), meta(5, 10, 1)).apply_time_granularity(0, 0).modified.len(), 1);
    assert!(entry(meta(5, 10, 0), meta(5, 10, 1)).apply_time_granularity(0, 1).modified.is_empty());
    // the largest times do not overflow
    assert!(entry(meta(5, u64::MAX, u32::MAX), meta(5, u64::MAX, u32::MAX - 1))
        .apply_time_granularity(0, 1)
        .modified
        .is_empty());
    assert_eq!(
        entry(meta(5, 0, 0), meta(5, u64::MAX, u32::MAX))
            .apply_time_granularity(u64::MAX, 0)
            .modified
            .len(),
        1
    );
}

#[test]
fn granularity_keeps_the_other_lists() {
    let diff = Diff {
        added: vec![("a".to_string(), DiffItemAdded { new: file(1, 1, 1) })],
        modified: vec![
            ("m1".to_string(), DiffItemModified { prev: meta(1, 5, 0), new: meta(1, 5, 9) }),
            ("m2".to_string(), DiffItemModified { prev: meta(1, 5, 0), new: meta(2, 5, 0) }),
            ("m3".to_string(), DiffItemModified { prev: meta(1, 5, 0), new: meta(1, 9, 0) }),
        ],
        type_changed: vec![(
            "t".to_string(),
            DiffItemTypeChanged { prev: file(1, 1, 1), new: SnapshotItemMetadata::Directory },
        )],
        deleted: vec![("d".to_string(), DiffItemDeleted { prev: file(1, 1, 1) })],
    };
    let diff = diff.apply_time_granularity(1, 0);
    assert_eq!(paths(&diff.added), vec!["a"]);
    assert_eq!(paths(&diff.modified), vec!["m2", "m3"]);
    assert_eq!(paths(&diff.type_changed), vec!["t"]);
    assert_eq!(paths(&diff.deleted), vec!["d"]);
    assert!(!diff.is_empty());
}

#[test]
fn diff_classifies_every_case() {
    let local = snapshot(vec![
        ("same_dir", SnapshotItemMetadata::Directory),
        ("same_file", file(1, 2, 3)),
        ("changed", file(2, 2, 3)),
        ("new_dir", SnapshotItemMetadata::Directory),
        ("new_file", file(4, 4, 4)),
        ("now_file", file(9, 9, 9)),
        ("now_dir", SnapshotItemMetadata::Directory),
    ]);
    let remote = snapshot(vec![
        ("now_dir", file(8, 8, 8)),
        ("now_file", SnapshotItemMetadata::Directory),
        ("gone_file", file(6, 6, 6)),
        ("gone_dir", SnapshotItemMetadata::Directory),
        ("changed", file(1, 2, 3)),
        ("same_file", file(1, 2, 3)),
        ("same_dir", SnapshotItemMetadata::Directory),
    ]);
    let diff = Diff::build(&local, &remote);
    assert_eq!(paths(&diff.added), vec!["new_dir", "new_file"]);
    assert_eq!(paths(&diff.modified), vec!["changed"]);
    assert_eq!(diff.modified[0].1, DiffItemModified { prev: meta(1, 2, 3), new: meta(2, 2, 3) });
    assert_eq!(paths(&diff.type_changed), vec!["now_dir", "now_file"]);
    assert_eq!(
        diff.type_changed[0].1,
        DiffItemTypeChanged { prev: file(8, 8, 8), new: SnapshotItemMetadata::Directory }
    );
    assert_eq!(paths(&diff.deleted), vec!["gone_dir", "gone_file"]);
    assert_eq!(diff.deleted[1].1, DiffItemDeleted { prev: file(6, 6, 6) });
}

#[test]
fn diff_does_not_depend_on_the_order_of_items() {
    let a = snapshot(vec![("z", file(1, 1, 1)), ("m", file(2, 2, 2)), ("a", file(3, 3, 3))]);
    let b = snapshot(vec![("a", file(3, 3, 3)), ("z", file(1, 1, 1)), ("m", file(2, 2, 2))]);
    let remote = snapshot(vec![("m", file(2, 2, 9)), ("q", SnapshotItemMetadata::Directory)]);
    let d1 = Diff::build(&a, &remote);
    let d2 = Diff::build(&b, &remote);
    assert_eq!(d1.added, d2.added);
    assert_eq!(d1.modified, d2.modified);
    assert_eq!(d1.type_changed, d2.type_changed);
    assert_eq!(d1.deleted, d2.deleted);
    assert_eq!(paths(&d1.added), vec!["a", "z"]);
}

#[test]
fn swapping_the_sides_mirrors_the_diff() {
    let a = snapshot(vec![
        ("only_a", file(1, 1, 1)),
        ("both", file(2, 2, 2)),
        ("kind", SnapshotItemMetadata::Directory),
    ]);
    let b = snapshot(vec![
        ("only_b", SnapshotItemMetadata::Directory),
        ("both", file(3, 3, 3)),
        ("kind", file(4, 4, 4)),
    ]);
    let forth = Diff::build(&a, &b);
    let back = Diff::build(&b, &a);
    assert_eq!(paths(&forth.added), paths(&back.deleted));
    assert_eq!(forth.added[0].1.new, back.deleted[0].1.prev);
    assert_eq!(paths(&forth.deleted), paths(&back.added));
    assert_eq!(forth.deleted[0].1.prev, back.added[0].1.new);
    assert_eq!(paths(&forth.modified), paths(&back.modified));
    assert_eq!(forth.modified[0].1.prev, back.modified[0].1.new);
    assert_eq!(forth.modified[0].1.new, back.modified[0].1.prev);
    assert_eq!(forth.modified[0].1.new, meta(2, 2, 2));
    assert_eq!(paths(&forth.type_changed), paths(&back.type_changed));
    assert_eq!(forth.type_changed[0].1.prev, back.type_changed[0].1.new);
    assert_eq!(forth.type_changed[0].1.new, back.type_changed[0].1.prev);
}

#[test]
fn of_two_entries_with_one_path_the_later_counts() {
    let local = snapshot(vec![("f", file(1, 1, 1)), ("f", file(2, 2, 2))]);
    let remote = snapshot(vec![("f", file(2, 2, 2)), ("g", file(1, 1, 1)), ("g", file(5, 5, 5))]);
    let diff = Diff::build(&local, &remote);
    assert!(diff.added.is_empty() && diff.modified.is_empty() && diff.type_changed.is_empty());
    assert_eq!(paths(&diff.deleted), vec!["g"]);
    assert_eq!(diff.deleted[0].1.prev, file(5, 5, 5));
}

#[test]
fn plan_orders_directories() {
    let dir = SnapshotItemMetadata::Directory;
    let diff = Diff {
        added: vec![
            ("b/c".to_string(), DiffItemAdded { new: dir }),
            ("b".to_string(), DiffItemAdded { new: dir }),
            ("b/c/f".to_string(), DiffItemAdded { new: file(4, 0, 0) }),
        ],
        modified: vec![("m".to_string(), DiffItemModified { prev: meta(1, 0, 0), new: meta(2, 0, 0) })],
        type_changed: vec![
            ("a".to_string(), DiffItemTypeChanged { prev: file(1, 0, 0), new: dir }),
            ("y".to_string(), DiffItemTypeChanged { prev: dir, new: file(8, 0, 0) }),
        ],
        deleted: vec![
            ("x".to_string(), DiffItemDeleted { prev: dir }),
            ("x/y".to_string(), DiffItemDeleted { prev: dir }),
            ("x/y/z".to_string(), DiffItemDeleted { prev: file(1, 0, 0) }),
            ("x/a".to_string(), DiffItemDeleted { prev: dir }),
        ],
    };
    let ops = diff.ops();
    assert_eq!(ops.create_dirs, vec!["a".to_string(), "b".to_string(), "b/c".to_string()]);
    assert_eq!(
        ops.send_files,
        vec![
            ("b/c/f".to_string(), meta(4, 0, 0)),
            ("m".to_string(), meta(2, 0, 0)),
            ("y".to_string(), meta(8, 0, 0)),
        ]
    );
    assert_eq!(ops.delete_files, vec!["x/y/z".to_string(), "a".to_string()]);
    assert_eq!(
        ops.delete_empty_dirs,
        vec!["y".to_string(), "x/y".to_string(), "x/a".to_string(), "x".to_string()]
    );
    assert_eq!(ops.transfer_size(), Some(14));
    let again = diff.ops();
    assert_eq!(again.create_dirs, ops.create_dirs);
    assert_eq!(again.send_files, ops.send_files);
    assert_eq!(again.delete_files, ops.delete_files);
    assert_eq!(again.delete_empty_dirs, ops.delete_empty_dirs);
}

#[test]
fn transfer_size_beyond_64_bits_is_none() {
    let diff = Diff {
        added: vec![
            ("a".to_string(), DiffItemAdded { new: file(u64::MAX, 0, 0) }),
            ("b".to_string(), DiffItemAdded { new: file(1, 0, 0) }),
        ],
        modified: vec![],
        type_changed: vec![],
        deleted: vec![],
    };
    assert_eq!(diff.ops().transfer_size(), None);
    let diff = Diff {
        added: vec![("a".to_string(), DiffItemAdded { new: file(u64::MAX, 0, 0) })],
        modified: vec![],
        type_changed: vec![],
        deleted: vec![],
    };
    assert_eq!(diff.ops().transfer_size(), Some(u64::MAX));
}

fn carry_out(
    remote: &Snapshot,
    ops: &DiffApplyOps,
) -> std::collections::BTreeMap<String, SnapshotItemMetadata> {
    let mut tree: std::collections::BTreeMap<String, SnapshotItemMetadata> =
        remote.items.iter().map(|i| (i.relative_path.clone(), i.metadata)).collect();
    for path in &ops.delete_files {
        assert!(matches!(tree.remove(path), Some(SnapshotItemMetadata::File(_))));
    }
    for path in &ops.delete_empty_dirs {
        // a directory is empty by the time it is removed
        assert!(!tree.keys().any(|k| k.starts_with(&format!("{}/", path))), "{}", path);
        assert!(matches!(tree.remove(path), Some(SnapshotItemMetadata::Directory)));
    }
    for (path, m) in &ops.send_files {
        tree.insert(path.clone(), SnapshotItemMetadata::File(*m));
    }
    for path in &ops.create_dirs {
        // a directory is created after the one above it
        if let Some((parent, _)) = path.rsplit_once('/') {
            assert!(matches!(tree.get(parent), Some(SnapshotItemMetadata::Directory)), "{}", path);
        }
        assert!(tree.insert(path.clone(), SnapshotItemMetadata::Directory).is_none());
    }
    tree
}

#[test]
fn carrying_out_the_plan_makes_the_trees_equal() {
    let dir = SnapshotItemMetadata::Directory;
    let local = snapshot(vec![
        ("a", dir),
        ("a/b", dir),
        ("a/b/c.txt", file(1, 10, 0)),
        ("a/same.txt", file(2, 10, 0)),
        ("changed.txt", file(3, 20, 0)),
        ("slow.txt", file(4, 30, 400_000_000)),
        ("was_dir", file(5, 40, 0)),
        ("was_file", dir),
        ("was_file/new.txt", file(6, 50, 0)),
    ]);
    let remote = snapshot(vec![
        ("a", dir),
        ("a/same.txt", file(2, 10, 0)),
        ("changed.txt", file(30, 2, 0)),
        ("slow.txt", file(4, 30, 0)),
        ("was_dir", dir),
        ("was_dir/inner", dir),
        ("was_dir/inner/x", file(7, 7, 7)),
        ("was_file", file(8, 8, 8)),
        ("gone", dir),
        ("gone/y", file(9, 9, 9)),
    ]);
    let wanted: std::collections::BTreeMap<String, SnapshotItemMetadata> =
        local.items.iter().map(|i| (i.relative_path.clone(), i.metadata)).collect();

    let whole = Diff::build(&local, &remote);
    assert_eq!(carry_out(&remote, &whole.ops()), wanted);

    // with a granularity, the file that is off by less keeps its remote time
    let settled = whole.apply_time_granularity(1, 0);
    let after = carry_out(&remote, &settled.ops());
    let mut nearly = wanted.clone();
    nearly.insert("slow.txt".to_string(), file(4, 30, 0));
    assert_eq!(after, nearly);
}

#[test]
fn the_same_entries_in_any_order_have_an_empty_diff() {
    let dir = SnapshotItemMetadata::Directory;
    let local = snapshot(vec![
        ("a.txt", file(3, 10, 0)),
        ("sub", dir),
        ("sub/b.txt", file(5, 11, 500)),
        ("sub/c", dir),
    ]);
    // another order, another root, and an entry listed twice
    let mut remote = snapshot(vec![
        ("sub/c", dir),
        ("sub/b.txt", file(5, 11, 500)),
        ("a.txt", file(3, 10, 0)),
        ("sub", dir),
        ("sub/b.txt", file(5, 11, 500)),
    ]);
    remote.from_dir = String::from("/elsewhere");
    for (x, y) in [(&local, &remote), (&remote, &local), (&local, &local)] {
        let diff = Diff::build(x, y);
        assert!(diff.added.is_empty());
        assert!(diff.modified.is_empty());
        assert!(diff.type_changed.is_empty());
        assert!(diff.deleted.is_empty());
        assert!(diff.is_empty());
    }
    // one entry apart, and the diff is not empty
    let other = snapshot(vec![
        ("a.txt", file(3, 10, 1)),
        ("sub", dir),
        ("sub/b.txt", file(5, 11, 500)),
        ("sub/c", dir),
    ]);
    assert!(!Diff::build(&local, &other).is_empty());
}
