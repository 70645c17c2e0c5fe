//! The difference between two snapshots, and the plan that makes the remote
//! tree equal to the local one.

use crate::order::{
    ascending, descending, lemma_path_leq_antisymmetric, lemma_path_orders_total, path_leq,
    path_views, sort_paths,
};
use crate::snapshot::{
    catalog, item_views, lemma_catalog_dom, Snapshot, SnapshotFileMetadata, SnapshotItem,
    SnapshotItemMetadata,
};
use vstd::hash_map::StringHashMap;
use vstd::prelude::*;
use vstd::relations::sorted_by;

verus! {

broadcast use vstd::seq::Seq::lemma_filter_map_take_succ;

/// A path that only the local side has.
#[derive(Clone, Copy, Debug, PartialEq, Eq, Structural)]
pub struct DiffItemAdded {
    pub new: SnapshotItemMetadata,
}

/// A file that both sides have, with different metadata.
#[derive(Clone, Copy, Debug, PartialEq, Eq, Structural)]
pub struct DiffItemModified {
    pub prev: SnapshotFileMetadata,
    pub new: SnapshotFileMetadata,
}

/// A path that is a file on one side and a directory on the other.
#[derive(Clone, Copy, Debug, PartialEq, Eq, Structural)]
pub struct DiffItemTypeChanged {
    pub prev: SnapshotItemMetadata,
    pub new: SnapshotItemMetadata,
}

/// A path that only the remote side has.
#[derive(Clone, Copy, Debug, PartialEq, Eq, Structural)]
pub struct DiffItemDeleted {
    pub prev: SnapshotItemMetadata,
}

/// How a path differs between the two sides.
#[derive(Clone, Copy, Debug, PartialEq, Eq, Structural)]
pub enum DiffType {
    Added(DiffItemAdded),
    Modified(DiffItemModified),
    TypeChanged(DiffItemTypeChanged),
    Deleted(DiffItemDeleted),
}

/// One difference: a path and how it differs.
#[derive(Debug)]
pub struct DiffItem {
    pub status: DiffType,
    pub path: String,
}

/// A `DiffItem` as a plain value.
pub struct DiffEntry {
    pub path: Seq<char>,
    pub status: DiffType,
}

impl View for DiffItem {
    type V = DiffEntry;

    open spec fn view(&self) -> DiffEntry {
        DiffEntry { path: self.path@, status: self.status }
    }
}

/// The differences between two snapshots, one list per kind.
#[derive(Debug)]
pub struct Diff {
    pub added: Vec<(String, DiffItemAdded)>,
    pub modified: Vec<(String, DiffItemModified)>,
    pub type_changed: Vec<(String, DiffItemTypeChanged)>,
    pub deleted: Vec<(String, DiffItemDeleted)>,
}

/// A `Diff` as a plain value.
pub struct DiffView {
    pub added: Seq<(Seq<char>, DiffItemAdded)>,
    pub modified: Seq<(Seq<char>, DiffItemModified)>,
    pub type_changed: Seq<(Seq<char>, DiffItemTypeChanged)>,
    pub deleted: Seq<(Seq<char>, DiffItemDeleted)>,
}

/// A list of pairs with each path taken as a plain value.
pub open spec fn keyed<T>(v: Seq<(String, T)>) -> Seq<(Seq<char>, T)> {
    v.map_values(|e: (String, T)| (e.0@, e.1))
}

impl View for Diff {
    type V = DiffView;

    open spec fn view(&self) -> DiffView {
        DiffView {
            added: keyed(self.added@),
            modified: keyed(self.modified@),
            type_changed: keyed(self.type_changed@),
            deleted: keyed(self.deleted@),
        }
    }
}

/// The items of a vector as plain values.
pub open spec fn entries(items: Seq<DiffItem>) -> Seq<DiffEntry> {
    items.map_values(|i: DiffItem| i@)
}

/// Picks the entries that are additions.
pub open spec fn pick_added() -> spec_fn(DiffEntry) -> Option<(Seq<char>, DiffItemAdded)> {
    |e: DiffEntry|
        match e.status {
            DiffType::Added(i) => Some((e.path, i)),
            _ => None,
        }
}

/// Picks the entries that are modifications.
pub open spec fn pick_modified() -> spec_fn(DiffEntry) -> Option<(Seq<char>, DiffItemModified)> {
    |e: DiffEntry|
        match e.status {
            DiffType::Modified(i) => Some((e.path, i)),
            _ => None,
        }
}

/// Picks the entries that are changes of type.
pub open spec fn pick_type_changed() -> spec_fn(DiffEntry) -> Option<
    (Seq<char>, DiffItemTypeChanged),
> {
    |e: DiffEntry|
        match e.status {
            DiffType::TypeChanged(i) => Some((e.path, i)),
            _ => None,
        }
}

/// Picks the entries that are deletions.
pub open spec fn pick_deleted() -> spec_fn(DiffEntry) -> Option<(Seq<char>, DiffItemDeleted)> {
    |e: DiffEntry|
        match e.status {
            DiffType::Deleted(i) => Some((e.path, i)),
            _ => None,
        }
}

/// The entries sorted into the four lists, each keeping the order of the entries.
pub open spec fn partition(items: Seq<DiffEntry>) -> DiffView {
    DiffView {
        added: items.filter_map(pick_added()),
        modified: items.filter_map(pick_modified()),
        type_changed: items.filter_map(pick_type_changed()),
        deleted: items.filter_map(pick_deleted()),
    }
}

impl Diff {
    /// Sorts the items into the four lists, each in the order of `items`.
    pub fn new(items: Vec<DiffItem>) -> (diff: Self)
        ensures
            diff@ == partition(entries(items@)),
    {
        let mut added: Vec<(String, DiffItemAdded)> = Vec::new();
        let mut modified: Vec<(String, DiffItemModified)> = Vec::new();
        let mut type_changed: Vec<(String, DiffItemTypeChanged)> = Vec::new();
        let mut deleted: Vec<(String, DiffItemDeleted)> = Vec::new();
        let ghost all = entries(items@);
        for item in it: items
            invariant
                all == entries(items@),
                it.seq() == items@,
                keyed(added@) == all.take(it.index() as int).filter_map(pick_added()),
                keyed(modified@) == all.take(it.index() as int).filter_map(pick_modified()),
                keyed(type_changed@) == all.take(it.index() as int).filter_map(pick_type_changed()),
                keyed(deleted@) == all.take(it.index() as int).filter_map(pick_deleted()),
        {
            let ghost k = it.index() as int;
            let ghost a0 = added@;
            let ghost m0 = modified@;
            let ghost t0 = type_changed@;
            let ghost d0 = deleted@;
            assert(all[k] == item@);
            match item.status {
                DiffType::Added(i) => {
                    added.push((item.path, i));
                    assert(keyed(added@) =~= keyed(a0) + seq![(item@.path, i)]);
                },
                DiffType::Modified(i) => {
                    modified.push((item.path, i));
                    assert(keyed(modified@) =~= keyed(m0) + seq![(item@.path, i)]);
                },
                DiffType::TypeChanged(i) => {
                    type_changed.push((item.path, i));
                    assert(keyed(type_changed@) =~= keyed(t0) + seq![(item@.path, i)]);
                },
                DiffType::Deleted(i) => {
                    deleted.push((item.path, i));
                    assert(keyed(deleted@) =~= keyed(d0) + seq![(item@.path, i)]);
                },
            }
        }
        assert(all.take(all.len() as int) =~= all);
        Diff { added, modified, type_changed, deleted }
    }
}

/// The filesystem operations that carry a diff out.
#[derive(Debug)]
pub struct DiffApplyOps {
    pub create_dirs: Vec<String>,
    pub send_files: Vec<(String, SnapshotFileMetadata)>,
    pub delete_files: Vec<String>,
    pub delete_empty_dirs: Vec<String>,
}

/// A `DiffApplyOps` as a plain value.
pub struct DiffApplyOpsView {
    pub create_dirs: Seq<Seq<char>>,
    pub send_files: Seq<(Seq<char>, SnapshotFileMetadata)>,
    pub delete_files: Seq<Seq<char>>,
    pub delete_empty_dirs: Seq<Seq<char>>,
}

impl View for DiffApplyOps {
    type V = DiffApplyOpsView;

    open spec fn view(&self) -> DiffApplyOpsView {
        DiffApplyOpsView {
            create_dirs: path_views(self.create_dirs@),
            send_files: keyed(self.send_files@),
            delete_files: path_views(self.delete_files@),
            delete_empty_dirs: path_views(self.delete_empty_dirs@),
        }
    }
}

/// The path, where the metadata is that of a directory.
pub open spec fn dir_path(path: Seq<char>, metadata: SnapshotItemMetadata) -> Option<Seq<char>> {
    match metadata {
        SnapshotItemMetadata::Directory => Some(path),
        SnapshotItemMetadata::File(_) => None,
    }
}

/// The path, where the metadata is that of a file.
pub open spec fn file_path(path: Seq<char>, metadata: SnapshotItemMetadata) -> Option<Seq<char>> {
    match metadata {
        SnapshotItemMetadata::Directory => None,
        SnapshotItemMetadata::File(_) => Some(path),
    }
}

/// The path with the file's metadata, where the metadata is that of a file.
pub open spec fn file_entry(path: Seq<char>, metadata: SnapshotItemMetadata) -> Option<
    (Seq<char>, SnapshotFileMetadata),
> {
    match metadata {
        SnapshotItemMetadata::Directory => None,
        SnapshotItemMetadata::File(m) => Some((path, m)),
    }
}

/// Picks the paths of the directories that were added.
pub open spec fn added_dir() -> spec_fn((Seq<char>, DiffItemAdded)) -> Option<Seq<char>> {
    |e: (Seq<char>, DiffItemAdded)| dir_path(e.0, e.1.new)
}

/// Picks the files that were added, each with its metadata.
pub open spec fn added_file() -> spec_fn((Seq<char>, DiffItemAdded)) -> Option<
    (Seq<char>, SnapshotFileMetadata),
> {
    |e: (Seq<char>, DiffItemAdded)| file_entry(e.0, e.1.new)
}

/// Gives a modified file with its local metadata.
pub open spec fn modified_file() -> spec_fn((Seq<char>, DiffItemModified)) -> (
    Seq<char>,
    SnapshotFileMetadata,
) {
    |e: (Seq<char>, DiffItemModified)| (e.0, e.1.new)
}

/// Picks the paths at which a directory takes the place of a file.
pub open spec fn became_dir() -> spec_fn((Seq<char>, DiffItemTypeChanged)) -> Option<Seq<char>> {
    |e: (Seq<char>, DiffItemTypeChanged)| dir_path(e.0, e.1.new)
}

/// Picks the files that take the place of a directory, each with its metadata.
pub open spec fn became_file() -> spec_fn((Seq<char>, DiffItemTypeChanged)) -> Option<
    (Seq<char>, SnapshotFileMetadata),
> {
    |e: (Seq<char>, DiffItemTypeChanged)| file_entry(e.0, e.1.new)
}

/// Picks the paths at which a file takes the place of a directory.
pub open spec fn was_dir() -> spec_fn((Seq<char>, DiffItemTypeChanged)) -> Option<Seq<char>> {
    |e: (Seq<char>, DiffItemTypeChanged)| dir_path(e.0, e.1.prev)
}

/// Picks the paths of the files that a directory takes the place of.
pub open spec fn was_file() -> spec_fn((Seq<char>, DiffItemTypeChanged)) -> Option<Seq<char>> {
    |e: (Seq<char>, DiffItemTypeChanged)| file_path(e.0, e.1.prev)
}

/// Picks the paths of the directories that were deleted.
pub open spec fn deleted_dir() -> spec_fn((Seq<char>, DiffItemDeleted)) -> Option<Seq<char>> {
    |e: (Seq<char>, DiffItemDeleted)| dir_path(e.0, e.1.prev)
}

/// Picks the paths of the files that were deleted.
pub open spec fn deleted_file() -> spec_fn((Seq<char>, DiffItemDeleted)) -> Option<Seq<char>> {
    |e: (Seq<char>, DiffItemDeleted)| file_path(e.0, e.1.prev)
}

/// The directories that the plan creates, before they are sorted: those added,
/// then those that replace a file.
pub open spec fn dirs_to_create(d: DiffView) -> Seq<Seq<char>> {
    d.added.filter_map(added_dir()) + d.type_changed.filter_map(became_dir())
}

/// The files that the plan sends: those added, those modified, then those that
/// replace a directory, each with the local metadata.
pub open spec fn files_to_send(d: DiffView) -> Seq<(Seq<char>, SnapshotFileMetadata)> {
    d.added.filter_map(added_file()) + d.modified.map_values(modified_file())
        + d.type_changed.filter_map(became_file())
}

/// The files that the plan deletes: those deleted, then those that a directory replaces.
pub open spec fn files_to_delete(d: DiffView) -> Seq<Seq<char>> {
    d.deleted.filter_map(deleted_file()) + d.type_changed.filter_map(was_file())
}

/// The directories that the plan deletes, before they are sorted: those
/// deleted, then those that a file replaces.
pub open spec fn dirs_to_delete(d: DiffView) -> Seq<Seq<char>> {
    d.deleted.filter_map(deleted_dir()) + d.type_changed.filter_map(was_dir())
}

/// The plan of a diff. Directories are created in ascending order, so that a
/// parent comes before its children, and deleted in descending order, so that
/// children go before their parent.
pub open spec fn plan(d: DiffView) -> DiffApplyOpsView {
    DiffApplyOpsView {
        create_dirs: dirs_to_create(d).sort_by(ascending()),
        send_files: files_to_send(d),
        delete_files: files_to_delete(d),
        delete_empty_dirs: dirs_to_delete(d).sort_by(descending()),
    }
}

fn scan_added(
    added: &Vec<(String, DiffItemAdded)>,
    dirs: &mut Vec<String>,
    files: &mut Vec<(String, SnapshotFileMetadata)>,
)
    ensures
        path_views(final(dirs)@) == path_views(old(dirs)@) + keyed(added@).filter_map(added_dir()),
        keyed(final(files)@) == keyed(old(files)@) + keyed(added@).filter_map(added_file()),
{
    let ghost all = keyed(added@);
    let ghost dirs0 = path_views(dirs@);
    let ghost files0 = keyed(files@);
    let mut i: usize = 0;
    while i < added.len()
        invariant
            i <= added.len(),
            all == keyed(added@),
            path_views(dirs@) == dirs0 + all.take(i as int).filter_map(added_dir()),
            keyed(files@) == files0 + all.take(i as int).filter_map(added_file()),
        decreases added.len() - i,
    {
        let ghost d = dirs@;
        let ghost f = files@;
        match added[i].1.new {
            SnapshotItemMetadata::Directory => {
                dirs.push(added[i].0.clone());
                assert(path_views(dirs@) =~= path_views(d) + seq![all[i as int].0]);
            },
            SnapshotItemMetadata::File(m) => {
                files.push((added[i].0.clone(), m));
                assert(keyed(files@) =~= keyed(f) + seq![(all[i as int].0, m)]);
            },
        }
        i += 1;
    }
    assert(all.take(i as int) =~= all);
}

fn scan_modified(
    modified: &Vec<(String, DiffItemModified)>,
    files: &mut Vec<(String, SnapshotFileMetadata)>,
)
    ensures
        keyed(final(files)@) == keyed(old(files)@) + keyed(modified@).map_values(modified_file()),
{
    let ghost all = keyed(modified@);
    let ghost files0 = keyed(files@);
    let mut i: usize = 0;
    while i < modified.len()
        invariant
            i <= modified.len(),
            all == keyed(modified@),
            keyed(files@) == files0 + all.take(i as int).map_values(modified_file()),
        decreases modified.len() - i,
    {
        let ghost f = files@;
        files.push((modified[i].0.clone(), modified[i].1.new));
        assert(keyed(files@) =~= keyed(f) + seq![(all[i as int].0, all[i as int].1.new)]);
        assert(all.take(i + 1).map_values(modified_file()) =~= all.take(i as int).map_values(
            modified_file(),
        ) + seq![(all[i as int].0, all[i as int].1.new)]);
        i += 1;
    }
    assert(all.take(i as int) =~= all);
}

fn scan_deleted(
    deleted: &Vec<(String, DiffItemDeleted)>,
    files: &mut Vec<String>,
    dirs: &mut Vec<String>,
)
    ensures
        path_views(final(files)@) == path_views(old(files)@) + keyed(deleted@).filter_map(
            deleted_file(),
        ),
        path_views(final(dirs)@) == path_views(old(dirs)@) + keyed(deleted@).filter_map(
            deleted_dir(),
        ),
{
    let ghost all = keyed(deleted@);
    let ghost dirs0 = path_views(dirs@);
    let ghost files0 = path_views(files@);
    let mut i: usize = 0;
    while i < deleted.len()
        invariant
            i <= deleted.len(),
            all == keyed(deleted@),
            path_views(dirs@) == dirs0 + all.take(i as int).filter_map(deleted_dir()),
            path_views(files@) == files0 + all.take(i as int).filter_map(deleted_file()),
        decreases deleted.len() - i,
    {
        let ghost d = dirs@;
        let ghost f = files@;
        match deleted[i].1.prev {
            SnapshotItemMetadata::Directory => {
                dirs.push(deleted[i].0.clone());
                assert(path_views(dirs@) =~= path_views(d) + seq![all[i as int].0]);
            },
            SnapshotItemMetadata::File(_) => {
                files.push(deleted[i].0.clone());
                assert(path_views(files@) =~= path_views(f) + seq![all[i as int].0]);
            },
        }
        i += 1;
    }
    assert(all.take(i as int) =~= all);
}

fn scan_type_changed(
    type_changed: &Vec<(String, DiffItemTypeChanged)>,
    create_dirs: &mut Vec<String>,
    send_files: &mut Vec<(String, SnapshotFileMetadata)>,
    delete_files: &mut Vec<String>,
    delete_dirs: &mut Vec<String>,
)
    ensures
        path_views(final(create_dirs)@) == path_views(old(create_dirs)@) + keyed(
            type_changed@,
        ).filter_map(became_dir()),
        keyed(final(send_files)@) == keyed(old(send_files)@) + keyed(type_changed@).filter_map(
            became_file(),
        ),
        path_views(final(delete_files)@) == path_views(old(delete_files)@) + keyed(
            type_changed@,
        ).filter_map(was_file()),
        path_views(final(delete_dirs)@) == path_views(old(delete_dirs)@) + keyed(
            type_changed@,
        ).filter_map(was_dir()),
{
    let ghost all = keyed(type_changed@);
    let ghost create0 = path_views(create_dirs@);
    let ghost send0 = keyed(send_files@);
    let ghost files0 = path_views(delete_files@);
    let ghost dirs0 = path_views(delete_dirs@);
    let mut i: usize = 0;
    while i < type_changed.len()
        invariant
            i <= type_changed.len(),
            all == keyed(type_changed@),
            path_views(create_dirs@) == create0 + all.take(i as int).filter_map(became_dir()),
            keyed(send_files@) == send0 + all.take(i as int).filter_map(became_file()),
            path_views(delete_files@) == files0 + all.take(i as int).filter_map(was_file()),
            path_views(delete_dirs@) == dirs0 + all.take(i as int).filter_map(was_dir()),
        decreases type_changed.len() - i,
    {
        let ghost c = create_dirs@;
        let ghost s = send_files@;
        let ghost f = delete_files@;
        let ghost d = delete_dirs@;
        match type_changed[i].1.new {
            SnapshotItemMetadata::Directory => {
                create_dirs.push(type_changed[i].0.clone());
                assert(path_views(create_dirs@) =~= path_views(c) + seq![all[i as int].0]);
            },
            SnapshotItemMetadata::File(m) => {
                send_files.push((type_changed[i].0.clone(), m));
                assert(keyed(send_files@) =~= keyed(s) + seq![(all[i as int].0, m)]);
            },
        }
        match type_changed[i].1.prev {
            SnapshotItemMetadata::Directory => {
                delete_dirs.push(type_changed[i].0.clone());
                assert(path_views(delete_dirs@) =~= path_views(d) + seq![all[i as int].0]);
            },
            SnapshotItemMetadata::File(_) => {
                delete_files.push(type_changed[i].0.clone());
                assert(path_views(delete_files@) =~= path_views(f) + seq![all[i as int].0]);
            },
        }
        i += 1;
    }
    assert(all.take(i as int) =~= all);
}

impl DiffApplyOps {
    /// Derives the plan of a diff.
    pub fn new(diff: &Diff) -> (ops: Self)
        ensures
            ops@ == plan(diff@),
    {
        let mut create_dirs: Vec<String> = Vec::new();
        let mut send_files: Vec<(String, SnapshotFileMetadata)> = Vec::new();
        let mut delete_files: Vec<String> = Vec::new();
        let mut delete_dirs: Vec<String> = Vec::new();
        assert(path_views(create_dirs@) =~= Seq::empty());
        assert(keyed(send_files@) =~= Seq::empty());
        assert(path_views(delete_files@) =~= Seq::empty());
        assert(path_views(delete_dirs@) =~= Seq::empty());
        scan_added(&diff.added, &mut create_dirs, &mut send_files);
        scan_modified(&diff.modified, &mut send_files);
        scan_deleted(&diff.deleted, &mut delete_files, &mut delete_dirs);
        scan_type_changed(
            &diff.type_changed,
            &mut create_dirs,
            &mut send_files,
            &mut delete_files,
            &mut delete_dirs,
        );
        assert(path_views(create_dirs@) =~= dirs_to_create(diff@));
        assert(keyed(send_files@) =~= files_to_send(diff@));
        assert(path_views(delete_files@) =~= files_to_delete(diff@));
        assert(path_views(delete_dirs@) =~= dirs_to_delete(diff@));
        DiffApplyOps {
            create_dirs: sort_paths(&create_dirs, false),
            send_files,
            delete_files,
            delete_empty_dirs: sort_paths(&delete_dirs, true),
        }
    }
}

impl Diff {
    /// The plan that carries this diff out.
    pub fn ops(&self) -> (ops: DiffApplyOps)
        ensures
            ops@ == plan(self@),
    {
        DiffApplyOps::new(self)
    }
}

/// What a catalogue says of a path, if anything.
pub open spec fn entry_of(
    side: Map<Seq<char>, SnapshotItemMetadata>,
    path: Seq<char>,
) -> Option<SnapshotItemMetadata> {
    if side.contains_key(path) {
        Some(side[path])
    } else {
        None
    }
}

/// How a path differs, given what each side says of it. `None` where the
/// sides agree: both lack it, both have a directory, or both have a file
/// with the same metadata.
pub open spec fn classify(
    local: Option<SnapshotItemMetadata>,
    remote: Option<SnapshotItemMetadata>,
) -> Option<DiffType> {
    match (local, remote) {
        (None, None) => None,
        (Some(new), None) => Some(DiffType::Added(DiffItemAdded { new })),
        (None, Some(prev)) => Some(DiffType::Deleted(DiffItemDeleted { prev })),
        (Some(SnapshotItemMetadata::Directory), Some(SnapshotItemMetadata::Directory)) => None,
        (Some(SnapshotItemMetadata::File(new)), Some(SnapshotItemMetadata::File(prev))) => if new
            == prev {
            None
        } else {
            Some(DiffType::Modified(DiffItemModified { prev, new }))
        },
        (Some(new), Some(prev)) => Some(DiffType::TypeChanged(DiffItemTypeChanged { prev, new })),
    }
}

/// How a path differs between two catalogues.
pub open spec fn status_of(
    local: Map<Seq<char>, SnapshotItemMetadata>,
    remote: Map<Seq<char>, SnapshotItemMetadata>,
    path: Seq<char>,
) -> Option<DiffType> {
    classify(entry_of(local, path), entry_of(remote, path))
}

/// The paths of a list of pairs.
pub open spec fn bucket_paths<T>(bucket: Seq<(Seq<char>, T)>) -> Seq<Seq<char>> {
    bucket.map_values(|e: (Seq<char>, T)| e.0)
}

/// Each path comes strictly before the next: ascending, and none twice.
pub open spec fn strictly_ascending(paths: Seq<Seq<char>>) -> bool {
    forall|i: int, j: int|
        #![trigger paths[i], paths[j]]
        0 <= i < j < paths.len() ==> paths[i] != paths[j] && path_leq(paths[i], paths[j])
}

/// `d` is the diff that takes `remote` to `local`: each list is strictly
/// ascending by path, and holds a path exactly when the path differs in that
/// way, with the metadata of both sides.
pub open spec fn is_diff_of(
    d: DiffView,
    local: Map<Seq<char>, SnapshotItemMetadata>,
    remote: Map<Seq<char>, SnapshotItemMetadata>,
) -> bool {
    &&& strictly_ascending(bucket_paths(d.added))
    &&& strictly_ascending(bucket_paths(d.modified))
    &&& strictly_ascending(bucket_paths(d.type_changed))
    &&& strictly_ascending(bucket_paths(d.deleted))
    &&& forall|p: Seq<char>, i: DiffItemAdded| #[trigger]
        d.added.contains((p, i)) <==> status_of(local, remote, p) == Some(DiffType::Added(i))
    &&& forall|p: Seq<char>, i: DiffItemModified| #[trigger]
        d.modified.contains((p, i)) <==> status_of(local, remote, p) == Some(DiffType::Modified(i))
    &&& forall|p: Seq<char>, i: DiffItemTypeChanged| #[trigger]
        d.type_changed.contains((p, i)) <==> status_of(local, remote, p) == Some(
            DiffType::TypeChanged(i),
        )
    &&& forall|p: Seq<char>, i: DiffItemDeleted| #[trigger]
        d.deleted.contains((p, i)) <==> status_of(local, remote, p) == Some(DiffType::Deleted(i))
}

/// A diff holds nothing.
pub open spec fn is_empty_diff(d: DiffView) -> bool {
    d.added.len() == 0 && d.modified.len() == 0 && d.type_changed.len() == 0 && d.deleted.len()
        == 0
}

/// The diff between two trees holds nothing exactly when the trees are the
/// same: each says of every path what the other says.
pub proof fn lemma_empty_diff_iff_equal(
    d: DiffView,
    local: Map<Seq<char>, SnapshotItemMetadata>,
    remote: Map<Seq<char>, SnapshotItemMetadata>,
)
    requires
        is_diff_of(d, local, remote),
    ensures
        is_empty_diff(d) <==> local == remote,
{
    if local == remote {
        if d.added.len() > 0 {
            assert(d.added.contains((d.added[0].0, d.added[0].1)));
        }
        if d.modified.len() > 0 {
            assert(d.modified.contains((d.modified[0].0, d.modified[0].1)));
        }
        if d.type_changed.len() > 0 {
            assert(d.type_changed.contains((d.type_changed[0].0, d.type_changed[0].1)));
        }
        if d.deleted.len() > 0 {
            assert(d.deleted.contains((d.deleted[0].0, d.deleted[0].1)));
        }
    }
    if is_empty_diff(d) {
        assert forall|p: Seq<char>| entry_of(local, p) == entry_of(remote, p) by {
            match status_of(local, remote, p) {
                Some(DiffType::Added(i)) => {
                    assert(d.added.contains((p, i)));
                },
                Some(DiffType::Modified(i)) => {
                    assert(d.modified.contains((p, i)));
                },
                Some(DiffType::TypeChanged(i)) => {
                    assert(d.type_changed.contains((p, i)));
                },
                Some(DiffType::Deleted(i)) => {
                    assert(d.deleted.contains((p, i)));
                },
                None => {},
            }
        }
        assert forall|p: Seq<char>| local.contains_key(p) <==> remote.contains_key(p) by {
            assert(entry_of(local, p) == entry_of(remote, p));
        }
        assert forall|p: Seq<char>| local.contains_key(p) implies local[p] == remote[p] by {
            assert(entry_of(local, p) == entry_of(remote, p));
        }
        assert(local =~= remote);
    }
}

/// The paths of a list of entries.
pub open spec fn entry_paths(es: Seq<DiffEntry>) -> Seq<Seq<char>> {
    es.map_values(|e: DiffEntry| e.path)
}

/// `es` lists the paths that differ between the two catalogues, each once,
/// in ascending order and with its status.
pub open spec fn is_listing(
    es: Seq<DiffEntry>,
    local: Map<Seq<char>, SnapshotItemMetadata>,
    remote: Map<Seq<char>, SnapshotItemMetadata>,
) -> bool {
    &&& strictly_ascending(entry_paths(es))
    &&& forall|k: int|
        0 <= k < es.len() ==> status_of(local, remote, (#[trigger] es[k]).path) == Some(
            es[k].status,
        )
    &&& forall|p: Seq<char>|
        (#[trigger] status_of(local, remote, p)) is Some ==> exists|k: int|
            0 <= k < es.len() && (#[trigger] es[k]).path == p
}

/// What `filter_map` keeps is what some element maps to.
pub proof fn lemma_filter_map_holds<A, B>(s: Seq<A>, f: spec_fn(A) -> Option<B>, x: B)
    ensures
        s.filter_map(f).contains(x) <==> exists|k: int|
            0 <= k < s.len() && f(#[trigger] s[k]) == Some(x),
    decreases s.len(),
{
    if s.len() > 0 {
        let rest = s.drop_last();
        lemma_filter_map_holds(rest, f, x);
        let kept = rest.filter_map(f);
        if s.filter_map(f).contains(x) {
            let j = choose|j: int| 0 <= j < s.filter_map(f).len() && s.filter_map(f)[j] == x;
            if j < kept.len() {
                assert(kept[j] == x);
                assert(kept.contains(x));
                let k = choose|k: int| 0 <= k < rest.len() && f(#[trigger] rest[k]) == Some(x);
                assert(f(s[k]) == Some(x));
            } else {
                assert(f(s[s.len() - 1]) == Some(x));
            }
        }
        if exists|k: int| 0 <= k < s.len() && f(#[trigger] s[k]) == Some(x) {
            let k = choose|k: int| 0 <= k < s.len() && f(#[trigger] s[k]) == Some(x);
            if k < rest.len() {
                assert(f(rest[k]) == Some(x));
                let j = choose|j: int| 0 <= j < kept.len() && kept[j] == x;
                assert(s.filter_map(f)[j] == x);
            } else {
                assert(s.filter_map(f)[kept.len() as int] == x);
            }
        }
    }
}

/// Picking entries out of a strictly ascending list, each under its own
/// path, gives a strictly ascending list.
proof fn lemma_picked_ascending<B>(
    es: Seq<DiffEntry>,
    f: spec_fn(DiffEntry) -> Option<(Seq<char>, B)>,
)
    requires
        strictly_ascending(entry_paths(es)),
        forall|e: DiffEntry| (#[trigger] f(e)) is Some ==> f(e).unwrap().0 == e.path,
    ensures
        strictly_ascending(bucket_paths(es.filter_map(f))),
    decreases es.len(),
{
    if es.len() > 0 {
        let rest = es.drop_last();
        let last = es.last();
        assert forall|i: int, j: int| 0 <= i < j < rest.len() implies #[trigger] entry_paths(
            rest,
        )[i] != #[trigger] entry_paths(rest)[j] && path_leq(
            entry_paths(rest)[i],
            entry_paths(rest)[j],
        ) by {
            assert(entry_paths(es)[i] == entry_paths(rest)[i]);
            assert(entry_paths(es)[j] == entry_paths(rest)[j]);
        }
        lemma_picked_ascending(rest, f);
        let kept = rest.filter_map(f);
        let all = es.filter_map(f);
        assert forall|i: int, j: int| 0 <= i < j < all.len() implies #[trigger] bucket_paths(
            all,
        )[i] != #[trigger] bucket_paths(all)[j] && path_leq(
            bucket_paths(all)[i],
            bucket_paths(all)[j],
        ) by {
            if j < kept.len() {
                assert(bucket_paths(kept)[i] == bucket_paths(all)[i]);
                assert(bucket_paths(kept)[j] == bucket_paths(all)[j]);
            } else {
                assert(all[j] == f(last).unwrap());
                assert(kept[i] == all[i]);
                assert(kept.contains(all[i]));
                lemma_filter_map_holds(rest, f, all[i]);
                let k = choose|k: int| 0 <= k < rest.len() && f(#[trigger] rest[k]) == Some(all[i]);
                assert(entry_paths(es)[k] == all[i].0);
                assert(entry_paths(es)[es.len() - 1] == last.path);
            }
        }
    }
}

/// A listing, sorted into the four lists, is the diff.
pub proof fn lemma_partition_is_diff(
    es: Seq<DiffEntry>,
    local: Map<Seq<char>, SnapshotItemMetadata>,
    remote: Map<Seq<char>, SnapshotItemMetadata>,
)
    requires
        is_listing(es, local, remote),
    ensures
        is_diff_of(partition(es), local, remote),
{
    let d = partition(es);
    lemma_picked_ascending(es, pick_added());
    lemma_picked_ascending(es, pick_modified());
    lemma_picked_ascending(es, pick_type_changed());
    lemma_picked_ascending(es, pick_deleted());
    assert forall|p: Seq<char>, i: DiffItemAdded| #[trigger]
        d.added.contains((p, i)) <==> status_of(local, remote, p) == Some(
            DiffType::Added(i),
        ) by {
        lemma_filter_map_holds(es, pick_added(), (p, i));
        if status_of(local, remote, p) == Some(DiffType::Added(i)) {
            let k = choose|k: int| 0 <= k < es.len() && (#[trigger] es[k]).path == p;
            assert(pick_added()(es[k]) == Some((p, i)));
        }
    }
    assert forall|p: Seq<char>, i: DiffItemModified| #[trigger]
        d.modified.contains((p, i)) <==> status_of(local, remote, p) == Some(
            DiffType::Modified(i),
        ) by {
        lemma_filter_map_holds(es, pick_modified(), (p, i));
        if status_of(local, remote, p) == Some(DiffType::Modified(i)) {
            let k = choose|k: int| 0 <= k < es.len() && (#[trigger] es[k]).path == p;
            assert(pick_modified()(es[k]) == Some((p, i)));
        }
    }
    assert forall|p: Seq<char>, i: DiffItemTypeChanged| #[trigger]
        d.type_changed.contains((p, i)) <==> status_of(local, remote, p) == Some(
            DiffType::TypeChanged(i),
        ) by {
        lemma_filter_map_holds(es, pick_type_changed(), (p, i));
        if status_of(local, remote, p) == Some(DiffType::TypeChanged(i)) {
            let k = choose|k: int| 0 <= k < es.len() && (#[trigger] es[k]).path == p;
            assert(pick_type_changed()(es[k]) == Some((p, i)));
        }
    }
    assert forall|p: Seq<char>, i: DiffItemDeleted| #[trigger]
        d.deleted.contains((p, i)) <==> status_of(local, remote, p) == Some(
            DiffType::Deleted(i),
        ) by {
        lemma_filter_map_holds(es, pick_deleted(), (p, i));
        if status_of(local, remote, p) == Some(DiffType::Deleted(i)) {
            let k = choose|k: int| 0 <= k < es.len() && (#[trigger] es[k]).path == p;
            assert(pick_deleted()(es[k]) == Some((p, i)));
        }
    }
}

/// `es` lists the paths among the first `upto` of `sorted` that differ
/// between the two catalogues, each once, ascending and with its status.
spec fn lists_prefix(
    es: Seq<DiffEntry>,
    sorted: Seq<Seq<char>>,
    upto: int,
    local: Map<Seq<char>, SnapshotItemMetadata>,
    remote: Map<Seq<char>, SnapshotItemMetadata>,
) -> bool {
    &&& strictly_ascending(entry_paths(es))
    &&& forall|k: int|
        0 <= k < es.len() ==> status_of(local, remote, (#[trigger] es[k]).path) == Some(
            es[k].status,
        )
    &&& forall|k: int|
        0 <= k < es.len() ==> exists|j: int|
            0 <= j < upto && #[trigger] sorted[j] == (#[trigger] es[k]).path
    &&& forall|j: int|
        0 <= j < upto && status_of(local, remote, #[trigger] sorted[j]) is Some ==> exists|k: int|
            0 <= k < es.len() && (#[trigger] es[k]).path == sorted[j]
}

proof fn lemma_lists_prefix_skip(
    es: Seq<DiffEntry>,
    sorted: Seq<Seq<char>>,
    upto: int,
    local: Map<Seq<char>, SnapshotItemMetadata>,
    remote: Map<Seq<char>, SnapshotItemMetadata>,
)
    requires
        0 <= upto < sorted.len(),
        lists_prefix(es, sorted, upto, local, remote),
        (upto > 0 && sorted[upto - 1] == sorted[upto]) || status_of(local, remote, sorted[upto])
            is None,
    ensures
        lists_prefix(es, sorted, upto + 1, local, remote),
{
    assert forall|k: int| 0 <= k < es.len() implies exists|j: int|
        0 <= j < upto + 1 && #[trigger] sorted[j] == (#[trigger] es[k]).path by {
        let j = choose|j: int| 0 <= j < upto && #[trigger] sorted[j] == es[k].path;
        assert(sorted[j] == es[k].path);
    }
    assert forall|j: int|
        0 <= j < upto + 1 && status_of(local, remote, #[trigger] sorted[j]) is Some implies exists|
        k: int,
    | 0 <= k < es.len() && (#[trigger] es[k]).path == sorted[j] by {
        if j == upto {
            assert(status_of(local, remote, sorted[upto - 1]) is Some);
            let k = choose|k: int| 0 <= k < es.len() && (#[trigger] es[k]).path == sorted[upto - 1];
            assert(es[k].path == sorted[j]);
        }
    }
}

proof fn lemma_lists_prefix_push(
    es: Seq<DiffEntry>,
    sorted: Seq<Seq<char>>,
    upto: int,
    local: Map<Seq<char>, SnapshotItemMetadata>,
    remote: Map<Seq<char>, SnapshotItemMetadata>,
    status: DiffType,
)
    requires
        0 <= upto < sorted.len(),
        sorted_by(sorted, ascending()),
        lists_prefix(es, sorted, upto, local, remote),
        upto > 0 ==> sorted[upto - 1] != sorted[upto],
        status_of(local, remote, sorted[upto]) == Some(status),
    ensures
        lists_prefix(
            es.push(DiffEntry { path: sorted[upto], status }),
            sorted,
            upto + 1,
            local,
            remote,
        ),
{
    let now = es.push(DiffEntry { path: sorted[upto], status });
    assert forall|a: int, b: int| 0 <= a < b < now.len() implies #[trigger] entry_paths(now)[a]
        != #[trigger] entry_paths(now)[b] && path_leq(entry_paths(now)[a], entry_paths(now)[b]) by {
        if b < es.len() {
            assert(entry_paths(es)[a] == entry_paths(now)[a]);
            assert(entry_paths(es)[b] == entry_paths(now)[b]);
        } else {
            let j = choose|j: int| 0 <= j < upto && #[trigger] sorted[j] == es[a].path;
            assert(ascending()(sorted[j], sorted[upto]));
            if sorted[j] == sorted[upto] {
                if j < upto - 1 {
                    assert(ascending()(sorted[j], sorted[upto - 1]));
                }
                assert(ascending()(sorted[upto - 1], sorted[upto]));
                lemma_path_leq_antisymmetric(sorted[upto - 1], sorted[upto]);
            }
        }
    }
    assert forall|k: int| 0 <= k < now.len() implies status_of(
        local,
        remote,
        (#[trigger] now[k]).path,
    ) == Some(now[k].status) by {
        if k < es.len() {
            assert(es[k] == now[k]);
        }
    }
    assert forall|k: int| 0 <= k < now.len() implies exists|j: int|
        0 <= j < upto + 1 && #[trigger] sorted[j] == (#[trigger] now[k]).path by {
        if k < es.len() {
            assert(es[k] == now[k]);
            let j = choose|j: int| 0 <= j < upto && #[trigger] sorted[j] == es[k].path;
            assert(sorted[j] == now[k].path);
        } else {
            assert(sorted[upto] == now[k].path);
        }
    }
    assert forall|j: int|
        0 <= j < upto + 1 && status_of(local, remote, #[trigger] sorted[j]) is Some implies exists|
        k: int,
    | 0 <= k < now.len() && (#[trigger] now[k]).path == sorted[j] by {
        if j < upto {
            let k = choose|k: int| 0 <= k < es.len() && (#[trigger] es[k]).path == sorted[j];
            assert(now[k].path == sorted[j]);
        } else {
            assert(now[es.len() as int].path == sorted[j]);
        }
    }
}

/// The paths of a sequence of snapshot entries.
pub open spec fn item_paths(items: Seq<SnapshotItem>) -> Seq<Seq<char>> {
    items.map_values(|i: SnapshotItem| i.relative_path@)
}

/// Indexes a snapshot by path. Of two entries with one path, the later counts.
fn build_item_names_hashmap(snapshot: &Snapshot) -> (index: StringHashMap<SnapshotItemMetadata>)
    ensures
        index@ == snapshot.catalog(),
{
    let ghost all = item_views(snapshot.items@);
    let mut index: StringHashMap<SnapshotItemMetadata> = StringHashMap::new();
    let mut i: usize = 0;
    assert(all.take(0) =~= Seq::empty());
    while i < snapshot.items.len()
        invariant
            i <= snapshot.items.len(),
            all == item_views(snapshot.items@),
            index@ == catalog(all.take(i as int)),
        decreases snapshot.items.len() - i,
    {
        index.insert(snapshot.items[i].relative_path.clone(), snapshot.items[i].metadata);
        assert(all.take(i + 1).drop_last() =~= all.take(i as int));
        assert(all.take(i + 1).last() == snapshot.items@[i as int]@);
        i += 1;
    }
    assert(all.take(i as int) =~= all);
    index
}

/// Adds the paths of a snapshot to a list.
fn collect_paths(snapshot: &Snapshot, paths: &mut Vec<String>)
    ensures
        path_views(final(paths)@) == path_views(old(paths)@) + item_paths(snapshot.items@),
{
    let ghost before = path_views(paths@);
    let mut i: usize = 0;
    while i < snapshot.items.len()
        invariant
            i <= snapshot.items.len(),
            path_views(paths@) == before + item_paths(snapshot.items@.take(i as int)),
        decreases snapshot.items.len() - i,
    {
        let ghost p = paths@;
        paths.push(snapshot.items[i].relative_path.clone());
        assert(path_views(paths@) =~= path_views(p).push(snapshot.items@[i as int].relative_path@));
        assert(item_paths(snapshot.items@.take(i + 1)) =~= item_paths(
            snapshot.items@.take(i as int),
        ).push(snapshot.items@[i as int].relative_path@));
        i += 1;
    }
    assert(snapshot.items@.take(i as int) =~= snapshot.items@);
}

/// Decides how a path differs from what each side says of it.
fn classify_entry(
    local: Option<&SnapshotItemMetadata>,
    remote: Option<&SnapshotItemMetadata>,
) -> (status: Option<DiffType>)
    ensures
        status == classify(
            match local {
                Some(m) => Some(*m),
                None => None,
            },
            match remote {
                Some(m) => Some(*m),
                None => None,
            },
        ),
{
    match (local, remote) {
        (None, None) => None,
        (Some(new), None) => Some(DiffType::Added(DiffItemAdded { new: *new })),
        (None, Some(prev)) => Some(DiffType::Deleted(DiffItemDeleted { prev: *prev })),
        (Some(new), Some(prev)) => match (*new, *prev) {
            (SnapshotItemMetadata::Directory, SnapshotItemMetadata::Directory) => None,
            (SnapshotItemMetadata::File(source), SnapshotItemMetadata::File(backed_up)) => {
                if source == backed_up {
                    None
                } else {
                    Some(DiffType::Modified(DiffItemModified { prev: backed_up, new: source }))
                }
            },
            _ => Some(DiffType::TypeChanged(DiffItemTypeChanged { prev: *prev, new: *new })),
        },
    }
}

impl Diff {
    /// Compares two snapshots: `local` is the authority, `remote` the tree to
    /// bring up to date. The order of the entries within a snapshot plays no
    /// part, and the diff of two snapshots that say the same of every path
    /// holds nothing.
    pub fn build(local: &Snapshot, remote: &Snapshot) -> (diff: Self)
        ensures
            is_diff_of(diff@, local.catalog(), remote.catalog()),
            is_empty_diff(diff@) <==> local.catalog() == remote.catalog(),
    {
        let source_items = build_item_names_hashmap(local);
        let backed_up_items = build_item_names_hashmap(remote);
        let ghost l = local.catalog();
        let ghost r = remote.catalog();
        let mut paths: Vec<String> = Vec::new();
        collect_paths(local, &mut paths);
        collect_paths(remote, &mut paths);
        let sorted = sort_paths(&paths, false);
        let ghost sv = path_views(sorted@);
        proof {
            lemma_path_orders_total();
            path_views(paths@).lemma_sort_by_ensures(ascending());
        }
        let mut items: Vec<DiffItem> = Vec::new();
        let mut i: usize = 0;
        while i < sorted.len()
            invariant
                i <= sorted.len(),
                sv == path_views(sorted@),
                sorted_by(sv, ascending()),
                source_items@ == l,
                backed_up_items@ == r,
                lists_prefix(entries(items@), sv, i as int, l, r),
            decreases sorted.len() - i,
        {
            let ghost before = entries(items@);
            let repeated = i > 0 && sorted[i] == sorted[i - 1];
            if repeated {
                proof {
                    lemma_lists_prefix_skip(before, sv, i as int, l, r);
                }
            } else {
                let status = classify_entry(
                    source_items.get(sorted[i].as_str()),
                    backed_up_items.get(sorted[i].as_str()),
                );
                assert(status == status_of(l, r, sv[i as int]));
                match status {
                    Some(status) => {
                        items.push(DiffItem { status, path: sorted[i].clone() });
                        proof {
                            assert(entries(items@) =~= before.push(
                                DiffEntry { path: sv[i as int], status },
                            ));
                            lemma_lists_prefix_push(before, sv, i as int, l, r, status);
                        }
                    },
                    None => {
                        proof {
                            lemma_lists_prefix_skip(before, sv, i as int, l, r);
                        }
                    },
                }
            }
            i += 1;
        }
        proof {
            let es = entries(items@);
            let pv = path_views(paths@);
            assert forall|p: Seq<char>| (#[trigger] status_of(l, r, p)) is Some implies exists|
                k: int,
            | 0 <= k < es.len() && (#[trigger] es[k]).path == p by {
                lemma_catalog_dom(item_views(local.items@), p);
                lemma_catalog_dom(item_views(remote.items@), p);
                let lp = item_paths(local.items@);
                let rp = item_paths(remote.items@);
                assert(pv == lp + rp);
                if l.contains_key(p) {
                    let x = choose|x: int|
                        0 <= x < local.items@.len() && (#[trigger] item_views(
                            local.items@,
                        )[x]).relative_path == p;
                    assert(pv[x] == p);
                } else {
                    let x = choose|x: int|
                        0 <= x < remote.items@.len() && (#[trigger] item_views(
                            remote.items@,
                        )[x]).relative_path == p;
                    assert(pv[lp.len() + x] == p);
                }
                assert(pv.contains(p));
                broadcast use vstd::seq_lib::group_to_multiset_ensures;
                assert(pv.to_multiset().count(p) > 0);
                assert(sv.to_multiset().count(p) > 0);
                assert(sv.contains(p));
                let j = choose|j: int| 0 <= j < sv.len() && sv[j] == p;
                assert(status_of(l, r, sv[j]) is Some);
            }
            lemma_partition_is_diff(es, l, r);
            lemma_empty_diff_iff_equal(partition(es), l, r);
        }
        Self::new(items)
    }
}

/// A modification time in nanoseconds since the Unix epoch.
pub open spec fn mtime_nanos(m: SnapshotFileMetadata) -> int {
    m.last_modif_date_s * 1_000_000_000 + m.last_modif_date_ns
}

/// A granularity of `seconds` and `nanos`, in nanoseconds.
pub open spec fn granularity_nanos(seconds: u64, nanos: u32) -> int {
    seconds * 1_000_000_000 + nanos
}

/// The two sides have the same size, and their modification times are no
/// further apart than `granularity` nanoseconds.
pub open spec fn same_within(m: DiffItemModified, granularity: int) -> bool {
    &&& m.new.size == m.prev.size
    &&& mtime_nanos(m.new) - mtime_nanos(m.prev) <= granularity
    &&& mtime_nanos(m.prev) - mtime_nanos(m.new) <= granularity
}

/// Selects the modifications that a granularity does not explain away.
pub open spec fn beyond(granularity: int) -> spec_fn((Seq<char>, DiffItemModified)) -> bool {
    |e: (Seq<char>, DiffItemModified)| !same_within(e.1, granularity)
}

/// A diff without the modifications that a granularity explains away.
pub open spec fn settled(d: DiffView, granularity: int) -> DiffView {
    DiffView { modified: d.modified.filter(beyond(granularity)), ..d }
}

fn is_same_within(m: &DiffItemModified, seconds: u64, nanos: u32) -> (same: bool)
    ensures
        same == same_within(*m, granularity_nanos(seconds, nanos)),
{
    if m.new.size != m.prev.size {
        return false;
    }
    let new_modified_at: u128 = m.new.last_modif_date_s as u128 * 1_000_000_000
        + m.new.last_modif_date_ns as u128;
    let prev_modified_at: u128 = m.prev.last_modif_date_s as u128 * 1_000_000_000
        + m.prev.last_modif_date_ns as u128;
    let granularity: u128 = seconds as u128 * 1_000_000_000 + nanos as u128;
    let diff_abs: u128 = if new_modified_at >= prev_modified_at {
        new_modified_at - prev_modified_at
    } else {
        prev_modified_at - new_modified_at
    };
    diff_abs <= granularity
}

impl Diff {
    /// Drops from `modified` each file whose two sides have the same size and
    /// modification times no further apart than the granularity. The other
    /// lists stay as they are.
    pub fn apply_time_granularity(self, seconds: u64, nanos: u32) -> (diff: Self)
        ensures
            diff@ == settled(self@, granularity_nanos(seconds, nanos)),
    {
        broadcast use vstd::seq::Seq::lemma_filter_push;

        let ghost all = keyed(self.modified@);
        let ghost keep = beyond(granularity_nanos(seconds, nanos));
        let Diff { added, modified, type_changed, deleted } = self;
        let mut kept: Vec<(String, DiffItemModified)> = Vec::new();
        assert(all.take(0) =~= Seq::empty());
        assert(keyed(kept@) =~= Seq::empty());
        assert(Seq::<(Seq<char>, DiffItemModified)>::empty().filter(keep) =~= Seq::empty()) by {
            reveal(Seq::filter);
        }
        for entry in it: modified
            invariant
                all == keyed(modified@),
                it.seq() == modified@,
                keep == beyond(granularity_nanos(seconds, nanos)),
                keyed(kept@) == all.take(it.index() as int).filter(keep),
        {
            let ghost k = it.index() as int;
            let ghost before = kept@;
            assert(all.take(k + 1) =~= all.take(k).push(all[k]));
            assert(all[k] == (entry.0@, entry.1));
            proof {
                all.take(k).lemma_filter_push(all[k], keep);
                assert(keep(all[k]) == !same_within(entry.1, granularity_nanos(seconds, nanos)));
            }
            if !is_same_within(&entry.1, seconds, nanos) {
                kept.push(entry);
                assert(keyed(kept@) =~= keyed(before).push(all[k]));
            }
        }
        assert(all.take(all.len() as int) =~= all);
        Diff { added, modified: kept, type_changed, deleted }
    }

    /// Whether the diff holds no difference at all.
    pub fn is_empty(&self) -> (empty: bool)
        ensures
            empty == is_empty_diff(self@),
    {
        self.added.len() == 0 && self.modified.len() == 0 && self.type_changed.len() == 0
            && self.deleted.len() == 0
    }
}

/// The sizes of the files to send, added up.
pub open spec fn total_size(files: Seq<(Seq<char>, SnapshotFileMetadata)>) -> int
    decreases files.len(),
{
    if files.len() == 0 {
        0
    } else {
        total_size(files.drop_last()) + files.last().1.size
    }
}

/// Adds up the sizes of the files to send, if the sum fits in 64 bits.
fn sum_sizes(files: &Vec<(String, SnapshotFileMetadata)>) -> (sum: Option<u64>)
    ensures
        match sum {
            Some(n) => n == total_size(keyed(files@)),
            None => total_size(keyed(files@)) > u64::MAX,
        },
{
    let ghost all = keyed(files@);
    let mut sum: u64 = 0;
    let mut i: usize = 0;
    assert(all.take(0) =~= Seq::empty());
    while i < files.len()
        invariant
            i <= files.len(),
            all == keyed(files@),
            sum == total_size(all.take(i as int)),
        decreases files.len() - i,
    {
        assert(all.take(i + 1).drop_last() =~= all.take(i as int));
        match sum.checked_add(files[i].1.size) {
            Some(n) => {
                sum = n;
            },
            None => {
                proof {
                    lemma_total_size_grows(all, i + 1);
                }
                return None;
            },
        }
        i += 1;
    }
    assert(all.take(i as int) =~= all);
    Some(sum)
}

/// The sizes of the first files add up to no more than those of all.
pub proof fn lemma_total_size_grows(files: Seq<(Seq<char>, SnapshotFileMetadata)>, upto: int)
    requires
        0 <= upto <= files.len(),
    ensures
        0 <= total_size(files.take(upto)) <= total_size(files),
    decreases files.len(),
{
    if upto == files.len() {
        assert(files.take(upto) =~= files);
        if files.len() > 0 {
            lemma_total_size_grows(files.drop_last(), upto - 1);
            assert(files.drop_last().take(upto - 1) =~= files.drop_last());
        }
    } else {
        lemma_total_size_grows(files.drop_last(), upto);
        assert(files.drop_last().take(upto) =~= files.take(upto));
    }
}

impl DiffApplyOps {
    /// The number of bytes that the plan sends, unless it exceeds 64 bits.
    pub fn transfer_size(&self) -> (size: Option<u64>)
        ensures
            match size {
                Some(n) => n == total_size(self@.send_files),
                None => total_size(self@.send_files) > u64::MAX,
            },
    {
        sum_sizes(&self.send_files)
    }
}

} // verus!
