//! The state of a slot and the rules by which its session is opened,
//! resumed, fed and closed. The functions here decide; reading and writing
//! the disk is left to the caller, who is handed the steps to take.

use crate::data::is_id;
use crate::diffing::{plan, total_size, Diff, DiffView};
use crate::errors::{SyncError, SyncErrorView};
use crate::order::path_views;
use crate::paths::{is_safe_relative, join_path, joined, Paths, SlotInfos, SlotInfosView, SyncId};
use crate::session::{
    diff_paths, diff_refusal, file_views, ids_of, lemma_first_unsafe, session_files, session_wf,
    OpenSync, OpenSyncView, SyncFile, SyncFileView,
};
use crate::snapshot::SnapshotFileMetadata;
use crate::text::same_str;
use vstd::hash_map::StringHashMap;
use vstd::prelude::*;

verus! {

/// What a step does to the disk.
#[derive(Clone, Copy, Debug, PartialEq, Eq, Structural)]
pub enum FsOperation {
    /// Create a directory.
    CreateDir,
    /// Remove a file, which is there.
    RemoveFile,
    /// Remove a file if it is there.
    RemoveStaleFile,
    /// Remove a directory, which is empty.
    RemoveDir,
}

/// One step on the disk that the caller is to take.
#[derive(Debug)]
pub struct FsStep {
    pub operation: FsOperation,
    pub path: String,
}

/// An `FsStep` as a plain value.
pub struct FsStepView {
    pub operation: FsOperation,
    pub path: Seq<char>,
}

impl View for FsStep {
    type V = FsStepView;

    open spec fn view(&self) -> FsStepView {
        FsStepView { operation: self.operation, path: self.path@ }
    }
}

/// The steps of a vector as plain values.
pub open spec fn step_views(steps: Seq<FsStep>) -> Seq<FsStepView> {
    steps.map_values(|s: FsStep| s@)
}

/// The step that does `operation` to `name` under the directory `base`.
pub open spec fn step_under(operation: FsOperation, base: Seq<char>) -> spec_fn(Seq<char>) -> FsStepView {
    |name: Seq<char>| FsStepView { operation, path: joined(base, name) }
}

/// What a client is told when a session opens or resumes.
#[derive(Debug)]
pub struct SyncInfos {
    pub sync_token: String,
    pub transfer_file_ids: Vec<(String, String)>,
    pub transfer_size: u64,
}

/// A `SyncInfos` as a plain value: the token, each file's identifier with
/// its path, and the number of bytes to transfer.
pub struct SyncInfosView {
    pub sync_token: Seq<char>,
    pub transfer_file_ids: Seq<(Seq<char>, Seq<char>)>,
    pub transfer_size: int,
}

/// Pairs of strings as plain values.
pub open spec fn pair_views(v: Seq<(String, String)>) -> Seq<(Seq<char>, Seq<char>)> {
    v.map_values(|e: (String, String)| (e.0@, e.1@))
}

impl View for SyncInfos {
    type V = SyncInfosView;

    open spec fn view(&self) -> SyncInfosView {
        SyncInfosView {
            sync_token: self.sync_token@,
            transfer_file_ids: pair_views(self.transfer_file_ids@),
            transfer_size: self.transfer_size as int,
        }
    }
}

/// The sizes of a session's files, added up.
pub open spec fn file_sizes(files: Seq<SyncFileView>) -> int
    decreases files.len(),
{
    if files.len() == 0 {
        0
    } else {
        file_sizes(files.drop_last()) + files.last().metadata.size
    }
}

/// Selects the files that have no marker among `done`.
pub open spec fn waiting(done: Seq<Seq<char>>) -> spec_fn(SyncFileView) -> bool {
    |f: SyncFileView| !done.contains(f.id)
}

/// The files of a session that have not arrived, given the markers found.
pub open spec fn remaining(files: Seq<SyncFileView>, done: Seq<Seq<char>>) -> Seq<SyncFileView> {
    files.filter(waiting(done))
}

/// What a client is told of the files that it has to send.
pub open spec fn infos_of(token: Seq<char>, files: Seq<SyncFileView>) -> SyncInfosView {
    SyncInfosView {
        sync_token: token,
        transfer_file_ids: files.map_values(|f: SyncFileView| (f.id, f.relative_path)),
        transfer_size: file_sizes(files),
    }
}

/// The files of a session weigh what the files of its plan weigh.
pub proof fn lemma_session_files_size(
    send_files: Seq<(Seq<char>, SnapshotFileMetadata)>,
    ids: Seq<Seq<char>>,
)
    ensures
        file_sizes(session_files(send_files, ids)) == total_size(send_files),
    decreases send_files.len(),
{
    if send_files.len() > 0 {
        lemma_session_files_size(send_files.drop_last(), ids);
        assert(session_files(send_files, ids).drop_last() =~= session_files(
            send_files.drop_last(),
            ids,
        ));
    }
}

/// A selection of files weighs no more than all of them.
pub proof fn lemma_selection_size(files: Seq<SyncFileView>, keep: spec_fn(SyncFileView) -> bool)
    ensures
        0 <= file_sizes(files.filter(keep)) <= file_sizes(files),
    decreases files.len(),
{
    reveal(Seq::filter);
    if files.len() > 0 {
        lemma_selection_size(files.drop_last(), keep);
        if keep(files.last()) {
            assert(files.drop_last().filter(keep).push(files.last()).drop_last()
                =~= files.drop_last().filter(keep));
        }
    }
}

/// The set of the markers found.
fn marker_set(done: &Vec<String>) -> (set: StringHashMap<bool>)
    ensures
        forall|s: Seq<char>| set@.contains_key(s) <==> path_views(done@).contains(s),
{
    let ghost all = path_views(done@);
    let mut set: StringHashMap<bool> = StringHashMap::new();
    let mut i: usize = 0;
    while i < done.len()
        invariant
            i <= done.len(),
            all == path_views(done@),
            forall|s: Seq<char>|
                set@.contains_key(s) <==> exists|k: int| 0 <= k < i && #[trigger] all[k] == s,
        decreases done.len() - i,
    {
        let ghost before = set@;
        set.insert(done[i].clone(), true);
        proof {
            assert forall|s: Seq<char>|
                set@.contains_key(s) <==> exists|k: int| 0 <= k < i + 1 && #[trigger] all[k] == s by {
                if before.contains_key(s) {
                    let k = choose|k: int| 0 <= k < i && #[trigger] all[k] == s;
                    assert(all[k] == s);
                }
                if s == all[i as int] {
                    assert(all[i as int] == s);
                }
            }
        }
        i += 1;
    }
    proof {
        assert forall|s: Seq<char>| set@.contains_key(s) <==> all.contains(s) by {
            if all.contains(s) {
                let k = choose|k: int| 0 <= k < all.len() && all[k] == s;
                assert(all[k] == s);
            }
        }
    }
    set
}

/// What a client is told of the files that have no marker yet.
fn remaining_infos(token: &str, files: &Vec<SyncFile>, done: &Vec<String>) -> (told: SyncInfos)
    requires
        file_sizes(file_views(files@)) <= u64::MAX,
    ensures
        told@ == infos_of(token@, remaining(file_views(files@), path_views(done@))),
{
    let ghost all = file_views(files@);
    let ghost keep = waiting(path_views(done@));
    let markers = marker_set(done);
    let mut ids: Vec<(String, String)> = Vec::new();
    let mut size: u64 = 0;
    let mut i: usize = 0;
    proof {
        assert(all.take(0) =~= Seq::empty());
        assert(Seq::<SyncFileView>::empty().filter(keep) =~= Seq::empty()) by {
            reveal(Seq::filter);
        }
        assert(pair_views(ids@) =~= infos_of(token@, all.take(0).filter(keep)).transfer_file_ids);
    }
    while i < files.len()
        invariant
            i <= files.len(),
            all == file_views(files@),
            keep == waiting(path_views(done@)),
            file_sizes(all) <= u64::MAX,
            forall|s: Seq<char>| markers@.contains_key(s) <==> path_views(done@).contains(s),
            pair_views(ids@) == infos_of(token@, all.take(i as int).filter(keep)).transfer_file_ids,
            size == file_sizes(all.take(i as int).filter(keep)),
        decreases files.len() - i,
    {
        let ghost kept = all.take(i as int).filter(keep);
        let ghost f = all[i as int];
        proof {
            assert(all.take(i + 1) =~= all.take(i as int).push(f));
            all.take(i as int).lemma_filter_push(f, keep);
            lemma_selection_size(all.take(i + 1), keep);
            lemma_files_size_grows(all, i + 1);
        }
        if !markers.contains_key(files[i].id.as_str()) {
            let ghost ids0 = pair_views(ids@);
            ids.push((files[i].id.clone(), files[i].relative_path.clone()));
            proof {
                assert(kept.push(f).drop_last() =~= kept);
                assert(pair_views(ids@) =~= ids0.push((f.id, f.relative_path)));
                assert(pair_views(ids@) =~= infos_of(token@, kept.push(f)).transfer_file_ids);
            }
            size = size + files[i].metadata.size;
        }
        i += 1;
    }
    assert(all.take(i as int) =~= all);
    SyncInfos { sync_token: token.to_owned(), transfer_file_ids: ids, transfer_size: size }
}

/// The steps that clear what earlier attempts have left of the files that
/// have no marker yet.
fn stale_steps(files: &Vec<SyncFile>, done: &Vec<String>, pending_dir: &str) -> (steps: Vec<FsStep>)
    ensures
        step_views(steps@) == ids_of(remaining(file_views(files@), path_views(done@))).map_values(
            step_under(FsOperation::RemoveStaleFile, pending_dir@),
        ),
{
    let ghost all = file_views(files@);
    let ghost keep = waiting(path_views(done@));
    let ghost clear = step_under(FsOperation::RemoveStaleFile, pending_dir@);
    let markers = marker_set(done);
    let mut steps: Vec<FsStep> = Vec::new();
    let mut i: usize = 0;
    proof {
        assert(all.take(0) =~= Seq::empty());
        assert(Seq::<SyncFileView>::empty().filter(keep) =~= Seq::empty()) by {
            reveal(Seq::filter);
        }
        assert(step_views(steps@) =~= ids_of(all.take(0).filter(keep)).map_values(clear));
    }
    while i < files.len()
        invariant
            i <= files.len(),
            all == file_views(files@),
            keep == waiting(path_views(done@)),
            clear == step_under(FsOperation::RemoveStaleFile, pending_dir@),
            forall|s: Seq<char>| markers@.contains_key(s) <==> path_views(done@).contains(s),
            step_views(steps@) == ids_of(all.take(i as int).filter(keep)).map_values(clear),
        decreases files.len() - i,
    {
        let ghost kept = all.take(i as int).filter(keep);
        let ghost f = all[i as int];
        proof {
            assert(all.take(i + 1) =~= all.take(i as int).push(f));
            all.take(i as int).lemma_filter_push(f, keep);
        }
        if !markers.contains_key(files[i].id.as_str()) {
            let ghost steps0 = step_views(steps@);
            steps.push(
                FsStep {
                    operation: FsOperation::RemoveStaleFile,
                    path: join_path(pending_dir, files[i].id.as_str()),
                },
            );
            proof {
                assert(step_views(steps@) =~= steps0.push(clear(f.id)));
                assert(step_views(steps@) =~= ids_of(kept.push(f)).map_values(clear));
            }
        }
        i += 1;
    }
    assert(all.take(i as int) =~= all);
    steps
}

/// The first files of a session weigh no more than all of them.
pub proof fn lemma_files_size_grows(files: Seq<SyncFileView>, upto: int)
    requires
        0 <= upto <= files.len(),
    ensures
        0 <= file_sizes(files.take(upto)) <= file_sizes(files),
    decreases files.len(),
{
    if upto == files.len() {
        assert(files.take(upto) =~= files);
        if files.len() > 0 {
            lemma_files_size_grows(files.drop_last(), upto - 1);
            assert(files.drop_last().take(upto - 1) =~= files.drop_last());
        }
    } else {
        lemma_files_size_grows(files.drop_last(), upto);
        assert(files.drop_last().take(upto) =~= files.take(upto));
    }
}

/// Adds one step for each name, in the order of the names.
fn push_steps(operation: FsOperation, base: &str, names: &Vec<String>, steps: &mut Vec<FsStep>)
    ensures
        step_views(final(steps)@) == step_views(old(steps)@) + path_views(names@).map_values(
            step_under(operation, base@),
        ),
{
    let ghost before = step_views(steps@);
    let ghost all = path_views(names@);
    let ghost f = step_under(operation, base@);
    let mut i: usize = 0;
    assert(step_views(steps@) =~= before + all.take(0).map_values(f));
    while i < names.len()
        invariant
            i <= names.len(),
            all == path_views(names@),
            f == step_under(operation, base@),
            step_views(steps@) == before + all.take(i as int).map_values(f),
        decreases names.len() - i,
    {
        let ghost s0 = step_views(steps@);
        steps.push(FsStep { operation, path: join_path(base, names[i].as_str()) });
        assert(step_views(steps@) =~= s0.push(f(all[i as int])));
        assert(all.take(i + 1).map_values(f) =~= all.take(i as int).map_values(f).push(
            f(all[i as int]),
        ));
        i += 1;
    }
    assert(all.take(i as int) =~= all);
}

/// Adds one step for the identifier of each file, in the order of the files.
fn push_file_steps(operation: FsOperation, base: &str, files: &Vec<SyncFile>, steps: &mut Vec<FsStep>)
    ensures
        step_views(final(steps)@) == step_views(old(steps)@) + ids_of(file_views(files@)).map_values(
            step_under(operation, base@),
        ),
{
    let ghost before = step_views(steps@);
    let ghost all = ids_of(file_views(files@));
    let ghost f = step_under(operation, base@);
    let mut i: usize = 0;
    assert(step_views(steps@) =~= before + all.take(0).map_values(f));
    while i < files.len()
        invariant
            i <= files.len(),
            all == ids_of(file_views(files@)),
            f == step_under(operation, base@),
            step_views(steps@) == before + all.take(i as int).map_values(f),
        decreases files.len() - i,
    {
        let ghost s0 = step_views(steps@);
        steps.push(FsStep { operation, path: join_path(base, files[i].id.as_str()) });
        assert(step_views(steps@) =~= s0.push(f(all[i as int])));
        assert(all.take(i + 1).map_values(f) =~= all.take(i as int).map_values(f).push(
            f(all[i as int]),
        ));
        i += 1;
    }
    assert(all.take(i as int) =~= all);
}

/// The state of a slot: how it is configured, and its session if it has one.
#[derive(Debug)]
pub struct SlotSync {
    pub infos: SlotInfos,
    pub open_sync: Option<OpenSync>,
}

/// A session that has been prepared and is not yet the slot's: it becomes
/// so once the steps have been taken.
#[derive(Debug)]
pub struct SyncStart {
    pub open_sync: OpenSync,
    pub steps: Vec<FsStep>,
}

/// What resuming a session gives: what the client is told, and the steps
/// that clear the remains of interrupted transfers.
#[derive(Debug)]
pub struct SyncResume {
    pub infos: SyncInfos,
    pub steps: Vec<FsStep>,
}

/// Where a file that arrives is written, where it is moved once it is
/// whole, and where its marker is then put.
#[derive(Debug)]
pub struct TransferTicket {
    pub file_id: String,
    pub relative_path: String,
    pub metadata: SnapshotFileMetadata,
    pub pending_path: String,
    pub final_path: String,
    pub marker_path: String,
}

/// A `TransferTicket` as a plain value.
pub struct TransferTicketView {
    pub file_id: Seq<char>,
    pub relative_path: Seq<char>,
    pub metadata: SnapshotFileMetadata,
    pub pending_path: Seq<char>,
    pub final_path: Seq<char>,
    pub marker_path: Seq<char>,
}

impl View for TransferTicket {
    type V = TransferTicketView;

    open spec fn view(&self) -> TransferTicketView {
        TransferTicketView {
            file_id: self.file_id@,
            relative_path: self.relative_path@,
            metadata: self.metadata,
            pending_path: self.pending_path@,
            final_path: self.final_path@,
            marker_path: self.marker_path@,
        }
    }
}

/// What becomes of a slot that is offered a session, and whether the
/// session is taken: a slot that has a session keeps it and takes no other.
pub open spec fn installed(slot: SlotSync, session: OpenSync) -> (SlotSync, bool) {
    if slot.open_sync is Some {
        (slot, false)
    } else {
        (SlotSync { open_sync: Some(session), ..slot }, true)
    }
}

/// Why a session cannot be opened, whatever identifiers are drawn: the slot
/// has one already, or the diff cannot be taken on.
pub open spec fn begin_refusal(slot_is_open: bool, d: DiffView) -> Option<SyncErrorView> {
    if slot_is_open {
        Some(SyncErrorView::SyncAlreadyOpen)
    } else {
        diff_refusal(d)
    }
}

/// The steps that open a session: its three directories are created, then
/// the files that the plan deletes are removed from the slot's tree, then
/// the directories, deepest first.
pub open spec fn begin_steps(paths: Paths, slot: SlotInfosView, s: OpenSyncView) -> Seq<FsStepView> {
    seq![
        FsStepView { operation: FsOperation::CreateDir, path: paths.slot_transfer(slot, s.id) },
        FsStepView { operation: FsOperation::CreateDir, path: paths.slot_pending(slot, s.id) },
        FsStepView { operation: FsOperation::CreateDir, path: paths.slot_completion(slot, s.id) },
    ] + s.diff_ops.delete_files.map_values(
        step_under(FsOperation::RemoveFile, paths.slot_content(slot)),
    ) + s.diff_ops.delete_empty_dirs.map_values(
        step_under(FsOperation::RemoveDir, paths.slot_content(slot)),
    )
}

/// The steps that end a session: the directories that the plan creates are
/// made in the slot's tree, parents first; then the markers are removed, and
/// the session's directories.
pub open spec fn finalize_steps(paths: Paths, slot: SlotInfosView, s: OpenSyncView) -> Seq<
    FsStepView,
> {
    s.diff_ops.create_dirs.map_values(step_under(FsOperation::CreateDir, paths.slot_content(slot)))
        + ids_of(s.files).map_values(
        step_under(FsOperation::RemoveFile, paths.slot_completion(slot, s.id)),
    ) + seq![
        FsStepView { operation: FsOperation::RemoveDir, path: paths.slot_completion(slot, s.id) },
        FsStepView { operation: FsOperation::RemoveDir, path: paths.slot_pending(slot, s.id) },
        FsStepView { operation: FsOperation::RemoveDir, path: paths.slot_transfer(slot, s.id) },
    ]
}

/// The steps that resuming a session takes: what an interrupted transfer
/// may have left in the pending directory is removed, for each file that
/// has no marker.
pub open spec fn resume_steps(
    paths: Paths,
    slot: SlotInfosView,
    s: OpenSyncView,
    done: Seq<Seq<char>>,
) -> Seq<FsStepView> {
    ids_of(remaining(s.files, done)).map_values(
        step_under(FsOperation::RemoveStaleFile, paths.slot_pending(slot, s.id)),
    )
}

/// The position of the first file of a session that has this path.
pub open spec fn position_of_path(files: Seq<SyncFileView>, path: Seq<char>) -> Option<int> {
    if exists|i: int| 0 <= i < files.len() && (#[trigger] files[i]).relative_path == path {
        Some(
            choose|i: int|
                0 <= i < files.len() && (#[trigger] files[i]).relative_path == path && forall|j: int|
                    0 <= j < i ==> (#[trigger] files[j]).relative_path != path,
        )
    } else {
        None
    }
}

/// The ticket for a file of a session.
pub open spec fn ticket_of(
    paths: Paths,
    slot: SlotInfosView,
    s: OpenSyncView,
    file: SyncFileView,
) -> TransferTicketView {
    TransferTicketView {
        file_id: file.id,
        relative_path: file.relative_path,
        metadata: file.metadata,
        pending_path: joined(paths.slot_pending(slot, s.id), file.id),
        final_path: joined(paths.slot_content(slot), file.relative_path),
        marker_path: joined(paths.slot_completion(slot, s.id), file.id),
    }
}

impl TransferTicket {
    /// Judges a body that has arrived whole: it must be as long as the file
    /// is expected to be.
    pub fn check_size(&self, written: u64) -> (outcome: Result<(), SyncError>)
        ensures
            written == self.metadata.size ==> outcome is Ok,
            written != self.metadata.size ==> (outcome matches Err(e) && e@
                == (SyncErrorView::SizeMismatch { expected: self.metadata.size, written })),
    {
        if written == self.metadata.size {
            Ok(())
        } else {
            Err(SyncError::SizeMismatch { expected: self.metadata.size, written })
        }
    }
}

impl SlotSync {
    /// The slot has a session.
    pub open spec fn is_open(&self) -> bool {
        self.open_sync is Some
    }

    /// A slot without a session.
    pub fn new(infos: SlotInfos) -> (slot: Self)
        ensures
            slot.infos == infos,
            !slot.is_open(),
    {
        Self { infos, open_sync: None }
    }

    /// Whether the slot has a session.
    pub fn is_sync_open(&self) -> (open: bool)
        ensures
            open == self.is_open(),
    {
        self.open_sync.is_some()
    }

    /// Where the tree to take a snapshot of lies. While the slot has a
    /// session its tree is in flux, and no snapshot is taken.
    pub fn snapshot(&self, paths: &Paths) -> (dir: Result<String, SyncError>)
        ensures
            match self.open_sync {
                Some(_) => dir matches Err(e) && e@ == SyncErrorView::SyncAlreadyOpen,
                None => dir matches Ok(d) && d@ == paths.slot_content(self.infos@),
            },
    {
        if self.open_sync.is_some() {
            return Err(SyncError::SyncAlreadyOpen);
        }
        Ok(paths.slot_content_dir(&self.infos))
    }

    /// The directory in which the slot's session keeps its markers, where
    /// the slot has a session.
    pub fn completion_dir(&self, paths: &Paths) -> (dir: Option<String>)
        ensures
            match self.open_sync {
                Some(s) => dir matches Some(d) && d@ == paths.slot_completion(self.infos@, s@.id),
                None => dir is None,
            },
    {
        match &self.open_sync {
            Some(s) => Some(paths.slot_completion_dir(&self.infos, &SyncId(s.id().to_owned()))),
            None => None,
        }
    }

    /// Prepares a session for a diff, and lists the steps that must succeed
    /// before it becomes the slot's. A slot that has a session takes no
    /// other; a diff with a path that could leave the slot's tree is refused.
    /// Nothing is changed here: the session is put in place by `install_sync`.
    pub fn begin_sync(&self, paths: &Paths, diff: Diff) -> (made: Result<SyncStart, SyncError>)
        ensures
            match begin_refusal(self.is_open(), diff@) {
                Some(e) => made matches Err(err) && err@ == e,
                None => match made {
                    Ok(start) => {
                        &&& start.open_sync@.diff == diff@
                        &&& session_wf(start.open_sync@)
                        &&& step_views(start.steps@) == begin_steps(
                            *paths,
                            self.infos@,
                            start.open_sync@,
                        )
                    },
                    Err(err) => err@ == SyncErrorView::UnusableIdentifiers,
                },
            },
            begin_refusal(self.is_open(), diff@) is None && plan(diff@).send_files.len() <= 1
                ==> made is Ok,
    {
        if self.open_sync.is_some() {
            return Err(SyncError::SyncAlreadyOpen);
        }
        let open_sync = match OpenSync::new(diff) {
            Ok(s) => s,
            Err(e) => {
                return Err(e);
            },
        };
        let sync_id = SyncId(open_sync.id().to_owned());
        let mut steps: Vec<FsStep> = Vec::new();
        steps.push(
            FsStep {
                operation: FsOperation::CreateDir,
                path: paths.slot_transfer_dir(&self.infos, &sync_id),
            },
        );
        steps.push(
            FsStep {
                operation: FsOperation::CreateDir,
                path: paths.slot_pending_dir(&self.infos, &sync_id),
            },
        );
        steps.push(
            FsStep {
                operation: FsOperation::CreateDir,
                path: paths.slot_completion_dir(&self.infos, &sync_id),
            },
        );
        let ghost opening = step_views(steps@);
        assert(opening =~= seq![
            FsStepView {
                operation: FsOperation::CreateDir,
                path: paths.slot_transfer(self.infos@, open_sync@.id),
            },
            FsStepView {
                operation: FsOperation::CreateDir,
                path: paths.slot_pending(self.infos@, open_sync@.id),
            },
            FsStepView {
                operation: FsOperation::CreateDir,
                path: paths.slot_completion(self.infos@, open_sync@.id),
            },
        ]);
        let content = paths.slot_content_dir(&self.infos);
        push_steps(
            FsOperation::RemoveFile,
            content.as_str(),
            &open_sync.diff_ops().delete_files,
            &mut steps,
        );
        push_steps(
            FsOperation::RemoveDir,
            content.as_str(),
            &open_sync.diff_ops().delete_empty_dirs,
            &mut steps,
        );
        Ok(SyncStart { open_sync, steps })
    }

    /// Makes a prepared session the slot's, and says what the client is to
    /// send. A slot that has a session keeps it, and the request is refused.
    pub fn install_sync(&mut self, start: SyncStart) -> (told: Result<SyncInfos, SyncError>)
        ensures
            *final(self) == installed(*old(self), start.open_sync).0,
            told is Ok <==> installed(*old(self), start.open_sync).1,
            final(self).infos == old(self).infos,
            match old(self).open_sync {
                Some(_) => {
                    &&& *final(self) == *old(self)
                    &&& told matches Err(e) && e@ == SyncErrorView::SyncAlreadyOpen
                },
                None => {
                    &&& final(self).open_sync == Some(start.open_sync)
                    &&& told matches Ok(infos) && infos@ == infos_of(
                        start.open_sync@.token,
                        start.open_sync@.files,
                    )
                },
            },
    {
        if self.open_sync.is_some() {
            return Err(SyncError::SyncAlreadyOpen);
        }
        let SyncStart { open_sync, steps: _ } = start;
        let none: Vec<String> = Vec::new();
        let files = open_sync.files();
        proof {
            lemma_session_files_size(open_sync@.diff_ops.send_files, ids_of(open_sync@.files));
            lemma_nothing_done(open_sync@.files, path_views(none@));
        }
        let told = remaining_infos(open_sync.token(), files, &none);
        self.open_sync = Some(open_sync);
        Ok(told)
    }

    /// Resumes the slot's session: it gets a fresh token, which is not the
    /// token that it had, and the client is
    /// told which files are still to come, namely those without a marker
    /// among `completed`, the names found in the session's completion
    /// directory. The session keeps its identifier, its plan and its files.
    /// A slot without a session is left as it is.
    pub fn resume_open_sync(&mut self, paths: &Paths, completed: &Vec<String>) -> (told: Result<
        SyncResume,
        SyncError,
    >)
        ensures
            final(self).infos == old(self).infos,
            match old(self).open_sync {
                None => {
                    &&& *final(self) == *old(self)
                    &&& told matches Err(e) && e@ == SyncErrorView::NothingToResume
                },
                Some(before) => {
                    &&& told matches Ok(resumed)
                    &&& final(self).open_sync matches Some(after)
                    &&& is_id(after@.token)
                    &&& after@.token != before@.token
                    &&& after@ == (OpenSyncView { token: after@.token, ..before@ })
                    &&& resumed.infos@ == infos_of(
                        after@.token,
                        remaining(before@.files, path_views(completed@)),
                    )
                    &&& step_views(resumed.steps@) == resume_steps(
                        *paths,
                        old(self).infos@,
                        before@,
                        path_views(completed@),
                    )
                },
            },
    {
        match &mut self.open_sync {
            None => Err(SyncError::NothingToResume),
            Some(open_sync) => {
                let sync_token = open_sync.regenerate_access_token();
                let sync_id = SyncId(open_sync.id().to_owned());
                let files = open_sync.files();
                proof {
                    lemma_session_files_size(
                        open_sync@.diff_ops.send_files,
                        ids_of(open_sync@.files),
                    );
                }
                let infos = remaining_infos(sync_token.as_str(), files, completed);
                let pending = paths.slot_pending_dir(&self.infos, &sync_id);
                let steps = stale_steps(files, completed, pending.as_str());
                Ok(SyncResume { infos, steps })
            },
        }
    }

    /// Admits a file of the session: says where its body is to be written,
    /// where it goes once it is whole, and where its marker is put. The
    /// request must carry the session's token and name the path of a file
    /// that the session waits for; of several files with one path, the
    /// first is meant.
    #[verifier::loop_isolation(false)]
    pub fn send_file(&self, paths: &Paths, sync_token: &str, path: &str) -> (made: Result<
        TransferTicket,
        SyncError,
    >)
        ensures
            match self.open_sync {
                None => made matches Err(e) && e@ == SyncErrorView::NoOpenSync,
                Some(s) => if s@.token != sync_token@ {
                    made matches Err(e) && e@ == SyncErrorView::TokenMismatch
                } else {
                    match position_of_path(s@.files, path@) {
                        None => made matches Err(e) && e@ == SyncErrorView::UnknownFile(path@),
                        Some(at) => {
                            &&& made matches Ok(ticket)
                            &&& ticket@ == ticket_of(*paths, self.infos@, s@, s@.files[at])
                            &&& is_safe_relative(ticket@.relative_path)
                        },
                    }
                },
            },
    {
        let open_sync = match &self.open_sync {
            None => {
                return Err(SyncError::NoOpenSync);
            },
            Some(s) => s,
        };
        if !same_str(open_sync.token(), sync_token) {
            return Err(SyncError::TokenMismatch);
        }
        let files = open_sync.files();
        let ghost all = open_sync@.files;
        let mut i: usize = 0;
        while i < files.len()
            invariant
                i <= files.len(),
                file_views(files@) == all,
                forall|j: int| 0 <= j < i ==> (#[trigger] all[j]).relative_path != path@,
            decreases files.len() - i,
        {
            if same_str(files[i].relative_path.as_str(), path) {
                proof {
                    assert(all[i as int].relative_path == path@);
                    let at = position_of_path(all, path@).unwrap();
                    if at < i {
                        assert(all[at].relative_path != path@);
                    }
                    if i < at {
                        assert(all[i as int].relative_path != path@);
                    }
                    assert(at == i);
                }
                let sync_id = SyncId(open_sync.id().to_owned());
                let pending = paths.slot_pending_dir(&self.infos, &sync_id);
                let content = paths.slot_content_dir(&self.infos);
                let complete = paths.slot_completion_dir(&self.infos, &sync_id);
                return Ok(
                    TransferTicket {
                        file_id: files[i].id.clone(),
                        relative_path: files[i].relative_path.clone(),
                        metadata: files[i].metadata,
                        pending_path: join_path(pending.as_str(), files[i].id.as_str()),
                        final_path: join_path(content.as_str(), files[i].relative_path.as_str()),
                        marker_path: join_path(complete.as_str(), files[i].id.as_str()),
                    },
                );
            }
            i += 1;
        }
        Err(SyncError::UnknownFile(path.to_owned()))
    }

    /// Decides whether the slot's session can end, and lists the steps
    /// that end it. The request must carry the session's token, and every
    /// file of the session must have its marker among `completed`, the names
    /// found in the session's completion directory: the path of the first
    /// file without one is reported. Nothing is changed here: once the steps
    /// have been taken, `close_sync` lets the session go.
    #[verifier::loop_isolation(false)]
    pub fn finalize_sync(&self, paths: &Paths, sync_token: &str, completed: &Vec<String>) -> (made:
        Result<Vec<FsStep>, SyncError>)
        ensures
            match self.open_sync {
                None => made matches Err(e) && e@ == SyncErrorView::NoOpenSync,
                Some(s) => if s@.token != sync_token@ {
                    made matches Err(e) && e@ == SyncErrorView::TokenMismatch
                } else if remaining(s@.files, path_views(completed@)).len() > 0 {
                    made matches Err(e) && e@ == SyncErrorView::NotTransferred(
                        remaining(s@.files, path_views(completed@))[0].relative_path,
                    )
                } else {
                    made matches Ok(steps) && step_views(steps@) == finalize_steps(
                        *paths,
                        self.infos@,
                        s@,
                    )
                },
            },
    {
        let open_sync = match &self.open_sync {
            None => {
                return Err(SyncError::NoOpenSync);
            },
            Some(s) => s,
        };
        if !same_str(open_sync.token(), sync_token) {
            return Err(SyncError::TokenMismatch);
        }
        let files = open_sync.files();
        let ghost all = open_sync@.files;
        let ghost keep = waiting(path_views(completed@));
        let markers = marker_set(completed);
        let mut i: usize = 0;
        proof {
            assert(all.take(0) =~= Seq::empty());
            assert(Seq::<SyncFileView>::empty().filter(keep) =~= Seq::empty()) by {
                reveal(Seq::filter);
            }
        }
        while i < files.len()
            invariant
                i <= files.len(),
                file_views(files@) == all,
                keep == waiting(path_views(completed@)),
                forall|s: Seq<char>| markers@.contains_key(s) <==> path_views(completed@).contains(s),
                all.take(i as int).filter(keep).len() == 0,
            decreases files.len() - i,
        {
            proof {
                assert(all.take(i + 1) =~= all.take(i as int).push(all[i as int]));
                all.take(i as int).lemma_filter_push(all[i as int], keep);
            }
            if !markers.contains_key(files[i].id.as_str()) {
                proof {
                    assert(all =~= all.take(i + 1) + all.skip(i + 1));
                    Seq::filter_distributes_over_add(all.take(i + 1), all.skip(i + 1), keep);
                    assert(all.take(i + 1).filter(keep) =~= seq![all[i as int]]);
                }
                return Err(SyncError::NotTransferred(files[i].relative_path.clone()));
            }
            i += 1;
        }
        assert(all.take(i as int) =~= all);
        let sync_id = SyncId(open_sync.id().to_owned());
        let content = paths.slot_content_dir(&self.infos);
        let complete = paths.slot_completion_dir(&self.infos, &sync_id);
        let mut steps: Vec<FsStep> = Vec::new();
        assert(step_views(steps@) =~= Seq::empty());
        push_steps(
            FsOperation::CreateDir,
            content.as_str(),
            &open_sync.diff_ops().create_dirs,
            &mut steps,
        );
        push_file_steps(FsOperation::RemoveFile, complete.as_str(), files, &mut steps);
        let ghost body = step_views(steps@);
        steps.push(FsStep { operation: FsOperation::RemoveDir, path: complete });
        steps.push(
            FsStep {
                operation: FsOperation::RemoveDir,
                path: paths.slot_pending_dir(&self.infos, &sync_id),
            },
        );
        steps.push(
            FsStep {
                operation: FsOperation::RemoveDir,
                path: paths.slot_transfer_dir(&self.infos, &sync_id),
            },
        );
        assert(step_views(steps@) =~= body + seq![
            FsStepView {
                operation: FsOperation::RemoveDir,
                path: paths.slot_completion(self.infos@, open_sync@.id),
            },
            FsStepView {
                operation: FsOperation::RemoveDir,
                path: paths.slot_pending(self.infos@, open_sync@.id),
            },
            FsStepView {
                operation: FsOperation::RemoveDir,
                path: paths.slot_transfer(self.infos@, open_sync@.id),
            },
        ]);
        Ok(steps)
    }

    /// Lets the slot's session go, once the steps that end it have been
    /// taken. The request must carry the session's token; where it does not,
    /// or the slot has no session, the slot is left as it is.
    pub fn close_sync(&mut self, sync_token: &str) -> (outcome: Result<(), SyncError>)
        ensures
            final(self).infos == old(self).infos,
            match old(self).open_sync {
                None => {
                    &&& *final(self) == *old(self)
                    &&& outcome matches Err(e) && e@ == SyncErrorView::NoOpenSync
                },
                Some(s) => if s@.token != sync_token@ {
                    &&& *final(self) == *old(self)
                    &&& outcome matches Err(e) && e@ == SyncErrorView::TokenMismatch
                } else {
                    outcome is Ok && final(self).open_sync is None
                },
            },
    {
        let matches = match &self.open_sync {
            None => {
                return Err(SyncError::NoOpenSync);
            },
            Some(s) => same_str(s.token(), sync_token),
        };
        if !matches {
            return Err(SyncError::TokenMismatch);
        }
        self.open_sync = None;
        Ok(())
    }
}

/// Where no marker has been found, every file of the session remains.
pub proof fn lemma_nothing_done(files: Seq<SyncFileView>, done: Seq<Seq<char>>)
    requires
        done.len() == 0,
    ensures
        remaining(files, done) == files,
    decreases files.len(),
{
    reveal(Seq::filter);
    if files.len() > 0 {
        lemma_nothing_done(files.drop_last(), done);
        assert(files.drop_last().push(files.last()) =~= files);
    }
}

/// The slots of a server, as they are configured when it starts. The set
/// of slots does not change afterwards; only their sessions do.
#[derive(Debug)]
pub struct SlotRegistry {
    slots: Vec<SlotSync>,
}

/// The position of the last slot of the list that has this name.
pub open spec fn position_of_slot(slots: Seq<SlotSync>, name: Seq<char>) -> Option<int> {
    if exists|i: int| 0 <= i < slots.len() && (#[trigger] slots[i]).infos@.name == name {
        Some(
            choose|i: int|
                0 <= i < slots.len() && (#[trigger] slots[i]).infos@.name == name && forall|j: int|
                    i < j < slots.len() ==> (#[trigger] slots[j]).infos@.name != name,
        )
    } else {
        None
    }
}

impl View for SlotRegistry {
    type V = Seq<SlotSync>;

    closed spec fn view(&self) -> Seq<SlotSync> {
        self.slots@
    }
}

impl SlotRegistry {
    /// One slot for each description, in their order, none with a session.
    pub fn new(slots: Vec<SlotInfos>) -> (registry: Self)
        ensures
            registry@.len() == slots@.len(),
            forall|i: int|
                0 <= i < slots@.len() ==> (#[trigger] registry@[i]).infos == slots@[i]
                    && !registry@[i].is_open(),
    {
        let mut made: Vec<SlotSync> = Vec::new();
        for infos in it: slots
            invariant
                it.seq() == slots@,
                made@.len() == it.index(),
                forall|i: int|
                    0 <= i < it.index() ==> (#[trigger] made@[i]).infos == slots@[i]
                        && !made@[i].is_open(),
        {
            made.push(SlotSync::new(infos));
        }
        SlotRegistry { slots: made }
    }

    /// Where the slot of this name stands. Of several slots with one name,
    /// the last is meant.
    pub fn find(&self, slot_name: &str) -> (found: Result<usize, SyncError>)
        ensures
            match found {
                Ok(at) => at < self@.len() && position_of_slot(self@, slot_name@) == Some(
                    at as int,
                ),
                Err(e) => e@ == SyncErrorView::SlotNotFound && position_of_slot(self@, slot_name@)
                    is None,
            },
    {
        let mut i: usize = self.slots.len();
        while i > 0
            invariant
                i <= self.slots.len(),
                forall|j: int| i <= j < self@.len() ==> (#[trigger] self@[j]).infos@.name != slot_name@,
            decreases i,
        {
            i -= 1;
            if same_str(self.slots[i].infos.name(), slot_name) {
                proof {
                    assert(self@[i as int].infos@.name == slot_name@);
                    let at = position_of_slot(self@, slot_name@).unwrap();
                    if at < i {
                        assert(self@[i as int].infos@.name != slot_name@);
                    }
                    if i < at {
                        assert(self@[at].infos@.name != slot_name@);
                    }
                }
                return Ok(i);
            }
        }
        Err(SyncError::SlotNotFound)
    }

    /// The slot of this name.
    pub fn get(&self, slot_name: &str) -> (found: Result<&SlotSync, SyncError>)
        ensures
            match position_of_slot(self@, slot_name@) {
                Some(at) => found matches Ok(slot) && *slot == self@[at],
                None => found matches Err(e) && e@ == SyncErrorView::SlotNotFound,
            },
    {
        match self.find(slot_name) {
            Ok(at) => Ok(&self.slots[at]),
            Err(e) => Err(e),
        }
    }

    /// The slot of this name, to work on. The other slots stay as they are.
    pub fn get_mut(&mut self, slot_name: &str) -> (found: Result<&mut SlotSync, SyncError>)
        ensures
            match position_of_slot(old(self)@, slot_name@) {
                Some(at) => {
                    &&& found matches Ok(slot)
                    &&& *slot == old(self)@[at]
                    &&& final(self)@ == old(self)@.update(at, *final(slot))
                },
                None => {
                    &&& found matches Err(e) && e@ == SyncErrorView::SlotNotFound
                    &&& final(self)@ == old(self)@
                },
            },
    {
        match self.find(slot_name) {
            Ok(at) => Ok(&mut self.slots[at]),
            Err(e) => Err(e),
        }
    }

    /// How many slots there are.
    pub fn len(&self) -> (n: usize)
        ensures
            n == self@.len(),
    {
        self.slots.len()
    }

    /// The slots, in the order in which they were configured.
    pub fn slots(&self) -> (slots: &Vec<SlotSync>)
        ensures
            slots@ == self@,
    {
        &self.slots
    }

    /// Gives the slots up, each to be guarded on its own.
    pub fn into_slots(self) -> (slots: Vec<SlotSync>)
        ensures
            slots@ == self@,
    {
        self.slots
    }
}

/// Of two sessions that are offered to a slot without one, the one after
/// the other, exactly one is taken: the first. The second is refused, the
/// slot keeps the first, and until that one ends every request to open a
/// session is refused as a conflict, whatever it asks for.
pub proof fn lemma_one_of_two_sessions_is_taken(
    slot: SlotSync,
    first: OpenSync,
    second: OpenSync,
    asked: DiffView,
)
    requires
        !slot.is_open(),
    ensures
        installed(slot, first).1,
        installed(slot, first).0.open_sync == Some(first),
        !installed(installed(slot, first).0, second).1,
        installed(installed(slot, first).0, second).0 == installed(slot, first).0,
        begin_refusal(installed(slot, first).0.is_open(), asked) == Some(
            SyncErrorView::SyncAlreadyOpen,
        ),
{
}

/// A diff that names a path which is empty, rooted, or has a `.` or `..`
/// component is refused when a session is opened, whichever of its lists
/// the path stands in.
pub proof fn lemma_escaping_path_refused(d: DiffView, at: int)
    requires
        0 <= at < diff_paths(d).len(),
        !is_safe_relative(diff_paths(d)[at]),
    ensures
        begin_refusal(false, d) matches Some(SyncErrorView::UnsafePath(p)) && !is_safe_relative(p),
{
    lemma_first_unsafe(diff_paths(d));
}

} // verus!
