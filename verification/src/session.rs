//! The session of a slot: what it holds while a client pushes a tree, and
//! what must hold of it from the moment it is made.

use crate::data::{generate_id, generate_id_unlike, is_id, is_id_char, ID_LENGTH};
use crate::diffing::{
    added_file, became_file, bucket_paths, keyed, modified_file, plan, total_size, Diff,
    DiffApplyOps, DiffApplyOpsView, DiffItemAdded, DiffItemTypeChanged, DiffView,
};
use crate::errors::{SyncError, SyncErrorView};
use crate::order::path_views;
use crate::paths::{is_safe_relative, is_safe_relative_path};
use crate::snapshot::SnapshotFileMetadata;
use vstd::hash_map::StringHashMap;
use vstd::prelude::*;
use vstd::string::StrSliceExecFns;

verus! {

/// A file that a session waits for.
#[derive(Debug)]
pub struct SyncFile {
    pub id: String,
    pub relative_path: String,
    pub metadata: SnapshotFileMetadata,
}

/// A `SyncFile` as a plain value.
pub struct SyncFileView {
    pub id: Seq<char>,
    pub relative_path: Seq<char>,
    pub metadata: SnapshotFileMetadata,
}

impl View for SyncFile {
    type V = SyncFileView;

    open spec fn view(&self) -> SyncFileView {
        SyncFileView { id: self.id@, relative_path: self.relative_path@, metadata: self.metadata }
    }
}

/// The files of a vector as plain values.
pub open spec fn file_views(files: Seq<SyncFile>) -> Seq<SyncFileView> {
    files.map_values(|f: SyncFile| f@)
}

/// All the paths that a diff names, list by list.
pub open spec fn diff_paths(d: DiffView) -> Seq<Seq<char>> {
    bucket_paths(d.added) + bucket_paths(d.modified) + bucket_paths(d.type_changed) + bucket_paths(
        d.deleted,
    )
}

/// The first path of the list that is not a safe relative one.
pub open spec fn first_unsafe(paths: Seq<Seq<char>>) -> Option<Seq<char>>
    decreases paths.len(),
{
    if paths.len() == 0 {
        None
    } else if !is_safe_relative(paths[0]) {
        Some(paths[0])
    } else {
        first_unsafe(paths.drop_first())
    }
}

/// The identifiers are well formed, and no two are the same.
pub open spec fn usable_ids(ids: Seq<Seq<char>>) -> bool {
    &&& forall|i: int| 0 <= i < ids.len() ==> is_id(#[trigger] ids[i])
    &&& forall|i: int, j: int| 0 <= i < j < ids.len() ==> #[trigger] ids[i] != #[trigger] ids[j]
}

/// The files of a session: the files to send, in their order, each under its identifier.
pub open spec fn session_files(
    send_files: Seq<(Seq<char>, SnapshotFileMetadata)>,
    ids: Seq<Seq<char>>,
) -> Seq<SyncFileView> {
    Seq::new(
        send_files.len(),
        |k: int| SyncFileView { id: ids[k], relative_path: send_files[k].0, metadata: send_files[k].1 },
    )
}

/// The identifiers of a session's files.
pub open spec fn ids_of(files: Seq<SyncFileView>) -> Seq<Seq<char>> {
    files.map_values(|f: SyncFileView| f.id)
}

/// A session as a plain value.
pub struct OpenSyncView {
    pub id: Seq<char>,
    pub token: Seq<char>,
    pub diff: DiffView,
    pub diff_ops: DiffApplyOpsView,
    pub files: Seq<SyncFileView>,
}

/// What holds of every session: its identifier and token are well formed;
/// its plan is that of its diff; no path of the diff leaves the slot's tree;
/// it waits for exactly the files that the plan sends, each under an
/// identifier of its own; and their sizes add up within 64 bits.
pub open spec fn session_wf(s: OpenSyncView) -> bool {
    &&& is_id(s.id)
    &&& is_id(s.token)
    &&& s.diff_ops == plan(s.diff)
    &&& first_unsafe(diff_paths(s.diff)) is None
    &&& total_size(s.diff_ops.send_files) <= u64::MAX
    &&& usable_ids(ids_of(s.files))
    &&& s.files == session_files(s.diff_ops.send_files, ids_of(s.files))
}

/// Why a diff cannot be taken on, whatever identifiers are drawn: the first
/// of its paths that is not a safe relative one, or the sizes of its files
/// exceeding 64 bits.
pub open spec fn diff_refusal(d: DiffView) -> Option<SyncErrorView> {
    match first_unsafe(diff_paths(d)) {
        Some(p) => Some(SyncErrorView::UnsafePath(p)),
        None => if total_size(plan(d).send_files) > u64::MAX {
            Some(SyncErrorView::TransferTooLarge)
        } else {
            None
        },
    }
}

/// The session of a slot.
#[derive(Debug)]
pub struct OpenSync {
    id: String,
    token: String,
    diff: Diff,
    diff_ops: DiffApplyOps,
    files: Vec<SyncFile>,
}

impl View for OpenSync {
    type V = OpenSyncView;

    closed spec fn view(&self) -> OpenSyncView {
        OpenSyncView {
            id: self.id@,
            token: self.token@,
            diff: self.diff@,
            diff_ops: self.diff_ops@,
            files: file_views(self.files@),
        }
    }
}

/// Every path before the first unsafe one is safe; where there is none, all are.
pub proof fn lemma_first_unsafe(paths: Seq<Seq<char>>)
    ensures
        first_unsafe(paths) is None <==> forall|i: int|
            0 <= i < paths.len() ==> is_safe_relative(#[trigger] paths[i]),
        first_unsafe(paths) is Some ==> paths.contains(first_unsafe(paths).unwrap())
            && !is_safe_relative(first_unsafe(paths).unwrap()),
    decreases paths.len(),
{
    if paths.len() > 0 {
        let rest = paths.drop_first();
        lemma_first_unsafe(rest);
        if is_safe_relative(paths[0]) {
            if first_unsafe(rest) is None {
                assert forall|i: int| 0 <= i < paths.len() implies is_safe_relative(
                    #[trigger] paths[i],
                ) by {
                    if i > 0 {
                        assert(rest[i - 1] == paths[i]);
                    }
                }
            } else {
                let p = first_unsafe(rest).unwrap();
                let k = choose|k: int| 0 <= k < rest.len() && rest[k] == p;
                assert(paths[k + 1] == p);
            }
        } else {
            assert(paths[0] == first_unsafe(paths).unwrap());
        }
    }
}

/// The first unsafe path of two lists, one behind the other, is that of the
/// first list, or else that of the second.
pub proof fn lemma_first_unsafe_concat(a: Seq<Seq<char>>, b: Seq<Seq<char>>)
    ensures
        first_unsafe(a + b) == if first_unsafe(a) is Some {
            first_unsafe(a)
        } else {
            first_unsafe(b)
        },
    decreases a.len(),
{
    if a.len() == 0 {
        assert(a + b =~= b);
    } else {
        assert((a + b).drop_first() =~= a.drop_first() + b);
        lemma_first_unsafe_concat(a.drop_first(), b);
    }
}

/// The first path of a list that is not a safe relative one.
fn find_unsafe_path<T>(bucket: &Vec<(String, T)>) -> (found: Option<String>)
    ensures
        match found {
            Some(p) => first_unsafe(bucket_paths(keyed(bucket@))) == Some(p@),
            None => first_unsafe(bucket_paths(keyed(bucket@))) is None,
        },
{
    let ghost paths = bucket_paths(keyed(bucket@));
    let mut i: usize = 0;
    assert(paths.skip(0) =~= paths);
    while i < bucket.len()
        invariant
            i <= bucket.len(),
            paths == bucket_paths(keyed(bucket@)),
            first_unsafe(paths) == first_unsafe(paths.skip(i as int)),
        decreases bucket.len() - i,
    {
        assert(paths.skip(i as int)[0] == bucket@[i as int].0@);
        if !is_safe_relative_path(bucket[i].0.as_str()) {
            return Some(bucket[i].0.clone());
        }
        assert(paths.skip(i as int).drop_first() =~= paths.skip(i + 1));
        i += 1;
    }
    assert(paths.skip(i as int).len() == 0);
    None
}

/// The first path of a diff that is not a safe relative one.
fn find_unsafe_in_diff(diff: &Diff) -> (found: Option<String>)
    ensures
        match found {
            Some(p) => first_unsafe(diff_paths(diff@)) == Some(p@),
            None => first_unsafe(diff_paths(diff@)) is None,
        },
{
    proof {
        let a = bucket_paths(diff@.added);
        let m = bucket_paths(diff@.modified);
        let t = bucket_paths(diff@.type_changed);
        let d = bucket_paths(diff@.deleted);
        lemma_first_unsafe_concat(a + m + t, d);
        lemma_first_unsafe_concat(a + m, t);
        lemma_first_unsafe_concat(a, m);
    }
    if let Some(p) = find_unsafe_path(&diff.added) {
        return Some(p);
    }
    if let Some(p) = find_unsafe_path(&diff.modified) {
        return Some(p);
    }
    if let Some(p) = find_unsafe_path(&diff.type_changed) {
        return Some(p);
    }
    find_unsafe_path(&diff.deleted)
}

/// Whether a string has the form of an identifier.
pub fn is_identifier(s: &str) -> (ok: bool)
    ensures
        ok == is_id(s@),
{
    if s.unicode_len() != ID_LENGTH {
        return false;
    }
    let mut ok = true;
    for c in it: s.chars()
        invariant
            it.seq() == s@,
            ok == forall|i: int| 0 <= i < it.index() ==> is_id_char(#[trigger] s@[i]),
    {
        let u = c as u32;
        if !((0x61 <= u && u <= 0x7A) || (0x41 <= u && u <= 0x5A) || (0x30 <= u && u <= 0x39)) {
            assert(!is_id_char(s@[it.index() as int]));
            ok = false;
        }
    }
    ok
}

/// Whether the identifiers are well formed and all different.
pub fn are_usable_ids(ids: &Vec<String>) -> (ok: bool)
    ensures
        ok == usable_ids(path_views(ids@)),
{
    let ghost all = path_views(ids@);
    let mut seen: StringHashMap<bool> = StringHashMap::new();
    let mut i: usize = 0;
    while i < ids.len()
        invariant
            i <= ids.len(),
            all == path_views(ids@),
            forall|k: int| 0 <= k < i ==> is_id(#[trigger] all[k]),
            forall|a: int, b: int| 0 <= a < b < i ==> #[trigger] all[a] != #[trigger] all[b],
            forall|s: Seq<char>|
                seen@.contains_key(s) <==> exists|k: int| 0 <= k < i && #[trigger] all[k] == s,
        decreases ids.len() - i,
    {
        if !is_identifier(ids[i].as_str()) {
            assert(!is_id(all[i as int]));
            return false;
        }
        if seen.contains_key(ids[i].as_str()) {
            proof {
                let k = choose|k: int| 0 <= k < i && #[trigger] all[k] == all[i as int];
                assert(all[k] == all[i as int]);
            }
            return false;
        }
        let ghost before = seen@;
        seen.insert(ids[i].clone(), true);
        proof {
            assert forall|s: Seq<char>|
                seen@.contains_key(s) <==> exists|k: int| 0 <= k < i + 1 && #[trigger] all[k] == s by {
                if before.contains_key(s) {
                    let k = choose|k: int| 0 <= k < i && #[trigger] all[k] == s;
                    assert(all[k] == s);
                }
                if s == all[i as int] {
                    assert(all[i as int] == s);
                }
            }
        }
        i += 1;
    }
    true
}

/// The identifiers can name a session for the diff and its files: the
/// session's identifier and its token are well formed, and there is one
/// well-formed identifier for each file to send, no two the same.
pub open spec fn ids_fit(
    d: DiffView,
    id: Seq<char>,
    token: Seq<char>,
    files: Seq<Seq<char>>,
) -> bool {
    &&& is_id(id)
    &&& is_id(token)
    &&& files.len() == plan(d).send_files.len()
    &&& usable_ids(files)
}

/// The session that a diff and a set of identifiers make.
pub open spec fn session_of(
    d: DiffView,
    id: Seq<char>,
    token: Seq<char>,
    files: Seq<Seq<char>>,
) -> OpenSyncView {
    OpenSyncView {
        id,
        token,
        diff: d,
        diff_ops: plan(d),
        files: session_files(plan(d).send_files, files),
    }
}

impl OpenSync {
    #[verifier::type_invariant]
    closed spec fn inv(&self) -> bool {
        session_wf(self@)
    }

    /// Makes a session from a diff and the identifiers drawn for it. The
    /// diff is refused if one of its paths is not a safe relative one or its
    /// files are too large together; the identifiers, if they are not well
    /// formed, not all different, or not as many as there are files to send.
    pub fn assemble(diff: Diff, id: String, token: String, file_ids: Vec<String>) -> (made: Result<
        Self,
        SyncError,
    >)
        ensures
            match diff_refusal(diff@) {
                Some(e) => made matches Err(err) && err@ == e,
                None => if ids_fit(diff@, id@, token@, path_views(file_ids@)) {
                    made matches Ok(s) && s@ == session_of(
                        diff@,
                        id@,
                        token@,
                        path_views(file_ids@),
                    ) && session_wf(s@)
                } else {
                    made matches Err(err) && err@ == SyncErrorView::UnusableIdentifiers
                },
            },
    {
        if let Some(p) = find_unsafe_in_diff(&diff) {
            return Err(SyncError::UnsafePath(p));
        }
        let diff_ops = diff.ops();
        if diff_ops.transfer_size().is_none() {
            return Err(SyncError::TransferTooLarge);
        }
        if !is_identifier(id.as_str()) || !is_identifier(token.as_str()) || file_ids.len()
            != diff_ops.send_files.len() || !are_usable_ids(&file_ids) {
            return Err(SyncError::UnusableIdentifiers);
        }
        let ghost ids = path_views(file_ids@);
        let ghost send = keyed(diff_ops.send_files@);
        let mut files: Vec<SyncFile> = Vec::new();
        for file_id in it: file_ids
            invariant
                it.seq() == file_ids@,
                ids == path_views(file_ids@),
                send == keyed(diff_ops.send_files@),
                file_ids@.len() == diff_ops.send_files@.len(),
                files@.len() == it.index(),
                forall|k: int|
                    0 <= k < it.index() ==> (#[trigger] file_views(files@)[k]) == (SyncFileView {
                        id: ids[k],
                        relative_path: send[k].0,
                        metadata: send[k].1,
                    }),
        {
            let k = files.len();
            let ghost before = file_views(files@);
            files.push(
                SyncFile {
                    id: file_id,
                    relative_path: diff_ops.send_files[k].0.clone(),
                    metadata: diff_ops.send_files[k].1,
                },
            );
            assert forall|j: int| 0 <= j < k + 1 implies (#[trigger] file_views(files@)[j]) == (
            SyncFileView { id: ids[j], relative_path: send[j].0, metadata: send[j].1 }) by {
                if j < k {
                    assert(file_views(files@)[j] == before[j]);
                }
            }
        }
        proof {
            assert(file_views(files@) =~= session_files(send, ids));
            assert(ids_of(file_views(files@)) =~= ids);
        }
        Ok(OpenSync { id, token, diff, diff_ops, files })
    }

    /// Opens a session for a diff, under identifiers drawn at random. Whether
    /// the diff is taken on does not depend on the draw. The draw fails the
    /// session only if two of the files' identifiers come out the same, which
    /// cannot be where the plan sends one file or none.
    pub fn new(diff: Diff) -> (made: Result<Self, SyncError>)
        ensures
            match diff_refusal(diff@) {
                Some(e) => made matches Err(err) && err@ == e,
                None => match made {
                    Ok(s) => s@.diff == diff@ && session_wf(s@),
                    Err(err) => err@ == SyncErrorView::UnusableIdentifiers,
                },
            },
            diff_refusal(diff@) is None && plan(diff@).send_files.len() <= 1 ==> made is Ok,
    {
        let wanted = diff.ops().send_files.len();
        let mut file_ids: Vec<String> = Vec::new();
        while file_ids.len() < wanted
            invariant
                file_ids.len() <= wanted,
                forall|k: int| 0 <= k < file_ids@.len() ==> is_id(#[trigger] path_views(file_ids@)[k]),
            decreases wanted - file_ids.len(),
        {
            let ghost before = path_views(file_ids@);
            let id = generate_id();
            file_ids.push(id);
            assert(path_views(file_ids@) =~= before.push(id@));
        }
        Self::assemble(diff, generate_id(), generate_id(), file_ids)
    }

    /// Replaces the session's token by a fresh one, which is not the token
    /// that it had, and returns it.
    pub fn regenerate_access_token(&mut self) -> (token: String)
        ensures
            is_id(token@),
            token@ != old(self)@.token,
            final(self)@ == (OpenSyncView { token: token@, ..old(self)@ }),
    {
        proof {
            use_type_invariant(&*self);
        }
        let id = generate_id_unlike(self.token.as_str());
        self.token = id.clone();
        id
    }

    /// The session's identifier, which names its directory.
    pub fn id(&self) -> (id: &str)
        ensures
            id@ == self@.id,
            is_id(id@),
    {
        proof {
            use_type_invariant(self);
        }
        self.id.as_str()
    }

    /// The token that requests on this session must carry.
    pub fn token(&self) -> (token: &str)
        ensures
            token@ == self@.token,
            is_id(token@),
    {
        proof {
            use_type_invariant(self);
        }
        self.token.as_str()
    }

    /// The diff that the session carries out.
    pub fn diff(&self) -> (diff: &Diff)
        ensures
            diff@ == self@.diff,
            first_unsafe(diff_paths(diff@)) is None,
    {
        proof {
            use_type_invariant(self);
        }
        &self.diff
    }

    /// The plan of the session's diff.
    pub fn diff_ops(&self) -> (ops: &DiffApplyOps)
        ensures
            ops@ == self@.diff_ops,
            ops@ == plan(self@.diff),
    {
        proof {
            use_type_invariant(self);
        }
        &self.diff_ops
    }

    /// The files that the session waits for. Each stands under an identifier
    /// of its own, and each has a path that stays inside the slot's tree.
    pub fn files(&self) -> (files: &Vec<SyncFile>)
        ensures
            file_views(files@) == self@.files,
            session_wf(self@),
            forall|k: int|
                0 <= k < files@.len() ==> is_safe_relative((#[trigger] files@[k]).relative_path@),
    {
        proof {
            use_type_invariant(self);
            lemma_session_paths_safe(self@);
            assert forall|k: int| 0 <= k < self.files@.len() implies is_safe_relative(
                (#[trigger] self.files@[k]).relative_path@,
            ) by {
                assert(self@.files[k].relative_path == self.files@[k].relative_path@);
            }
        }
        &self.files
    }
}

/// The file of every identifier of a session has a path that stays inside
/// the slot's tree: not empty, not rooted, without `.` or `..`.
pub proof fn lemma_session_paths_safe(s: OpenSyncView)
    requires
        session_wf(s),
    ensures
        forall|k: int| 0 <= k < s.files.len() ==> is_safe_relative((#[trigger] s.files[k]).relative_path),
{
    assert forall|k: int| 0 <= k < s.files.len() implies is_safe_relative(
        (#[trigger] s.files[k]).relative_path,
    ) by {
        let p = s.files[k].relative_path;
        let send = plan(s.diff).send_files;
        assert(send[k].0 == p);
        lemma_sent_path_in_diff(s.diff, k);
        lemma_first_unsafe(diff_paths(s.diff));
        let j = choose|j: int| 0 <= j < diff_paths(s.diff).len() && diff_paths(s.diff)[j] == p;
        assert(is_safe_relative(diff_paths(s.diff)[j]));
    }
}

/// Each file that a plan sends is named by the diff.
pub proof fn lemma_sent_path_in_diff(d: DiffView, k: int)
    requires
        0 <= k < plan(d).send_files.len(),
    ensures
        diff_paths(d).contains(plan(d).send_files[k].0),
{
    let send = plan(d).send_files;
    let a = d.added.filter_map(added_file());
    let m = d.modified.map_values(modified_file());
    let t = d.type_changed.filter_map(became_file());
    let x = send[k];
    let all = diff_paths(d);
    if k < a.len() {
        assert(a[k] == x);
        assert(a.contains(x));
        d.added.lemma_filter_map_contains(added_file(), x);
        let e = choose|e: (Seq<char>, DiffItemAdded)| #[trigger]
            d.added.contains(e) && added_file()(e) == Some(x);
        let i = choose|i: int| 0 <= i < d.added.len() && d.added[i] == e;
        assert(all[i] == x.0);
    } else if k < a.len() + m.len() {
        let i = k - a.len();
        assert(m[i] == x);
        assert(all[d.added.len() + i] == x.0);
    } else {
        let i = k - a.len() - m.len();
        assert(t[i] == x);
        assert(t.contains(x));
        d.type_changed.lemma_filter_map_contains(became_file(), x);
        let e = choose|e: (Seq<char>, DiffItemTypeChanged)| #[trigger]
            d.type_changed.contains(e) && became_file()(e) == Some(x);
        let j = choose|j: int| 0 <= j < d.type_changed.len() && d.type_changed[j] == e;
        assert(all[d.added.len() + d.modified.len() + j] == x.0);
    }
}

} // verus!
