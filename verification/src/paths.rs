//! Where a slot keeps its files, and which paths may be joined to a slot's
//! tree. Paths are strings with `/` between their components.

use crate::text::{
    chars_of, contains_char, has_row, is_blank, split, split_chars, str_is_blank,
};
use vstd::prelude::*;
use vstd::string::StringExecFns;

verus! {

/// The component that stands for the directory itself.
pub open spec fn dot() -> Seq<char> {
    seq!['.']
}

/// The component that stands for the parent directory.
pub open spec fn dot_dot() -> Seq<char> {
    seq!['.', '.']
}

/// The path starts at the root of the filesystem.
pub open spec fn is_rooted(path: Seq<char>) -> bool {
    path.len() > 0 && path[0] == '/'
}

/// One of the path's components is exactly `component`.
pub open spec fn has_component(path: Seq<char>, component: Seq<char>) -> bool {
    split(path, '/').contains(component)
}

/// The path leaves the directory it is joined to, or may: it is rooted, or
/// one of its components is `.` or `..`.
pub open spec fn escapes(path: Seq<char>) -> bool {
    is_rooted(path) || has_component(path, dot()) || has_component(path, dot_dot())
}

/// A path that can be joined to a slot's tree and stays inside it: not
/// empty, not rooted, and without a `.` or `..` component.
pub open spec fn is_safe_relative(path: Seq<char>) -> bool {
    path.len() > 0 && !escapes(path)
}

/// Which of the two special components a path holds: first `.`, then `..`.
fn special_components(path: &str) -> (found: (bool, bool))
    ensures
        found.0 == has_component(path@, dot()),
        found.1 == has_component(path@, dot_dot()),
{
    let pieces = split_chars(path, '/');
    let one: Vec<char> = vec!['.'];
    let two: Vec<char> = vec!['.', '.'];
    assert(one@ =~= dot());
    assert(two@ =~= dot_dot());
    (has_row(&pieces, &one), has_row(&pieces, &two))
}

fn starts_at_root(path: &str) -> (rooted: bool)
    ensures
        rooted == is_rooted(path@),
{
    let mut chars = path.chars();
    match chars.next() {
        Some(c) => c == '/',
        None => false,
    }
}

/// Whether a path is a plain relative one: not rooted, and without a `.` or
/// `..` component.
pub fn is_relative_linear_path(path: &str) -> (linear: bool)
    ensures
        linear == !escapes(path@),
{
    let found = special_components(path);
    !starts_at_root(path) && !found.0 && !found.1
}

/// Whether a path can be joined to a slot's tree without leaving it.
pub fn is_safe_relative_path(path: &str) -> (safe: bool)
    ensures
        safe == is_safe_relative(path@),
{
    !path.is_empty() && is_relative_linear_path(path)
}

/// `name` under the directory `base`, with one `/` between the two unless
/// `base` is empty or already ends in one.
pub open spec fn joined(base: Seq<char>, name: Seq<char>) -> Seq<char> {
    if base.len() == 0 || base.last() == '/' {
        base + name
    } else {
        base + seq!['/'] + name
    }
}

/// Joins a relative name to a directory.
pub fn join_path(base: &str, name: &str) -> (path: String)
    ensures
        path@ == joined(base@, name@),
{
    let chars = chars_of(base);
    let mut path = String::from_str(base);
    if chars.len() > 0 && chars[chars.len() - 1] != '/' {
        proof {
            reveal_strlit("/");
            assert("/"@ =~= seq!['/']);
        }
        path.append("/");
    }
    path.append(name);
    path
}

/// The characters that no slot name may hold, in the order in which a name
/// is searched for them.
pub open spec fn forbidden_chars() -> Seq<char> {
    seq!['/', '\\', '<', '>', ':', '"', '|', '?', '*', '\r', '\n', '\0']
}

/// The first of `forbidden_chars()`, from position `from` on, that `name` holds.
pub open spec fn first_forbidden(name: Seq<char>, from: int) -> Option<char>
    decreases forbidden_chars().len() - from,
{
    if from < 0 || from >= forbidden_chars().len() {
        None
    } else if name.contains(forbidden_chars()[from]) {
        Some(forbidden_chars()[from])
    } else {
        first_forbidden(name, from + 1)
    }
}

/// Why a slot cannot be had.
#[derive(Clone, Copy, Debug, PartialEq, Eq, Structural)]
pub enum SlotError {
    /// The name is empty or white space only.
    EmptyName,
    /// The name holds this character, which is not allowed in names.
    ForbiddenChar(char),
    /// The linked path does not start at the root.
    LinkedPathNotRooted,
    /// The linked path has a `.` component.
    LinkedPathHasCurrentDir,
    /// The linked path has a `..` component.
    LinkedPathHasParentDir,
}

/// What is wrong with a linked path, if anything.
pub open spec fn linked_error(linked: Seq<char>) -> Option<SlotError> {
    if !is_rooted(linked) {
        Some(SlotError::LinkedPathNotRooted)
    } else if has_component(linked, dot()) {
        Some(SlotError::LinkedPathHasCurrentDir)
    } else if has_component(linked, dot_dot()) {
        Some(SlotError::LinkedPathHasParentDir)
    } else {
        None
    }
}

/// What is wrong with a slot's description, if anything: the first of the
/// name being blank, the name holding a forbidden character, and the linked
/// path not being a plain rooted one.
pub open spec fn slot_error(name: Seq<char>, linked: Option<Seq<char>>) -> Option<SlotError> {
    if is_blank(name) {
        Some(SlotError::EmptyName)
    } else if first_forbidden(name, 0) is Some {
        Some(SlotError::ForbiddenChar(first_forbidden(name, 0).unwrap()))
    } else {
        match linked {
            Some(l) => linked_error(l),
            None => None,
        }
    }
}

/// The characters of an optional string.
pub open spec fn opt_view(s: Option<String>) -> Option<Seq<char>> {
    match s {
        Some(s) => Some(s@),
        None => None,
    }
}

/// A slot as it is configured: its name, and where its content lives if
/// that is not under the data directory.
#[derive(Debug)]
pub struct SlotInfos {
    name: String,
    linked: Option<String>,
}

/// A `SlotInfos` as a plain value.
pub struct SlotInfosView {
    pub name: Seq<char>,
    pub linked: Option<Seq<char>>,
}

impl View for SlotInfos {
    type V = SlotInfosView;

    closed spec fn view(&self) -> SlotInfosView {
        SlotInfosView { name: self.name@, linked: opt_view(self.linked) }
    }
}

fn find_forbidden(name: &str) -> (found: Option<char>)
    ensures
        found == first_forbidden(name@, 0),
{
    let forbidden: Vec<char> = vec!['/', '\\', '<', '>', ':', '"', '|', '?', '*', '\r', '\n', '\0'];
    assert(forbidden@ =~= forbidden_chars());
    let mut i: usize = 0;
    while i < forbidden.len()
        invariant
            i <= forbidden.len(),
            forbidden@ == forbidden_chars(),
            first_forbidden(name@, 0) == first_forbidden(name@, i as int),
        decreases forbidden.len() - i,
    {
        if contains_char(name, forbidden[i]) {
            return Some(forbidden[i]);
        }
        i += 1;
    }
    None
}

fn check_linked(linked: &str) -> (error: Option<SlotError>)
    ensures
        error == linked_error(linked@),
{
    if !starts_at_root(linked) {
        return Some(SlotError::LinkedPathNotRooted);
    }
    let found = special_components(linked);
    if found.0 {
        Some(SlotError::LinkedPathHasCurrentDir)
    } else if found.1 {
        Some(SlotError::LinkedPathHasParentDir)
    } else {
        None
    }
}

/// Where an input of the form `NAME` or `NAME:LINKED_PATH` is cut: at its
/// first `:`, if it has one.
pub open spec fn slot_name_of(input: Seq<char>) -> Seq<char> {
    match input.index_of_first(':') {
        Some(at) => input.take(at),
        None => input,
    }
}

/// The part of such an input behind its first `:`.
pub open spec fn slot_link_of(input: Seq<char>) -> Option<Seq<char>> {
    match input.index_of_first(':') {
        Some(at) => Some(input.skip(at + 1)),
        None => None,
    }
}

impl SlotInfos {
    /// The slot's description is in order.
    pub open spec fn wf(&self) -> bool {
        slot_error(self@.name, self@.linked) is None
    }

    /// Describes a slot, or says what is wrong with the description.
    pub fn new(name: String, linked: Option<String>) -> (made: Result<Self, SlotError>)
        ensures
            match made {
                Ok(slot) => slot_error(name@, opt_view(linked)) is None && slot@.name == name@
                    && slot@.linked == opt_view(linked) && slot.wf(),
                Err(e) => slot_error(name@, opt_view(linked)) == Some(e),
            },
    {
        if str_is_blank(name.as_str()) {
            return Err(SlotError::EmptyName);
        }
        if let Some(c) = find_forbidden(name.as_str()) {
            return Err(SlotError::ForbiddenChar(c));
        }
        if let Some(ref l) = linked {
            if let Some(e) = check_linked(l.as_str()) {
                return Err(e);
            }
        }
        Ok(Self { name, linked })
    }

    /// Reads a slot from `NAME` or `NAME:LINKED_PATH`.
    pub fn parse(input: &str) -> (made: Result<Self, SlotError>)
        ensures
            match made {
                Ok(slot) => slot_error(slot_name_of(input@), slot_link_of(input@)) is None
                    && slot@.name == slot_name_of(input@) && slot@.linked == slot_link_of(input@)
                    && slot.wf(),
                Err(e) => slot_error(slot_name_of(input@), slot_link_of(input@)) == Some(e),
            },
    {
        let chars = chars_of(input);
        let mut sep: usize = 0;
        while sep < chars.len() && chars[sep] != ':'
            invariant
                sep <= chars.len(),
                forall|k: int| 0 <= k < sep ==> chars@[k] != ':',
            decreases chars.len() - sep,
        {
            sep += 1;
        }
        if sep < chars.len() {
            proof {
                assert(input@[sep as int] == ':');
                assert(input@.contains(':'));
                input@.index_of_first_ensures(':');
                let first = input@.index_of_first(':').unwrap();
                assert(first == sep) by {
                    if first < sep {
                        assert(chars@[first] != ':');
                    }
                }
            }
            let name = input.substring_char(0, sep);
            let linked = input.substring_char(sep + 1, chars.len());
            assert(name@ =~= input@.take(sep as int));
            assert(linked@ =~= input@.skip(sep + 1));
            Self::new(String::from_str(name), Some(String::from_str(linked)))
        } else {
            proof {
                input@.index_of_first_ensures(':');
                if input@.contains(':') {
                    let k = choose|k: int| 0 <= k < input@.len() && input@[k] == ':';
                    assert(chars@[k] != ':');
                }
            }
            Self::new(String::from_str(input), None)
        }
    }

    /// The slot's name.
    pub fn name(&self) -> (name: &str)
        ensures
            name@ == self@.name,
    {
        self.name.as_str()
    }

    /// Where the slot's content lives, if not under the data directory.
    pub fn linked(&self) -> (linked: Option<&str>)
        ensures
            match linked {
                Some(l) => self@.linked == Some(l@),
                None => self@.linked is None,
            },
    {
        match &self.linked {
            Some(l) => Some(l.as_str()),
            None => None,
        }
    }

    /// A copy of the slot's description.
    pub fn duplicate(&self) -> (copy: Self)
        ensures
            copy@ == self@,
    {
        let linked = match &self.linked {
            Some(l) => Some(l.clone()),
            None => None,
        };
        Self { name: self.name.clone(), linked }
    }
}

/// The identifier of a session, which names its directory.
#[derive(Debug)]
pub struct SyncId(pub String);

/// The layout of the server's data directory.
#[derive(Debug)]
pub struct Paths {
    data_dir: String,
}

impl Paths {
    /// The data directory.
    pub closed spec fn root(&self) -> Seq<char> {
        self.data_dir@
    }

    /// The file that lists the access tokens.
    pub open spec fn app_data_file_spec(&self) -> Seq<char> {
        joined(self.root(), "state.json"@)
    }

    /// The directory of a slot.
    pub open spec fn slot_root(&self, slot: SlotInfosView) -> Seq<char> {
        joined(joined(self.root(), "slots"@), slot.name)
    }

    /// The tree that a slot keeps: the linked path if it has one, else
    /// `content` under the slot's directory.
    pub open spec fn slot_content(&self, slot: SlotInfosView) -> Seq<char> {
        match slot.linked {
            Some(l) => l,
            None => joined(self.slot_root(slot), "content"@),
        }
    }

    /// The directory of a session: `open-sync-` and the session's
    /// identifier, under the slot's directory.
    pub open spec fn slot_transfer(&self, slot: SlotInfosView, sync_id: Seq<char>) -> Seq<char> {
        joined(self.slot_root(slot), "open-sync-"@ + sync_id)
    }

    /// Where a session keeps the markers of the files that have arrived.
    pub open spec fn slot_completion(&self, slot: SlotInfosView, sync_id: Seq<char>) -> Seq<char> {
        joined(self.slot_transfer(slot, sync_id), "complete"@)
    }

    /// Where a session keeps the files that are arriving.
    pub open spec fn slot_pending(&self, slot: SlotInfosView, sync_id: Seq<char>) -> Seq<char> {
        joined(self.slot_transfer(slot, sync_id), "pending"@)
    }

    /// The layout below a data directory.
    pub fn new(data_dir: String) -> (paths: Self)
        ensures
            paths.root() == data_dir@,
    {
        Self { data_dir }
    }

    /// The file that lists the access tokens: `state.json` in the data directory.
    pub fn app_data_file(&self) -> (path: String)
        ensures
            path@ == self.app_data_file_spec(),
    {
        join_path(self.data_dir.as_str(), "state.json")
    }

    /// The directory of a slot: its name under `slots` in the data directory.
    pub fn slot_root_dir(&self, slot: &SlotInfos) -> (path: String)
        ensures
            path@ == self.slot_root(slot@),
    {
        let slots = join_path(self.data_dir.as_str(), "slots");
        join_path(slots.as_str(), slot.name())
    }

    /// The tree that a slot keeps.
    pub fn slot_content_dir(&self, slot: &SlotInfos) -> (path: String)
        ensures
            path@ == self.slot_content(slot@),
    {
        match slot.linked() {
            Some(l) => String::from_str(l),
            None => {
                let root = self.slot_root_dir(slot);
                join_path(root.as_str(), "content")
            },
        }
    }

    /// The directory of a session of a slot.
    pub fn slot_transfer_dir(&self, slot: &SlotInfos, sync_id: &SyncId) -> (path: String)
        ensures
            path@ == self.slot_transfer(slot@, sync_id.0@),
    {
        let root = self.slot_root_dir(slot);
        let mut name = String::from_str("open-sync-");
        name.append(sync_id.0.as_str());
        join_path(root.as_str(), name.as_str())
    }

    /// Where a session keeps the markers of the files that have arrived.
    pub fn slot_completion_dir(&self, slot: &SlotInfos, sync_id: &SyncId) -> (path: String)
        ensures
            path@ == self.slot_completion(slot@, sync_id.0@),
    {
        let transfer = self.slot_transfer_dir(slot, sync_id);
        join_path(transfer.as_str(), "complete")
    }

    /// Where a session keeps the files that are arriving.
    pub fn slot_pending_dir(&self, slot: &SlotInfos, sync_id: &SyncId) -> (path: String)
        ensures
            path@ == self.slot_pending(slot@, sync_id.0@),
    {
        let transfer = self.slot_transfer_dir(slot, sync_id);
        join_path(transfer.as_str(), "pending")
    }
}

} // verus!
