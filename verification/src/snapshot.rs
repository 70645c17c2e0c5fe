//! The catalogue of a directory tree: one entry per file or directory, keyed
//! by its path relative to the root of the walk.

use crate::order::path_views;
use crate::paths::{dot_dot, is_rooted, is_safe_relative, is_safe_relative_path};
use crate::text::{chars_of, contains_char, has_row, rows, same_chars, split, split_chars};
use vstd::prelude::*;
use vstd::seq_lib::lemma_multiset_commutative;
use vstd::string::{StrSliceExecFns, StringExecFns};

verus! {

/// What a snapshot records of a regular file.
#[derive(Clone, Copy, Debug, PartialEq, Eq, Structural)]
pub struct SnapshotFileMetadata {
    pub size: u64,
    pub last_modif_date_s: u64,
    pub last_modif_date_ns: u32,
}

/// What a snapshot records of an entry: a directory, or a file with its metadata.
#[derive(Clone, Copy, Debug, PartialEq, Eq, Structural)]
pub enum SnapshotItemMetadata {
    Directory,
    File(SnapshotFileMetadata),
}

impl SnapshotItemMetadata {
    /// Whether the entry is a directory.
    pub fn is_directory(&self) -> (b: bool)
        ensures
            b == (*self is Directory),
    {
        match self {
            SnapshotItemMetadata::Directory => true,
            SnapshotItemMetadata::File(_) => false,
        }
    }
}

/// One entry of a snapshot.
#[derive(Debug)]
pub struct SnapshotItem {
    pub relative_path: String,
    pub metadata: SnapshotItemMetadata,
}

/// The catalogue of a directory tree at one instant.
#[derive(Debug)]
pub struct Snapshot {
    pub from_dir: String,
    pub items: Vec<SnapshotItem>,
}

/// A `SnapshotItem` as a plain value.
pub struct SnapshotItemView {
    pub relative_path: Seq<char>,
    pub metadata: SnapshotItemMetadata,
}

impl View for SnapshotItem {
    type V = SnapshotItemView;

    open spec fn view(&self) -> SnapshotItemView {
        SnapshotItemView { relative_path: self.relative_path@, metadata: self.metadata }
    }
}

/// The entries of a vector as plain values.
pub open spec fn item_views(items: Seq<SnapshotItem>) -> Seq<SnapshotItemView> {
    items.map_values(|i: SnapshotItem| i@)
}

/// What a sequence of entries says of each path. Where a path occurs more
/// than once, its last entry counts.
pub open spec fn catalog(items: Seq<SnapshotItemView>) -> Map<Seq<char>, SnapshotItemMetadata>
    decreases items.len(),
{
    if items.len() == 0 {
        Map::empty()
    } else {
        catalog(items.drop_last()).insert(items.last().relative_path, items.last().metadata)
    }
}

impl Snapshot {
    /// What the snapshot says of each path.
    pub open spec fn catalog(&self) -> Map<Seq<char>, SnapshotItemMetadata> {
        catalog(item_views(self.items@))
    }
}

/// A path occurs in the catalogue exactly when some entry carries it.
pub proof fn lemma_catalog_dom(items: Seq<SnapshotItemView>, path: Seq<char>)
    ensures
        catalog(items).contains_key(path) <==> exists|i: int|
            0 <= i < items.len() && (#[trigger] items[i]).relative_path == path,
    decreases items.len(),
{
    if items.len() > 0 {
        lemma_catalog_dom(items.drop_last(), path);
        if catalog(items).contains_key(path) {
            if items.last().relative_path == path {
                assert(items[items.len() - 1].relative_path == path);
            } else {
                let i = choose|i: int|
                    0 <= i < items.drop_last().len() && (#[trigger] items.drop_last()[i]).relative_path
                        == path;
                assert(items[i].relative_path == path);
            }
        }
        if exists|i: int| 0 <= i < items.len() && (#[trigger] items[i]).relative_path == path {
            let i = choose|i: int| 0 <= i < items.len() && (#[trigger] items[i]).relative_path == path;
            if i < items.len() - 1 {
                assert(items.drop_last()[i].relative_path == path);
            }
        }
    }
}

/// No path is listed under two different descriptions: entries with the
/// same path say the same of it.
pub open spec fn one_entry_per_path(items: Seq<SnapshotItemView>) -> bool {
    forall|i: int, j: int|
        0 <= i < items.len() && 0 <= j < items.len() && (#[trigger] items[i]).relative_path == (
        #[trigger] items[j]).relative_path ==> items[i].metadata == items[j].metadata
}

/// Where no path is listed under two descriptions, the catalogue says of
/// each entry's path what the entry says.
pub proof fn lemma_catalog_value(items: Seq<SnapshotItemView>, at: int)
    requires
        one_entry_per_path(items),
        0 <= at < items.len(),
    ensures
        catalog(items).contains_key(items[at].relative_path),
        catalog(items)[items[at].relative_path] == items[at].metadata,
    decreases items.len(),
{
    let last = items.len() - 1;
    if items[last].relative_path == items[at].relative_path {
        assert(items[last].metadata == items[at].metadata);
    } else {
        let rest = items.drop_last();
        assert forall|i: int, j: int|
            0 <= i < rest.len() && 0 <= j < rest.len() && (#[trigger] rest[i]).relative_path == (
            #[trigger] rest[j]).relative_path implies rest[i].metadata == rest[j].metadata by {
            assert(items[i].relative_path == items[j].relative_path);
        }
        lemma_catalog_value(rest, at);
    }
}

/// Two snapshots that hold the same entries say the same of every path, in
/// whatever order the entries stand and however often each is listed, as
/// long as no path is listed under two descriptions: so their diff does not
/// depend on the order in which a walk came upon the entries.
pub proof fn lemma_catalog_order_free(a: Seq<SnapshotItemView>, b: Seq<SnapshotItemView>)
    requires
        one_entry_per_path(a),
        forall|x: SnapshotItemView| a.contains(x) <==> b.contains(x),
    ensures
        catalog(a) == catalog(b),
{
    assert(one_entry_per_path(b)) by {
        assert forall|i: int, j: int|
            0 <= i < b.len() && 0 <= j < b.len() && (#[trigger] b[i]).relative_path == (
            #[trigger] b[j]).relative_path implies b[i].metadata == b[j].metadata by {
            assert(b.contains(b[i]) && b.contains(b[j]));
            assert(a.contains(b[i]) && a.contains(b[j]));
            let x = choose|x: int| 0 <= x < a.len() && a[x] == b[i];
            let y = choose|y: int| 0 <= y < a.len() && a[y] == b[j];
            assert(a[x].relative_path == a[y].relative_path);
        }
    }
    assert forall|p: Seq<char>| catalog(a).contains_key(p) <==> catalog(b).contains_key(p) by {
        lemma_catalog_dom(a, p);
        lemma_catalog_dom(b, p);
        if catalog(a).contains_key(p) {
            let i = choose|i: int| 0 <= i < a.len() && (#[trigger] a[i]).relative_path == p;
            assert(a.contains(a[i]));
            assert(b.contains(a[i]));
            let j = choose|j: int| 0 <= j < b.len() && b[j] == a[i];
            assert(b[j].relative_path == p);
        }
        if catalog(b).contains_key(p) {
            let j = choose|j: int| 0 <= j < b.len() && (#[trigger] b[j]).relative_path == p;
            assert(b.contains(b[j]));
            assert(a.contains(b[j]));
            let i = choose|i: int| 0 <= i < a.len() && a[i] == b[j];
            assert(a[i].relative_path == p);
        }
    }
    assert forall|p: Seq<char>| catalog(a).contains_key(p) implies catalog(a)[p] == catalog(b)[p] by {
        lemma_catalog_dom(a, p);
        let i = choose|i: int| 0 <= i < a.len() && (#[trigger] a[i]).relative_path == p;
        assert(a.contains(a[i]));
        assert(b.contains(a[i]));
        let j = choose|j: int| 0 <= j < b.len() && b[j] == a[i];
        lemma_catalog_value(a, i);
        lemma_catalog_value(b, j);
    }
    assert(catalog(a) =~= catalog(b));
}

/// What a walk leaves out of a snapshot.
#[derive(Debug)]
pub struct SnapshotOptions {
    /// Paths, relative to the root, that are left out with all below them.
    pub ignore_paths: Vec<String>,
    /// Names that are left out wherever they occur as a path component.
    pub ignore_names: Vec<String>,
    /// Extensions, without their dot, of files that are left out.
    pub ignore_exts: Vec<String>,
}

/// A `SnapshotOptions` as a plain value.
pub struct SnapshotOptionsView {
    pub ignore_paths: Seq<Seq<char>>,
    pub ignore_names: Seq<Seq<char>>,
    pub ignore_exts: Seq<Seq<char>>,
}

impl View for SnapshotOptions {
    type V = SnapshotOptionsView;

    open spec fn view(&self) -> SnapshotOptionsView {
        SnapshotOptionsView {
            ignore_paths: path_views(self.ignore_paths@),
            ignore_names: path_views(self.ignore_names@),
            ignore_exts: path_views(self.ignore_exts@),
        }
    }
}

/// Why a set of options is refused.
#[derive(Debug)]
pub enum SnapshotOptionsError {
    /// A path to ignore is rooted.
    AbsolutePath(String),
    /// A name to ignore holds a path separator.
    NameWithSeparator(String),
    /// An extension to ignore holds a dot.
    ExtensionWithDot(String),
}

/// A `SnapshotOptionsError` as a plain value.
pub enum SnapshotOptionsErrorView {
    AbsolutePath(Seq<char>),
    NameWithSeparator(Seq<char>),
    ExtensionWithDot(Seq<char>),
}

impl View for SnapshotOptionsError {
    type V = SnapshotOptionsErrorView;

    open spec fn view(&self) -> SnapshotOptionsErrorView {
        match self {
            SnapshotOptionsError::AbsolutePath(p) => SnapshotOptionsErrorView::AbsolutePath(p@),
            SnapshotOptionsError::NameWithSeparator(n) => SnapshotOptionsErrorView::NameWithSeparator(
                n@,
            ),
            SnapshotOptionsError::ExtensionWithDot(e) => SnapshotOptionsErrorView::ExtensionWithDot(
                e@,
            ),
        }
    }
}

/// The first string of the list that `bad` holds of.
pub open spec fn first_where(list: Seq<Seq<char>>, bad: spec_fn(Seq<char>) -> bool) -> Option<
    Seq<char>,
>
    decreases list.len(),
{
    if list.len() == 0 {
        None
    } else if bad(list[0]) {
        Some(list[0])
    } else {
        first_where(list.drop_first(), bad)
    }
}

/// A path to ignore must be relative.
pub open spec fn rooted() -> spec_fn(Seq<char>) -> bool {
    |p: Seq<char>| is_rooted(p)
}

/// A name to ignore must hold neither `/` nor `\`.
pub open spec fn with_separator() -> spec_fn(Seq<char>) -> bool {
    |n: Seq<char>| n.contains('/') || n.contains('\\')
}

/// An extension to ignore must hold no dot.
pub open spec fn with_dot() -> spec_fn(Seq<char>) -> bool {
    |e: Seq<char>| e.contains('.')
}

/// What is wrong with a set of options, if anything: the first rooted path,
/// else the first name with a separator, else the first extension with a dot.
pub open spec fn options_error(o: SnapshotOptionsView) -> Option<SnapshotOptionsErrorView> {
    if first_where(o.ignore_paths, rooted()) is Some {
        Some(SnapshotOptionsErrorView::AbsolutePath(first_where(o.ignore_paths, rooted()).unwrap()))
    } else if first_where(o.ignore_names, with_separator()) is Some {
        Some(
            SnapshotOptionsErrorView::NameWithSeparator(
                first_where(o.ignore_names, with_separator()).unwrap(),
            ),
        )
    } else if first_where(o.ignore_exts, with_dot()) is Some {
        Some(
            SnapshotOptionsErrorView::ExtensionWithDot(
                first_where(o.ignore_exts, with_dot()).unwrap(),
            ),
        )
    } else {
        None
    }
}

fn starts_with_slash(s: &str) -> (rooted: bool)
    ensures
        rooted == is_rooted(s@),
{
    let mut chars = s.chars();
    match chars.next() {
        Some(c) => c == '/',
        None => false,
    }
}

fn first_rooted(list: &Vec<String>) -> (found: Option<usize>)
    ensures
        match found {
            Some(at) => at < list@.len() && first_where(path_views(list@), rooted()) == Some(
                list@[at as int]@,
            ),
            None => first_where(path_views(list@), rooted()) is None,
        },
{
    let ghost all = path_views(list@);
    let mut i: usize = 0;
    assert(all.skip(0) =~= all);
    while i < list.len()
        invariant
            i <= list.len(),
            all == path_views(list@),
            first_where(all, rooted()) == first_where(all.skip(i as int), rooted()),
        decreases list.len() - i,
    {
        assert(all.skip(i as int)[0] == list@[i as int]@);
        if starts_with_slash(list[i].as_str()) {
            return Some(i);
        }
        assert(all.skip(i as int).drop_first() =~= all.skip(i + 1));
        i += 1;
    }
    assert(all.skip(i as int).len() == 0);
    None
}

fn first_with_separator(list: &Vec<String>) -> (found: Option<usize>)
    ensures
        match found {
            Some(at) => at < list@.len() && first_where(path_views(list@), with_separator())
                == Some(list@[at as int]@),
            None => first_where(path_views(list@), with_separator()) is None,
        },
{
    let ghost all = path_views(list@);
    let mut i: usize = 0;
    assert(all.skip(0) =~= all);
    while i < list.len()
        invariant
            i <= list.len(),
            all == path_views(list@),
            first_where(all, with_separator()) == first_where(all.skip(i as int), with_separator()),
        decreases list.len() - i,
    {
        assert(all.skip(i as int)[0] == list@[i as int]@);
        if contains_char(list[i].as_str(), '/') || contains_char(list[i].as_str(), '\\') {
            return Some(i);
        }
        assert(all.skip(i as int).drop_first() =~= all.skip(i + 1));
        i += 1;
    }
    assert(all.skip(i as int).len() == 0);
    None
}

fn first_with_dot(list: &Vec<String>) -> (found: Option<usize>)
    ensures
        match found {
            Some(at) => at < list@.len() && first_where(path_views(list@), with_dot()) == Some(
                list@[at as int]@,
            ),
            None => first_where(path_views(list@), with_dot()) is None,
        },
{
    let ghost all = path_views(list@);
    let mut i: usize = 0;
    assert(all.skip(0) =~= all);
    while i < list.len()
        invariant
            i <= list.len(),
            all == path_views(list@),
            first_where(all, with_dot()) == first_where(all.skip(i as int), with_dot()),
        decreases list.len() - i,
    {
        assert(all.skip(i as int)[0] == list@[i as int]@);
        if contains_char(list[i].as_str(), '.') {
            return Some(i);
        }
        assert(all.skip(i as int).drop_first() =~= all.skip(i + 1));
        i += 1;
    }
    assert(all.skip(i as int).len() == 0);
    None
}

impl SnapshotOptions {
    /// Checks the options: paths must be relative, names must hold no path
    /// separator, extensions no dot. The first offender is reported.
    pub fn validate(&self) -> (checked: Result<(), SnapshotOptionsError>)
        ensures
            match options_error(self@) {
                Some(e) => checked matches Err(err) && err@ == e,
                None => checked is Ok,
            },
    {
        if let Some(at) = first_rooted(&self.ignore_paths) {
            return Err(SnapshotOptionsError::AbsolutePath(self.ignore_paths[at].clone()));
        }
        if let Some(at) = first_with_separator(&self.ignore_names) {
            return Err(SnapshotOptionsError::NameWithSeparator(self.ignore_names[at].clone()));
        }
        if let Some(at) = first_with_dot(&self.ignore_exts) {
            return Err(SnapshotOptionsError::ExtensionWithDot(self.ignore_exts[at].clone()));
        }
        Ok(())
    }
}

/// Selects the pieces of a path that are components: those that are not empty.
pub open spec fn nonempty() -> spec_fn(Seq<char>) -> bool {
    |c: Seq<char>| c.len() > 0
}

/// The components of a path: what stands between its `/`, empty pieces left out.
pub open spec fn components(path: Seq<char>) -> Seq<Seq<char>> {
    split(path, '/').filter(nonempty())
}

/// The extension of a file name: what follows its last dot, unless the name
/// has none, starts with its only dot, or is `..`.
pub open spec fn file_extension(name: Seq<char>) -> Option<Seq<char>> {
    if name == dot_dot() {
        None
    } else {
        match name.index_of_last('.') {
            Some(at) => if at > 0 {
                Some(name.skip(at + 1))
            } else {
                None
            },
            None => None,
        }
    }
}

/// The extension of the last component of a path.
pub open spec fn extension_of(path: Seq<char>) -> Option<Seq<char>> {
    if components(path).len() == 0 {
        None
    } else {
        file_extension(components(path).last())
    }
}

/// The path lies at or below one of the paths to ignore.
pub open spec fn under_ignored_path(o: SnapshotOptionsView, path: Seq<char>) -> bool {
    exists|i: int|
        0 <= i < o.ignore_paths.len() && components(#[trigger] o.ignore_paths[i]).is_prefix_of(
            components(path),
        )
}

/// One of the path's components is a name to ignore.
pub open spec fn has_ignored_name(o: SnapshotOptionsView, path: Seq<char>) -> bool {
    exists|i: int|
        0 <= i < o.ignore_names.len() && components(path).contains(#[trigger] o.ignore_names[i])
}

/// The path has an extension, and it is one to ignore.
pub open spec fn has_ignored_ext(o: SnapshotOptionsView, path: Seq<char>) -> bool {
    extension_of(path) is Some && o.ignore_exts.contains(extension_of(path).unwrap())
}

/// Whether an entry is left out of a snapshot: it lies under a path to
/// ignore, one of its components is a name to ignore, or it is a file with
/// an extension to ignore.
pub open spec fn ignores(o: SnapshotOptionsView, path: Seq<char>, is_file: bool) -> bool {
    under_ignored_path(o, path) || has_ignored_name(o, path) || (is_file && has_ignored_ext(
        o,
        path,
    ))
}

/// The components of a path.
pub fn path_components(path: &str) -> (parts: Vec<Vec<char>>)
    ensures
        rows(parts@) == components(path@),
{
    let pieces = split_chars(path, '/');
    let ghost all = rows(pieces@);
    let mut parts: Vec<Vec<char>> = Vec::new();
    proof {
        assert(all.take(0) =~= Seq::empty());
        assert(Seq::<Seq<char>>::empty().filter(nonempty()) =~= Seq::empty()) by {
            reveal(Seq::filter);
        }
        assert(rows(parts@) =~= Seq::empty());
    }
    for piece in it: pieces
        invariant
            it.seq() == pieces@,
            all == rows(pieces@),
            rows(parts@) == all.take(it.index() as int).filter(nonempty()),
    {
        let ghost k = it.index() as int;
        let ghost before = rows(parts@);
        proof {
            assert(all[k] == piece@);
            assert(all.take(k + 1) =~= all.take(k).push(piece@));
            all.take(k).lemma_filter_push(piece@, nonempty());
        }
        if piece.len() > 0 {
            parts.push(piece);
            assert(rows(parts@) =~= before.push(all[k]));
        }
    }
    assert(all.take(all.len() as int) =~= all);
    parts
}

/// Whether `path` begins with the components of `prefix`.
fn starts_with_components(path: &Vec<Vec<char>>, prefix: &Vec<Vec<char>>) -> (starts: bool)
    ensures
        starts == rows(prefix@).is_prefix_of(rows(path@)),
{
    if prefix.len() > path.len() {
        return false;
    }
    let mut i: usize = 0;
    while i < prefix.len()
        invariant
            i <= prefix.len(),
            prefix.len() <= path.len(),
            forall|k: int| 0 <= k < i ==> rows(prefix@)[k] == rows(path@)[k],
        decreases prefix.len() - i,
    {
        if !same_chars(&prefix[i], &path[i]) {
            assert(rows(prefix@)[i as int] != rows(path@).subrange(0, prefix@.len() as int)[i as int]);
            return false;
        }
        i += 1;
    }
    assert(rows(prefix@) =~= rows(path@).subrange(0, prefix@.len() as int));
    true
}

/// The extension of a file name.
fn extension_chars(name: &Vec<char>) -> (ext: Option<Vec<char>>)
    ensures
        match ext {
            Some(e) => file_extension(name@) == Some(e@),
            None => file_extension(name@) is None,
        },
{
    proof {
        name@.index_of_last_ensures('.');
    }
    if name.len() == 2 && name[0] == '.' && name[1] == '.' {
        assert(name@ =~= dot_dot());
        return None;
    }
    assert(name@ != dot_dot()) by {
        if name@ == dot_dot() {
            assert(dot_dot().len() == 2 && dot_dot()[0] == '.' && dot_dot()[1] == '.');
        }
    }
    let mut k: usize = name.len();
    while k > 0 && name[k - 1] != '.'
        invariant
            k <= name.len(),
            forall|j: int| k <= j < name.len() ==> name@[j] != '.',
        decreases k,
    {
        k -= 1;
    }
    if k == 0 {
        proof {
            if name@.contains('.') {
                let j = choose|j: int| 0 <= j < name@.len() && name@[j] == '.';
                assert(name@[j] != '.');
            }
        }
        return None;
    }
    proof {
        assert(name@[k - 1] == '.');
        assert(name@.contains('.'));
        let at = name@.index_of_last('.').unwrap();
        if at < k - 1 {
            assert(name@[k - 1] != '.');
        }
        if at > k - 1 {
            assert(name@[at] != '.');
        }
        assert(at == k - 1);
    }
    if k == 1 {
        return None;
    }
    let mut ext: Vec<char> = Vec::new();
    let mut j: usize = k;
    while j < name.len()
        invariant
            k <= j <= name.len(),
            ext@ == name@.subrange(k as int, j as int),
        decreases name.len() - j,
    {
        ext.push(name[j]);
        assert(name@.subrange(k as int, j + 1) =~= name@.subrange(k as int, j as int).push(
            name@[j as int],
        ));
        j += 1;
    }
    assert(name@.subrange(k as int, name@.len() as int) =~= name@.skip(k as int));
    Some(ext)
}

impl SnapshotOptions {
    fn is_under_ignored_path(&self, parts: &Vec<Vec<char>>, Ghost(path): Ghost<Seq<char>>) -> (under:
        bool)
        requires
            rows(parts@) == components(path),
        ensures
            under == under_ignored_path(self@, path),
    {
        let mut i: usize = 0;
        while i < self.ignore_paths.len()
            invariant
                i <= self.ignore_paths.len(),
                rows(parts@) == components(path),
                forall|k: int|
                    0 <= k < i ==> !components(#[trigger] self@.ignore_paths[k]).is_prefix_of(
                        components(path),
                    ),
            decreases self.ignore_paths.len() - i,
        {
            let prefix = path_components(self.ignore_paths[i].as_str());
            assert(self@.ignore_paths[i as int] == self.ignore_paths@[i as int]@);
            if starts_with_components(parts, &prefix) {
                return true;
            }
            i += 1;
        }
        false
    }

    fn is_ignored_name(&self, parts: &Vec<Vec<char>>, Ghost(path): Ghost<Seq<char>>) -> (named: bool)
        requires
            rows(parts@) == components(path),
        ensures
            named == has_ignored_name(self@, path),
    {
        let mut i: usize = 0;
        while i < self.ignore_names.len()
            invariant
                i <= self.ignore_names.len(),
                rows(parts@) == components(path),
                forall|k: int|
                    0 <= k < i ==> !components(path).contains(#[trigger] self@.ignore_names[k]),
            decreases self.ignore_names.len() - i,
        {
            let name = chars_of(self.ignore_names[i].as_str());
            assert(self@.ignore_names[i as int] == self.ignore_names@[i as int]@);
            if has_row(parts, &name) {
                return true;
            }
            i += 1;
        }
        false
    }

    fn is_ignored_ext(&self, parts: &Vec<Vec<char>>, Ghost(path): Ghost<Seq<char>>) -> (ignored:
        bool)
        requires
            rows(parts@) == components(path),
        ensures
            ignored == has_ignored_ext(self@, path),
    {
        if parts.len() == 0 {
            return false;
        }
        assert(rows(parts@).last() == parts@[parts@.len() - 1]@);
        let ext = match extension_chars(&parts[parts.len() - 1]) {
            Some(e) => e,
            None => {
                return false;
            },
        };
        let mut i: usize = 0;
        while i < self.ignore_exts.len()
            invariant
                i <= self.ignore_exts.len(),
                extension_of(path) == Some(ext@),
                forall|k: int| 0 <= k < i ==> self@.ignore_exts[k] != ext@,
            decreases self.ignore_exts.len() - i,
        {
            let candidate = chars_of(self.ignore_exts[i].as_str());
            assert(self@.ignore_exts[i as int] == self.ignore_exts@[i as int]@);
            if same_chars(&candidate, &ext) {
                assert(self@.ignore_exts[i as int] == ext@);
                return true;
            }
            i += 1;
        }
        false
    }

    /// Whether an entry is left out of the snapshot. `relative_path` is the
    /// entry's path below the root of the walk; `is_file` says whether the
    /// entry is a regular file.
    pub fn should_ignore(&self, relative_path: &str, is_file: bool) -> (ignore: bool)
        ensures
            ignore == ignores(self@, relative_path@, is_file),
    {
        let parts = path_components(relative_path);
        if self.is_under_ignored_path(&parts, Ghost(relative_path@)) {
            return true;
        }
        if self.is_ignored_name(&parts, Ghost(relative_path@)) {
            return true;
        }
        is_file && self.is_ignored_ext(&parts, Ghost(relative_path@))
    }
}

/// What the filesystem says an entry is.
#[derive(Clone, Copy, Debug, PartialEq, Eq, Structural)]
pub enum EntryKind {
    Symlink,
    Directory,
    File,
    Other,
}

/// What a walk found of one entry. The path is relative to the root of the
/// walk and absent where it is not UTF-8; the time of modification, in
/// seconds and nanoseconds since the Unix epoch, is absent where it could
/// not be had.
#[derive(Debug)]
pub struct WalkEntry {
    pub relative_path: Option<String>,
    pub kind: EntryKind,
    pub size: u64,
    pub modified: Option<(u64, u32)>,
}

/// A `WalkEntry` as a plain value.
pub struct WalkEntryView {
    pub relative_path: Option<Seq<char>>,
    pub kind: EntryKind,
    pub size: u64,
    pub modified: Option<(u64, u32)>,
}

impl View for WalkEntry {
    type V = WalkEntryView;

    open spec fn view(&self) -> WalkEntryView {
        WalkEntryView {
            relative_path: match self.relative_path {
                Some(p) => Some(p@),
                None => None,
            },
            kind: self.kind,
            size: self.size,
            modified: self.modified,
        }
    }
}

/// The entries of a vector as plain values.
pub open spec fn entry_views(entries: Seq<WalkEntry>) -> Seq<WalkEntryView> {
    entries.map_values(|e: WalkEntry| e@)
}

/// Why a snapshot cannot be made.
#[derive(Debug)]
pub enum SnapshotError {
    /// The options are refused.
    InvalidOptions(SnapshotOptionsError),
    /// An entry is a symbolic link.
    SymlinkUnsupported,
    /// An entry is neither a file nor a directory.
    UnknownItemType,
    /// A file's time of modification could not be had.
    NoModificationTime,
    /// An entry's path is not UTF-8.
    InvalidUtf8,
    /// An entry's path is not one below the root of the walk: it is empty
    /// or rooted, or has a `.` or `..` component.
    UnsafePath(String),
}

/// A `SnapshotError` as a plain value.
pub enum SnapshotErrorView {
    InvalidOptions(SnapshotOptionsErrorView),
    SymlinkUnsupported,
    UnknownItemType,
    NoModificationTime,
    InvalidUtf8,
    UnsafePath(Seq<char>),
}

impl View for SnapshotError {
    type V = SnapshotErrorView;

    open spec fn view(&self) -> SnapshotErrorView {
        match self {
            SnapshotError::InvalidOptions(e) => SnapshotErrorView::InvalidOptions(e@),
            SnapshotError::SymlinkUnsupported => SnapshotErrorView::SymlinkUnsupported,
            SnapshotError::UnknownItemType => SnapshotErrorView::UnknownItemType,
            SnapshotError::NoModificationTime => SnapshotErrorView::NoModificationTime,
            SnapshotError::InvalidUtf8 => SnapshotErrorView::InvalidUtf8,
            SnapshotError::UnsafePath(p) => SnapshotErrorView::UnsafePath(p@),
        }
    }
}

/// The snapshot entry of what a walk found: a directory, or a file with its
/// size and time of modification. Symbolic links and entries of other kinds
/// are refused, as is a file without a time of modification, an entry whose
/// path is not UTF-8, and an entry whose path is not a plain relative one
/// below the root: the root itself, a rooted path, a path with `.` or `..`.
pub open spec fn item_of(e: WalkEntryView) -> Result<SnapshotItemView, SnapshotErrorView> {
    match e.kind {
        EntryKind::Symlink => Err(SnapshotErrorView::SymlinkUnsupported),
        EntryKind::Other => Err(SnapshotErrorView::UnknownItemType),
        EntryKind::File if e.modified is None => Err(SnapshotErrorView::NoModificationTime),
        _ => match e.relative_path {
            None => Err(SnapshotErrorView::InvalidUtf8),
            Some(relative_path) if !is_safe_relative(relative_path) => Err(
                SnapshotErrorView::UnsafePath(relative_path),
            ),
            Some(relative_path) => Ok(
                SnapshotItemView {
                    relative_path,
                    metadata: match e.kind {
                        EntryKind::File => SnapshotItemMetadata::File(
                            SnapshotFileMetadata {
                                size: e.size,
                                last_modif_date_s: e.modified.unwrap().0,
                                last_modif_date_ns: e.modified.unwrap().1,
                            },
                        ),
                        _ => SnapshotItemMetadata::Directory,
                    },
                },
            ),
        },
    }
}

/// Makes the snapshot entry of what a walk found. The path of an entry that
/// is made is a plain relative one: not empty, not rooted, without `.` or `..`.
pub fn snapshot_item(entry: WalkEntry) -> (made: Result<SnapshotItem, SnapshotError>)
    ensures
        match item_of(entry@) {
            Ok(item) => made matches Ok(i) && i@ == item,
            Err(e) => made matches Err(err) && err@ == e,
        },
        made matches Ok(i) ==> is_safe_relative(i@.relative_path) && (i@.metadata is File
            <==> entry.kind is File),
{
    let metadata = match entry.kind {
        EntryKind::Symlink => {
            return Err(SnapshotError::SymlinkUnsupported);
        },
        EntryKind::Directory => SnapshotItemMetadata::Directory,
        EntryKind::File => match entry.modified {
            Some(mtime) => SnapshotItemMetadata::File(
                SnapshotFileMetadata {
                    size: entry.size,
                    last_modif_date_s: mtime.0,
                    last_modif_date_ns: mtime.1,
                },
            ),
            None => {
                return Err(SnapshotError::NoModificationTime);
            },
        },
        EntryKind::Other => {
            return Err(SnapshotError::UnknownItemType);
        },
    };
    match entry.relative_path {
        Some(relative_path) => {
            if is_safe_relative_path(relative_path.as_str()) {
                Ok(SnapshotItem { relative_path, metadata })
            } else {
                Err(SnapshotError::UnsafePath(relative_path))
            }
        },
        None => Err(SnapshotError::InvalidUtf8),
    }
}

/// Every entry has a plain relative path, and none is one that the options
/// leave out.
pub open spec fn well_kept(o: SnapshotOptionsView, items: Seq<SnapshotItemView>) -> bool {
    forall|k: int|
        0 <= k < items.len() ==> is_safe_relative((#[trigger] items[k]).relative_path) && !ignores(
            o,
            items[k].relative_path,
            items[k].metadata is File,
        )
}

/// What is recorded of an entry has a plain relative path and is not left
/// out by the options.
pub proof fn lemma_recorded_is_well_kept(o: SnapshotOptionsView, e: WalkEntryView)
    ensures
        visit_of(o, e) matches Ok(Some(item)) ==> is_safe_relative(item.relative_path) && !ignores(
            o,
            item.relative_path,
            item.metadata is File,
        ),
{
}

/// What becomes of an entry that a walk found: it is left out (`Ok(None)`),
/// it is recorded, or it fails the snapshot. The filter comes first: an
/// entry that is left out is not looked at further.
pub open spec fn visit_of(o: SnapshotOptionsView, e: WalkEntryView) -> Result<
    Option<SnapshotItemView>,
    SnapshotErrorView,
> {
    match e.relative_path {
        None => Err(SnapshotErrorView::InvalidUtf8),
        Some(p) => if ignores(o, p, e.kind is File) {
            Ok(None)
        } else {
            match item_of(e) {
                Ok(item) => Ok(Some(item)),
                Err(err) => Err(err),
            }
        },
    }
}

/// What a visit did with an entry.
#[derive(Clone, Copy, Debug, PartialEq, Eq, Structural)]
pub enum Visit {
    /// The entry was recorded; this many are recorded now.
    Recorded(usize),
    /// The entry was left out.
    Skipped,
    /// The entry is a directory and was left out: the walk need not go into it.
    SkippedSubtree,
}

/// A snapshot in the making: entries are handed in one by one as a walk
/// finds them.
#[derive(Debug)]
pub struct SnapshotBuilder {
    options: SnapshotOptions,
    items: Vec<SnapshotItem>,
}

/// A `SnapshotBuilder` as a plain value.
pub struct SnapshotBuilderView {
    pub options: SnapshotOptionsView,
    pub items: Seq<SnapshotItemView>,
}

impl View for SnapshotBuilder {
    type V = SnapshotBuilderView;

    closed spec fn view(&self) -> SnapshotBuilderView {
        SnapshotBuilderView { options: self.options@, items: item_views(self.items@) }
    }
}

/// What `make_snapshot` returns.
#[derive(Debug)]
pub struct SnapshotResult {
    pub snapshot: Snapshot,
}

impl SnapshotBuilder {
    #[verifier::type_invariant]
    closed spec fn inv(&self) -> bool {
        well_kept(self@.options, self@.items)
    }

    /// Starts a snapshot under the given options, if they are in order.
    pub fn new(options: SnapshotOptions) -> (made: Result<Self, SnapshotError>)
        ensures
            match options_error(options@) {
                Some(e) => made matches Err(err) && err@ == SnapshotErrorView::InvalidOptions(e),
                None => made matches Ok(b) && b@ == (SnapshotBuilderView {
                    options: options@,
                    items: Seq::empty(),
                }),
            },
    {
        match options.validate() {
            Err(e) => Err(SnapshotError::InvalidOptions(e)),
            Ok(()) => {
                let builder = SnapshotBuilder { options, items: Vec::new() };
                assert(builder@.items =~= Seq::empty());
                Ok(builder)
            },
        }
    }

    /// Takes one entry of the walk. The entry is left out if the options say
    /// so, and recorded otherwise; an entry that cannot be recorded fails
    /// the snapshot and leaves the builder as it was.
    pub fn visit(&mut self, entry: WalkEntry) -> (done: Result<Visit, SnapshotError>)
        ensures
            final(self)@.options == old(self)@.options,
            match visit_of(old(self)@.options, entry@) {
                Err(e) => final(self)@ == old(self)@ && (done matches Err(err) && err@ == e),
                Ok(None) => final(self)@ == old(self)@ && done == Ok::<Visit, SnapshotError>(
                    if entry.kind is Directory {
                        Visit::SkippedSubtree
                    } else {
                        Visit::Skipped
                    },
                ),
                Ok(Some(item)) => final(self)@.items == old(self)@.items.push(item) && done == Ok::<
                    Visit,
                    SnapshotError,
                >(Visit::Recorded(final(self)@.items.len() as usize)),
            },
    {
        let ignored = match &entry.relative_path {
            None => {
                return Err(SnapshotError::InvalidUtf8);
            },
            Some(p) => self.options.should_ignore(
                p.as_str(),
                match entry.kind {
                    EntryKind::File => true,
                    _ => false,
                },
            ),
        };
        if ignored {
            return Ok(
                match entry.kind {
                    EntryKind::Directory => Visit::SkippedSubtree,
                    _ => Visit::Skipped,
                },
            );
        }
        let ghost before = self@.items;
        proof {
            use_type_invariant(&*self);
            lemma_recorded_is_well_kept(self@.options, entry@);
        }
        match snapshot_item(entry) {
            Err(e) => Err(e),
            Ok(item) => {
                let ghost added = item@;
                proof {
                    assert forall|k: int| 0 <= k < before.push(added).len() implies is_safe_relative(
                        (#[trigger] before.push(added)[k]).relative_path,
                    ) && !ignores(
                        self@.options,
                        before.push(added)[k].relative_path,
                        before.push(added)[k].metadata is File,
                    ) by {
                        if k < before.len() {
                            assert(before.push(added)[k] == before[k]);
                        }
                    }
                }
                let mut items: Vec<SnapshotItem> = Vec::new();
                assert(item_views(items@) =~= Seq::empty());
                core::mem::swap(&mut self.items, &mut items);
                items.push(item);
                assert(item_views(items@) =~= before.push(added));
                let count = items.len();
                self.items = items;
                Ok(Visit::Recorded(count))
            },
        }
    }

    /// The snapshot of what was recorded, in the order of the visits. Every
    /// entry of it has a plain relative path, and none is one that the
    /// options leave out.
    pub fn finish(self, from_dir: String) -> (result: SnapshotResult)
        ensures
            result.snapshot.from_dir@ == from_dir@,
            item_views(result.snapshot.items@) == self@.items,
            well_kept(self@.options, self@.items),
    {
        proof {
            use_type_invariant(&self);
        }
        SnapshotResult { snapshot: Snapshot { from_dir, items: self.items } }
    }
}

/// Selects the entries that are recorded, each as its snapshot entry.
pub open spec fn recorded(o: SnapshotOptionsView) -> spec_fn(WalkEntryView) -> Option<
    SnapshotItemView,
> {
    |e: WalkEntryView|
        match visit_of(o, e) {
            Ok(Some(item)) => Some(item),
            _ => None,
        }
}

/// The failure of the first entry that fails the snapshot.
pub open spec fn first_failure(o: SnapshotOptionsView, entries: Seq<WalkEntryView>) -> Option<
    SnapshotErrorView,
>
    decreases entries.len(),
{
    if entries.len() == 0 {
        None
    } else {
        match visit_of(o, entries[0]) {
            Err(e) => Some(e),
            Ok(_) => first_failure(o, entries.drop_first()),
        }
    }
}

/// Makes the snapshot of a tree from what a walk found below `from_dir`.
/// The options are checked first. Then each entry is taken in turn: it is
/// left out if the options say so, and recorded otherwise; the first entry
/// that cannot be recorded fails the snapshot. Every path of the snapshot is
/// a plain relative one, and none is one that the options leave out.
pub fn make_snapshot(from_dir: String, entries: Vec<WalkEntry>, options: SnapshotOptions) -> (made:
    Result<SnapshotResult, SnapshotError>)
    ensures
        match options_error(options@) {
            Some(e) => made matches Err(err) && err@ == SnapshotErrorView::InvalidOptions(e),
            None => match first_failure(options@, entry_views(entries@)) {
                Some(e) => made matches Err(err) && err@ == e,
                None => {
                    &&& made matches Ok(result)
                    &&& result.snapshot.from_dir@ == from_dir@
                    &&& item_views(result.snapshot.items@) == entry_views(entries@).filter_map(
                        recorded(options@),
                    )
                    &&& well_kept(options@, item_views(result.snapshot.items@))
                },
            },
        },
{
    broadcast use vstd::seq::Seq::lemma_filter_map_take_succ;

    let ghost o = options@;
    let ghost all = entry_views(entries@);
    let mut builder = match SnapshotBuilder::new(options) {
        Ok(b) => b,
        Err(e) => {
            return Err(e);
        },
    };
    proof {
        assert(all.skip(0) =~= all);
        assert(all.take(0) =~= Seq::empty());
    }
    for entry in it: entries
        invariant
            it.seq() == entries@,
            all == entry_views(entries@),
            o == options@,
            options_error(o) is None,
            builder@.options == o,
            builder@.items == all.take(it.index() as int).filter_map(recorded(o)),
            first_failure(o, all) == first_failure(o, all.skip(it.index() as int)),
    {
        let ghost k = it.index() as int;
        proof {
            assert(all[k] == entry@);
            assert(all.skip(k)[0] == entry@);
            assert(all.skip(k).drop_first() =~= all.skip(k + 1));
            all.lemma_filter_map_take_succ(recorded(o), k);
        }
        let ghost before = builder@.items;
        match builder.visit(entry) {
            Err(e) => {
                return Err(e);
            },
            Ok(_) => {
                assert(builder@.items =~= before + match recorded(o)(all[k]) {
                    Some(i) => seq![i],
                    None => Seq::empty(),
                });
            },
        }
    }
    proof {
        assert(all.take(all.len() as int) =~= all);
        assert(all.skip(all.len() as int).len() == 0);
    }
    Ok(builder.finish(from_dir))
}

/// What lies below a directory that is left out is left out as well, so a
/// walk loses nothing by not going into it.
pub proof fn lemma_ignored_subtree(
    o: SnapshotOptionsView,
    dir: Seq<char>,
    below: Seq<char>,
    is_file: bool,
)
    requires
        ignores(o, dir, false),
        components(dir).is_prefix_of(components(below)),
    ensures
        ignores(o, below, is_file),
{
    let d = components(dir);
    let b = components(below);
    if under_ignored_path(o, dir) {
        let i = choose|i: int|
            0 <= i < o.ignore_paths.len() && components(#[trigger] o.ignore_paths[i]).is_prefix_of(d);
        let p = components(o.ignore_paths[i]);
        assert(p =~= b.subrange(0, p.len() as int));
        assert(components(o.ignore_paths[i]).is_prefix_of(b));
    } else {
        let i = choose|i: int| 0 <= i < o.ignore_names.len() && d.contains(#[trigger] o.ignore_names[i]);
        let j = choose|j: int| 0 <= j < d.len() && d[j] == o.ignore_names[i];
        assert(b[j] == o.ignore_names[i]);
        assert(b.contains(o.ignore_names[i]));
    }
}

/// Nothing that is recorded lies at or below a directory that the options
/// leave out.
pub proof fn lemma_nothing_kept_below_ignored(
    o: SnapshotOptionsView,
    items: Seq<SnapshotItemView>,
    at: int,
    dir: Seq<char>,
)
    requires
        well_kept(o, items),
        0 <= at < items.len(),
        components(dir).is_prefix_of(components(items[at].relative_path)),
    ensures
        !ignores(o, dir, false),
{
    if ignores(o, dir, false) {
        lemma_ignored_subtree(o, dir, items[at].relative_path, items[at].metadata is File);
    }
}

/// `filter_map` of two lists, one behind the other, is that of each, one
/// behind the other.
pub proof fn lemma_filter_map_concat<A, B>(s: Seq<A>, t: Seq<A>, f: spec_fn(A) -> Option<B>)
    ensures
        (s + t).filter_map(f) == s.filter_map(f) + t.filter_map(f),
    decreases t.len(),
{
    if t.len() == 0 {
        assert(s + t =~= s);
        assert(s.filter_map(f) + t.filter_map(f) =~= s.filter_map(f));
    } else {
        assert((s + t).drop_last() =~= s + t.drop_last());
        lemma_filter_map_concat(s, t.drop_last(), f);
        assert((s + t).filter_map(f) =~= s.filter_map(f) + t.filter_map(f));
    }
}

/// What `filter_map` keeps of a list does not depend, as a multiset, on the
/// order of the list.
pub proof fn lemma_filter_map_permutation<A, B>(a: Seq<A>, b: Seq<A>, f: spec_fn(A) -> Option<B>)
    requires
        a.to_multiset() == b.to_multiset(),
    ensures
        a.filter_map(f).to_multiset() == b.filter_map(f).to_multiset(),
    decreases a.len(),
{
    broadcast use vstd::seq_lib::group_to_multiset_ensures;

    a.to_multiset_ensures();
    b.to_multiset_ensures();
    if a.len() == 0 {
        assert(b.len() == 0);
        assert(a =~= b);
    } else {
        let x = a.last();
        let a0 = a.drop_last();
        assert(a =~= a0.push(x));
        assert(a.to_multiset().count(x) > 0);
        assert(b.contains(x));
        let j = choose|j: int| 0 <= j < b.len() && b[j] == x;
        let b0 = b.remove(j);
        assert(a0.to_multiset() =~= a.to_multiset().remove(x));
        assert(b0.to_multiset() =~= b.to_multiset().remove(x));
        lemma_filter_map_permutation(a0, b0, f);
        let head = b.take(j);
        let tail = b.skip(j + 1);
        let one = seq![x];
        assert(b =~= head + one + tail);
        assert(b0 =~= head + tail);
        lemma_filter_map_concat(head + one, tail, f);
        lemma_filter_map_concat(head, one, f);
        lemma_filter_map_concat(head, tail, f);
        lemma_filter_map_concat(a0, one, f);
        let fh = head.filter_map(f);
        let fo = one.filter_map(f);
        let ft = tail.filter_map(f);
        lemma_multiset_commutative(fh + fo, ft);
        lemma_multiset_commutative(fh, fo);
        lemma_multiset_commutative(fh, ft);
        lemma_multiset_commutative(a0.filter_map(f), fo);
        assert(a =~= a0 + one);
        assert(a.filter_map(f) == a0.filter_map(f) + fo);
        assert(b.filter_map(f) == fh + fo + ft);
        assert(b0.filter_map(f) == fh + ft);
        assert(a.filter_map(f).to_multiset() =~= a0.filter_map(f).to_multiset().add(
            fo.to_multiset(),
        ));
        assert(b.filter_map(f).to_multiset() =~= fh.to_multiset().add(fo.to_multiset()).add(
            ft.to_multiset(),
        ));
        assert(b0.filter_map(f).to_multiset() =~= fh.to_multiset().add(ft.to_multiset()));
        assert(a.filter_map(f).to_multiset() =~= b.filter_map(f).to_multiset());
    }
}

/// A snapshot holds the same entries, in whatever order a walk comes upon
/// the tree: two walks that find the same entries record the same items,
/// each as often.
pub proof fn lemma_snapshot_independent_of_walk_order(
    o: SnapshotOptionsView,
    first: Seq<WalkEntryView>,
    second: Seq<WalkEntryView>,
)
    requires
        first.to_multiset() == second.to_multiset(),
    ensures
        first.filter_map(recorded(o)).to_multiset() == second.filter_map(recorded(o)).to_multiset(),
{
    lemma_filter_map_permutation(first, second, recorded(o));
}

/// Takes a leading `/` off the items that have one, and leaves the others out.
pub open spec fn anchored() -> spec_fn(Seq<char>) -> Option<Seq<char>> {
    |item: Seq<char>|
        if is_rooted(item) {
            Some(item.skip(1))
        } else {
            None
        }
}

/// Selects the items that have no leading `/`.
pub open spec fn unanchored() -> spec_fn(Seq<char>) -> bool {
    |item: Seq<char>| !is_rooted(item)
}

impl SnapshotOptions {
    /// The options that a list of items and a list of extensions stand for.
    /// An item with a leading `/` is a path to ignore, counted from the root
    /// of the walk; any other item is a name to ignore.
    pub fn from_ignore_items(ignore_items: Vec<String>, ignore_exts: Vec<String>) -> (options: Self)
        ensures
            options@.ignore_paths == path_views(ignore_items@).filter_map(anchored()),
            options@.ignore_names == path_views(ignore_items@).filter(unanchored()),
            options@.ignore_exts == path_views(ignore_exts@),
    {
        broadcast use vstd::seq::Seq::lemma_filter_map_take_succ;

        let ghost all = path_views(ignore_items@);
        let mut ignore_paths: Vec<String> = Vec::new();
        let mut ignore_names: Vec<String> = Vec::new();
        proof {
            assert(all.take(0) =~= Seq::empty());
            assert(Seq::<Seq<char>>::empty().filter(unanchored()) =~= Seq::empty()) by {
                reveal(Seq::filter);
            }
            assert(path_views(ignore_paths@) =~= Seq::empty());
            assert(path_views(ignore_names@) =~= Seq::empty());
        }
        for item in it: ignore_items
            invariant
                it.seq() == ignore_items@,
                all == path_views(ignore_items@),
                path_views(ignore_paths@) == all.take(it.index() as int).filter_map(anchored()),
                path_views(ignore_names@) == all.take(it.index() as int).filter(unanchored()),
        {
            let ghost k = it.index() as int;
            let ghost paths0 = path_views(ignore_paths@);
            let ghost names0 = path_views(ignore_names@);
            proof {
                assert(all[k] == item@);
                assert(all.take(k + 1) =~= all.take(k).push(item@));
                all.take(k).lemma_filter_push(item@, unanchored());
                all.lemma_filter_map_take_succ(anchored(), k);
            }
            if starts_with_slash(item.as_str()) {
                let rest = item.as_str().substring_char(1, item.as_str().unicode_len());
                assert(rest@ =~= item@.skip(1));
                ignore_paths.push(String::from_str(rest));
                assert(path_views(ignore_paths@) =~= paths0 + seq![item@.skip(1)]);
            } else {
                ignore_names.push(item);
                assert(path_views(ignore_names@) =~= names0.push(all[k]));
            }
        }
        assert(all.take(all.len() as int) =~= all);
        SnapshotOptions { ignore_paths, ignore_names, ignore_exts }
    }
}

} // verus!
