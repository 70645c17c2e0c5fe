//! What becomes of a tree when a plan is carried out on it: the files and
//! directories that the plan deletes go, the files that it sends and the
//! directories that it creates come. The plan of the diff between two trees
//! turns the one into the other.

use crate::diffing::{
    added_dir, added_file, became_dir, became_file, beyond, deleted_dir, deleted_file,
    dirs_to_create, dirs_to_delete, entry_of, is_diff_of, lemma_filter_map_holds, modified_file,
    plan, same_within, settled, status_of, was_dir, was_file, DiffApplyOpsView, DiffItemModified,
    DiffType, DiffView,
};
use crate::order::{ascending, descending, lemma_path_orders_total};
use crate::snapshot::{SnapshotFileMetadata, SnapshotItemMetadata};
use vstd::prelude::*;
use vstd::relations::total_ordering;

verus! {

/// The plan sends a file to this path.
pub open spec fn sends(ops: DiffApplyOpsView, path: Seq<char>) -> bool {
    exists|m: SnapshotFileMetadata| ops.send_files.contains((path, m))
}

/// The metadata of the file that the plan sends to this path.
pub open spec fn sent(ops: DiffApplyOpsView, path: Seq<char>) -> SnapshotFileMetadata {
    choose|m: SnapshotFileMetadata| ops.send_files.contains((path, m))
}

/// The plan deletes what is at this path.
pub open spec fn deletes(ops: DiffApplyOpsView, path: Seq<char>) -> bool {
    ops.delete_files.contains(path) || ops.delete_empty_dirs.contains(path)
}

/// The tree that carrying the plan out leaves: what the plan deletes is
/// gone, what it sends or creates is there, and the rest is as it was.
pub open spec fn applied(
    tree: Map<Seq<char>, SnapshotItemMetadata>,
    ops: DiffApplyOpsView,
) -> Map<Seq<char>, SnapshotItemMetadata> {
    Map::new(
        |p: Seq<char>|
            sends(ops, p) || ops.create_dirs.contains(p) || (tree.contains_key(p) && !deletes(
                ops,
                p,
            )),
        |p: Seq<char>|
            if sends(ops, p) {
                SnapshotItemMetadata::File(sent(ops, p))
            } else if ops.create_dirs.contains(p) {
                SnapshotItemMetadata::Directory
            } else {
                tree[p]
            },
    )
}

/// What is there is what is wanted, but for the time of modification of a
/// file, which may be off by the granularity.
pub open spec fn close_enough(
    got: SnapshotItemMetadata,
    wanted: SnapshotItemMetadata,
    granularity: int,
) -> bool {
    got == wanted || (got matches SnapshotItemMetadata::File(prev)
        && wanted matches SnapshotItemMetadata::File(new) && same_within(
        DiffItemModified { prev, new },
        granularity,
    ))
}

/// A path whose status creates a directory.
pub open spec fn makes_dir(status: Option<DiffType>) -> bool {
    match status {
        Some(DiffType::Added(a)) => a.new is Directory,
        Some(DiffType::TypeChanged(t)) => t.new is Directory,
        _ => false,
    }
}

/// A path whose status sends a file with this metadata, under a granularity.
pub open spec fn makes_file(
    status: Option<DiffType>,
    m: SnapshotFileMetadata,
    granularity: int,
) -> bool {
    match status {
        Some(DiffType::Added(a)) => a.new == SnapshotItemMetadata::File(m),
        Some(DiffType::Modified(x)) => x.new == m && !same_within(x, granularity),
        Some(DiffType::TypeChanged(t)) => t.new == SnapshotItemMetadata::File(m),
        _ => false,
    }
}

/// A path whose status removes a file.
pub open spec fn drops_file(status: Option<DiffType>) -> bool {
    match status {
        Some(DiffType::Deleted(x)) => x.prev is File,
        Some(DiffType::TypeChanged(t)) => t.prev is File,
        _ => false,
    }
}

/// A path whose status removes a directory.
pub open spec fn drops_dir(status: Option<DiffType>) -> bool {
    match status {
        Some(DiffType::Deleted(x)) => x.prev is Directory,
        Some(DiffType::TypeChanged(t)) => t.prev is Directory,
        _ => false,
    }
}

/// What two lists hold, one behind the other, is what either holds.
pub proof fn lemma_concat_contains<A>(a: Seq<A>, b: Seq<A>, x: A)
    ensures
        (a + b).contains(x) <==> a.contains(x) || b.contains(x),
{
    if a.contains(x) {
        let i = choose|i: int| 0 <= i < a.len() && a[i] == x;
        assert((a + b)[i] == x);
    }
    if b.contains(x) {
        let i = choose|i: int| 0 <= i < b.len() && b[i] == x;
        assert((a + b)[a.len() + i] == x);
    }
    if (a + b).contains(x) {
        let i = choose|i: int| 0 <= i < (a + b).len() && (a + b)[i] == x;
        if i < a.len() {
            assert(a[i] == x);
        } else {
            assert(b[i - a.len()] == x);
        }
    }
}

/// What a filtered list holds is what the list holds and the filter lets through.
pub proof fn lemma_filter_holds<A>(s: Seq<A>, keep: spec_fn(A) -> bool, x: A)
    ensures
        s.filter(keep).contains(x) <==> s.contains(x) && keep(x),
{
    if s.filter(keep).contains(x) {
        let i = choose|i: int| 0 <= i < s.filter(keep).len() && s.filter(keep)[i] == x;
        s.lemma_filter_pred(keep, i);
        s.lemma_filter_contains_rev(keep, x);
    }
    if s.contains(x) && keep(x) {
        let i = choose|i: int| 0 <= i < s.len() && s[i] == x;
        s.lemma_filter_contains(keep, i);
    }
}

/// A filter that lets every element through changes nothing.
pub proof fn lemma_filter_keeps_all<A>(s: Seq<A>, keep: spec_fn(A) -> bool)
    requires
        forall|i: int| 0 <= i < s.len() ==> keep(#[trigger] s[i]),
    ensures
        s.filter(keep) == s,
    decreases s.len(),
{
    reveal(Seq::filter);
    if s.len() > 0 {
        assert forall|i: int| 0 <= i < s.drop_last().len() implies keep(#[trigger] s.drop_last()[i]) by {
            assert(keep(s[i]));
        }
        lemma_filter_keeps_all(s.drop_last(), keep);
        assert(keep(s[s.len() - 1]));
        assert(s.drop_last().push(s.last()) =~= s);
    }
}

/// Sorting a list changes nothing of what it holds.
pub proof fn lemma_sorted_holds<A>(s: Seq<A>, leq: spec_fn(A, A) -> bool, x: A)
    requires
        total_ordering(leq),
    ensures
        s.sort_by(leq).contains(x) <==> s.contains(x),
{
    broadcast use vstd::seq_lib::group_to_multiset_ensures;

    s.lemma_sort_by_ensures(leq);
    s.to_multiset_ensures();
    s.sort_by(leq).to_multiset_ensures();
    assert(s.contains(x) <==> s.to_multiset().count(x) > 0);
    assert(s.sort_by(leq).contains(x) <==> s.sort_by(leq).to_multiset().count(x) > 0);
}

/// The plan creates a directory at a path exactly when the path is that of
/// a directory that was added or that takes the place of a file.
pub proof fn lemma_plan_creates(
    d: DiffView,
    local: Map<Seq<char>, SnapshotItemMetadata>,
    remote: Map<Seq<char>, SnapshotItemMetadata>,
    granularity: int,
    p: Seq<char>,
)
    requires
        is_diff_of(d, local, remote),
    ensures
        plan(settled(d, granularity)).create_dirs.contains(p) <==> makes_dir(
            status_of(local, remote, p),
        ),
{
    let s = settled(d, granularity);
    let st = status_of(local, remote, p);
    lemma_path_orders_total();
    lemma_sorted_holds(dirs_to_create(s), ascending(), p);
    lemma_concat_contains(s.added.filter_map(added_dir()), s.type_changed.filter_map(became_dir()), p);
    lemma_filter_map_holds(d.added, added_dir(), p);
    lemma_filter_map_holds(d.type_changed, became_dir(), p);
    if d.added.filter_map(added_dir()).contains(p) {
        let k = choose|k: int| 0 <= k < d.added.len() && added_dir()(#[trigger] d.added[k]) == Some(p);
        assert(d.added.contains((p, d.added[k].1)));
    }
    if d.type_changed.filter_map(became_dir()).contains(p) {
        let k = choose|k: int|
            0 <= k < d.type_changed.len() && became_dir()(#[trigger] d.type_changed[k]) == Some(p);
        assert(d.type_changed.contains((p, d.type_changed[k].1)));
    }
    if makes_dir(st) {
        match st {
            Some(DiffType::Added(a)) => {
                assert(d.added.contains((p, a)));
                let k = choose|k: int| 0 <= k < d.added.len() && d.added[k] == (p, a);
                assert(added_dir()(d.added[k]) == Some(p));
            },
            Some(DiffType::TypeChanged(t)) => {
                assert(d.type_changed.contains((p, t)));
                let k = choose|k: int| 0 <= k < d.type_changed.len() && d.type_changed[k] == (p, t);
                assert(became_dir()(d.type_changed[k]) == Some(p));
            },
            _ => {},
        }
    }
}

/// The plan sends a file to a path exactly when the path is that of a file
/// that was added, that was modified beyond the granularity, or that takes
/// the place of a directory; and it sends the file as the local side has it.
pub proof fn lemma_plan_sends(
    d: DiffView,
    local: Map<Seq<char>, SnapshotItemMetadata>,
    remote: Map<Seq<char>, SnapshotItemMetadata>,
    granularity: int,
    p: Seq<char>,
    m: SnapshotFileMetadata,
)
    requires
        is_diff_of(d, local, remote),
    ensures
        plan(settled(d, granularity)).send_files.contains((p, m)) <==> makes_file(
            status_of(local, remote, p),
            m,
            granularity,
        ),
{
    let s = settled(d, granularity);
    let st = status_of(local, remote, p);
    let x = (p, m);
    let a = s.added.filter_map(added_file());
    let mo = s.modified.map_values(modified_file());
    let t = s.type_changed.filter_map(became_file());
    lemma_concat_contains(a + mo, t, x);
    lemma_concat_contains(a, mo, x);
    lemma_filter_map_holds(d.added, added_file(), x);
    lemma_filter_map_holds(d.type_changed, became_file(), x);
    if a.contains(x) {
        let k = choose|k: int| 0 <= k < d.added.len() && added_file()(#[trigger] d.added[k]) == Some(x);
        assert(d.added.contains((p, d.added[k].1)));
    }
    if t.contains(x) {
        let k = choose|k: int|
            0 <= k < d.type_changed.len() && became_file()(#[trigger] d.type_changed[k]) == Some(x);
        assert(d.type_changed.contains((p, d.type_changed[k].1)));
    }
    if mo.contains(x) {
        let k = choose|k: int| 0 <= k < mo.len() && mo[k] == x;
        let e = s.modified[k];
        assert(s.modified.contains(e));
        lemma_filter_holds(d.modified, beyond(granularity), e);
        assert(d.modified.contains((p, e.1)));
    }
    if makes_file(st, m, granularity) {
        match st {
            Some(DiffType::Added(i)) => {
                assert(d.added.contains((p, i)));
                let k = choose|k: int| 0 <= k < d.added.len() && d.added[k] == (p, i);
                assert(added_file()(d.added[k]) == Some(x));
            },
            Some(DiffType::Modified(i)) => {
                assert(d.modified.contains((p, i)));
                lemma_filter_holds(d.modified, beyond(granularity), (p, i));
                let k = choose|k: int| 0 <= k < s.modified.len() && s.modified[k] == (p, i);
                assert(mo[k] == x);
            },
            Some(DiffType::TypeChanged(i)) => {
                assert(d.type_changed.contains((p, i)));
                let k = choose|k: int| 0 <= k < d.type_changed.len() && d.type_changed[k] == (p, i);
                assert(became_file()(d.type_changed[k]) == Some(x));
            },
            _ => {},
        }
    }
}

/// The plan deletes a file at a path exactly when the path is that of a
/// file that was deleted or that a directory takes the place of.
pub proof fn lemma_plan_deletes_file(
    d: DiffView,
    local: Map<Seq<char>, SnapshotItemMetadata>,
    remote: Map<Seq<char>, SnapshotItemMetadata>,
    granularity: int,
    p: Seq<char>,
)
    requires
        is_diff_of(d, local, remote),
    ensures
        plan(settled(d, granularity)).delete_files.contains(p) <==> drops_file(
            status_of(local, remote, p),
        ),
{
    let s = settled(d, granularity);
    let st = status_of(local, remote, p);
    lemma_concat_contains(s.deleted.filter_map(deleted_file()), s.type_changed.filter_map(was_file()), p);
    lemma_filter_map_holds(d.deleted, deleted_file(), p);
    lemma_filter_map_holds(d.type_changed, was_file(), p);
    if d.deleted.filter_map(deleted_file()).contains(p) {
        let k = choose|k: int|
            0 <= k < d.deleted.len() && deleted_file()(#[trigger] d.deleted[k]) == Some(p);
        assert(d.deleted.contains((p, d.deleted[k].1)));
    }
    if d.type_changed.filter_map(was_file()).contains(p) {
        let k = choose|k: int|
            0 <= k < d.type_changed.len() && was_file()(#[trigger] d.type_changed[k]) == Some(p);
        assert(d.type_changed.contains((p, d.type_changed[k].1)));
    }
    if drops_file(st) {
        match st {
            Some(DiffType::Deleted(i)) => {
                assert(d.deleted.contains((p, i)));
                let k = choose|k: int| 0 <= k < d.deleted.len() && d.deleted[k] == (p, i);
                assert(deleted_file()(d.deleted[k]) == Some(p));
            },
            Some(DiffType::TypeChanged(i)) => {
                assert(d.type_changed.contains((p, i)));
                let k = choose|k: int| 0 <= k < d.type_changed.len() && d.type_changed[k] == (p, i);
                assert(was_file()(d.type_changed[k]) == Some(p));
            },
            _ => {},
        }
    }
}

/// The plan deletes a directory at a path exactly when the path is that of
/// a directory that was deleted or that a file takes the place of.
pub proof fn lemma_plan_deletes_dir(
    d: DiffView,
    local: Map<Seq<char>, SnapshotItemMetadata>,
    remote: Map<Seq<char>, SnapshotItemMetadata>,
    granularity: int,
    p: Seq<char>,
)
    requires
        is_diff_of(d, local, remote),
    ensures
        plan(settled(d, granularity)).delete_empty_dirs.contains(p) <==> drops_dir(
            status_of(local, remote, p),
        ),
{
    let s = settled(d, granularity);
    let st = status_of(local, remote, p);
    lemma_path_orders_total();
    lemma_sorted_holds(dirs_to_delete(s), descending(), p);
    lemma_concat_contains(s.deleted.filter_map(deleted_dir()), s.type_changed.filter_map(was_dir()), p);
    lemma_filter_map_holds(d.deleted, deleted_dir(), p);
    lemma_filter_map_holds(d.type_changed, was_dir(), p);
    if d.deleted.filter_map(deleted_dir()).contains(p) {
        let k = choose|k: int|
            0 <= k < d.deleted.len() && deleted_dir()(#[trigger] d.deleted[k]) == Some(p);
        assert(d.deleted.contains((p, d.deleted[k].1)));
    }
    if d.type_changed.filter_map(was_dir()).contains(p) {
        let k = choose|k: int|
            0 <= k < d.type_changed.len() && was_dir()(#[trigger] d.type_changed[k]) == Some(p);
        assert(d.type_changed.contains((p, d.type_changed[k].1)));
    }
    if drops_dir(st) {
        match st {
            Some(DiffType::Deleted(i)) => {
                assert(d.deleted.contains((p, i)));
                let k = choose|k: int| 0 <= k < d.deleted.len() && d.deleted[k] == (p, i);
                assert(deleted_dir()(d.deleted[k]) == Some(p));
            },
            Some(DiffType::TypeChanged(i)) => {
                assert(d.type_changed.contains((p, i)));
                let k = choose|k: int| 0 <= k < d.type_changed.len() && d.type_changed[k] == (p, i);
                assert(was_dir()(d.type_changed[k]) == Some(p));
            },
            _ => {},
        }
    }
}

/// What carrying out the plan leaves at one path.
proof fn lemma_applied_at(
    d: DiffView,
    local: Map<Seq<char>, SnapshotItemMetadata>,
    remote: Map<Seq<char>, SnapshotItemMetadata>,
    granularity: int,
    p: Seq<char>,
)
    requires
        is_diff_of(d, local, remote),
    ensures
        applied(remote, plan(settled(d, granularity))).contains_key(p) <==> local.contains_key(p),
        local.contains_key(p) ==> close_enough(
            applied(remote, plan(settled(d, granularity)))[p],
            local[p],
            granularity,
        ),
        local.contains_key(p) && granularity < 0 ==> applied(
            remote,
            plan(settled(d, granularity)),
        )[p] == local[p],
{
    let ops = plan(settled(d, granularity));
    let st = status_of(local, remote, p);
    lemma_plan_creates(d, local, remote, granularity, p);
    lemma_plan_deletes_file(d, local, remote, granularity, p);
    lemma_plan_deletes_dir(d, local, remote, granularity, p);
    assert forall|m: SnapshotFileMetadata|
        ops.send_files.contains((p, m)) <==> makes_file(st, m, granularity) by {
        lemma_plan_sends(d, local, remote, granularity, p, m);
    }
    if sends(ops, p) {
        let m = sent(ops, p);
        assert(ops.send_files.contains((p, m)));
        assert(makes_file(st, m, granularity));
    } else {
        match entry_of(local, p) {
            Some(SnapshotItemMetadata::File(m)) => {
                assert(!ops.send_files.contains((p, m)));
                assert(!makes_file(st, m, granularity));
            },
            _ => {},
        }
    }
}

/// Carrying out the plan of the diff between two trees, with the
/// modifications that the granularity explains away left out, turns the
/// remote tree into the local one: afterwards exactly the local paths are
/// there, each as the local side has it, but for the times of modification
/// of the files that were left alone, which are off by the granularity at
/// most. Every file that the plan sends is there with its size and time,
/// and nothing that the plan deletes is left.
pub proof fn lemma_plan_reaches_local(
    d: DiffView,
    local: Map<Seq<char>, SnapshotItemMetadata>,
    remote: Map<Seq<char>, SnapshotItemMetadata>,
    granularity: int,
)
    requires
        is_diff_of(d, local, remote),
    ensures
        applied(remote, plan(settled(d, granularity))).dom() == local.dom(),
        forall|p: Seq<char>| #[trigger]
            local.contains_key(p) ==> close_enough(
                applied(remote, plan(settled(d, granularity)))[p],
                local[p],
                granularity,
            ),
        forall|p: Seq<char>, m: SnapshotFileMetadata|
            plan(settled(d, granularity)).send_files.contains((p, m)) ==> local.contains_key(p)
                && local[p] == SnapshotItemMetadata::File(m) && applied(
                remote,
                plan(settled(d, granularity)),
            )[p] == local[p],
        forall|p: Seq<char>|
            deletes(plan(settled(d, granularity)), p) && !local.contains_key(p) ==> !applied(
                remote,
                plan(settled(d, granularity)),
            ).contains_key(p),
{
    let ops = plan(settled(d, granularity));
    let after = applied(remote, ops);
    assert forall|p: Seq<char>| after.contains_key(p) <==> local.contains_key(p) by {
        lemma_applied_at(d, local, remote, granularity, p);
    }
    assert(after.dom() =~= local.dom());
    assert forall|p: Seq<char>| #[trigger] local.contains_key(p) implies close_enough(
        after[p],
        local[p],
        granularity,
    ) by {
        lemma_applied_at(d, local, remote, granularity, p);
    }
    assert forall|p: Seq<char>, m: SnapshotFileMetadata| ops.send_files.contains((p, m)) implies 
        local.contains_key(p) && local[p] == SnapshotItemMetadata::File(m) && after[p]
            == local[p] by {
        lemma_plan_sends(d, local, remote, granularity, p, m);
        let n = sent(ops, p);
        assert(ops.send_files.contains((p, n)));
        lemma_plan_sends(d, local, remote, granularity, p, n);
    }
    assert forall|p: Seq<char>| deletes(ops, p) && !local.contains_key(p) implies !after.contains_key(
        p,
    ) by {
        lemma_applied_at(d, local, remote, granularity, p);
    }
}

/// Carrying out the whole plan of the diff between two trees turns the
/// remote tree into the local one.
pub proof fn lemma_plan_makes_trees_equal(
    d: DiffView,
    local: Map<Seq<char>, SnapshotItemMetadata>,
    remote: Map<Seq<char>, SnapshotItemMetadata>,
)
    requires
        is_diff_of(d, local, remote),
    ensures
        applied(remote, plan(d)) == local,
{
    assert forall|i: int| 0 <= i < d.modified.len() implies beyond(-1)(#[trigger] d.modified[i]) by {}
    lemma_filter_keeps_all(d.modified, beyond(-1));
    assert(settled(d, -1) == d);
    let after = applied(remote, plan(d));
    assert forall|p: Seq<char>| after.contains_key(p) <==> local.contains_key(p) by {
        lemma_applied_at(d, local, remote, -1, p);
    }
    assert forall|p: Seq<char>| local.contains_key(p) implies after[p] == local[p] by {
        lemma_applied_at(d, local, remote, -1, p);
    }
    assert(after =~= local);
}

} // verus!
