//! What holds of diffs and plans in general: a diff is determined by the two
//! catalogues, swapping the sides mirrors it, and a plan lists directories in
//! an order that is safe to carry out.

use crate::diffing::{
    bucket_paths, classify, dirs_to_create, dirs_to_delete, entry_of, is_diff_of, plan, status_of,
    strictly_ascending, DiffItemAdded, DiffItemDeleted, DiffItemModified, DiffItemTypeChanged,
    DiffType, DiffView,
};
use crate::order::{
    ascending, descending, lemma_path_leq_antisymmetric, lemma_path_orders_total, path_leq,
};
use crate::snapshot::SnapshotItemMetadata;
use vstd::prelude::*;
use vstd::relations::sorted_by;

verus! {

/// Two lists that are strictly ascending by path and hold the same pairs are equal.
pub proof fn lemma_ascending_unique<T>(a: Seq<(Seq<char>, T)>, b: Seq<(Seq<char>, T)>)
    requires
        strictly_ascending(bucket_paths(a)),
        strictly_ascending(bucket_paths(b)),
        forall|x: (Seq<char>, T)| a.contains(x) <==> b.contains(x),
    ensures
        a == b,
    decreases a.len(),
{
    if a.len() == 0 {
        if b.len() > 0 {
            assert(b.contains(b[0]));
        }
        assert(a =~= b);
    } else {
        let top = a.last();
        assert(a.contains(top));
        let j = choose|j: int| 0 <= j < b.len() && b[j] == top;
        if j < b.len() - 1 {
            assert(b.contains(b.last()));
            let i = choose|i: int| 0 <= i < a.len() && a[i] == b.last();
            assert(bucket_paths(b)[j] == top.0);
            assert(bucket_paths(b)[b.len() - 1] == b.last().0);
            assert(bucket_paths(a)[i] == b.last().0);
            assert(bucket_paths(a)[a.len() - 1] == top.0);
            assert(path_leq(top.0, b.last().0) && top.0 != b.last().0);
            if i < a.len() - 1 {
                assert(path_leq(b.last().0, top.0));
                lemma_path_leq_antisymmetric(top.0, b.last().0);
            }
        }
        let a0 = a.drop_last();
        let b0 = b.drop_last();
        assert forall|x: (Seq<char>, T)| a0.contains(x) <==> b0.contains(x) by {
            if a0.contains(x) {
                let i = choose|i: int| 0 <= i < a0.len() && a0[i] == x;
                assert(a[i] == x);
                assert(a.contains(x));
                let k = choose|k: int| 0 <= k < b.len() && b[k] == x;
                assert(bucket_paths(a)[i] == x.0);
                assert(bucket_paths(a)[a.len() - 1] == top.0);
                assert(b0[k] == x);
            }
            if b0.contains(x) {
                let k = choose|k: int| 0 <= k < b0.len() && b0[k] == x;
                assert(b[k] == x);
                assert(b.contains(x));
                let i = choose|i: int| 0 <= i < a.len() && a[i] == x;
                assert(bucket_paths(b)[k] == x.0);
                assert(bucket_paths(b)[b.len() - 1] == top.0);
                assert(a0[i] == x);
            }
        }
        assert forall|i: int, k: int| 0 <= i < k < a0.len() implies #[trigger] bucket_paths(a0)[i]
            != #[trigger] bucket_paths(a0)[k] && path_leq(
            bucket_paths(a0)[i],
            bucket_paths(a0)[k],
        ) by {
            assert(bucket_paths(a)[i] == bucket_paths(a0)[i]);
            assert(bucket_paths(a)[k] == bucket_paths(a0)[k]);
        }
        assert forall|i: int, k: int| 0 <= i < k < b0.len() implies #[trigger] bucket_paths(b0)[i]
            != #[trigger] bucket_paths(b0)[k] && path_leq(
            bucket_paths(b0)[i],
            bucket_paths(b0)[k],
        ) by {
            assert(bucket_paths(b)[i] == bucket_paths(b0)[i]);
            assert(bucket_paths(b)[k] == bucket_paths(b0)[k]);
        }
        lemma_ascending_unique(a0, b0);
        assert(a =~= a0.push(top));
        assert(b =~= b0.push(top));
    }
}

/// Two catalogues have one diff: whatever order their entries were listed in,
/// the result is the same.
pub proof fn lemma_diff_unique(
    d1: DiffView,
    d2: DiffView,
    local: Map<Seq<char>, SnapshotItemMetadata>,
    remote: Map<Seq<char>, SnapshotItemMetadata>,
)
    requires
        is_diff_of(d1, local, remote),
        is_diff_of(d2, local, remote),
    ensures
        d1 == d2,
{
    assert forall|x: (Seq<char>, DiffItemAdded)| d1.added.contains(x) <==> d2.added.contains(x) by {
        assert(d1.added.contains((x.0, x.1)) <==> d2.added.contains((x.0, x.1)));
    }
    assert forall|x: (Seq<char>, DiffItemModified)|
        d1.modified.contains(x) <==> d2.modified.contains(x) by {
        assert(d1.modified.contains((x.0, x.1)) <==> d2.modified.contains((x.0, x.1)));
    }
    assert forall|x: (Seq<char>, DiffItemTypeChanged)|
        d1.type_changed.contains(x) <==> d2.type_changed.contains(x) by {
        assert(d1.type_changed.contains((x.0, x.1)) <==> d2.type_changed.contains((x.0, x.1)));
    }
    assert forall|x: (Seq<char>, DiffItemDeleted)|
        d1.deleted.contains(x) <==> d2.deleted.contains(x) by {
        assert(d1.deleted.contains((x.0, x.1)) <==> d2.deleted.contains((x.0, x.1)));
    }
    lemma_ascending_unique(d1.added, d2.added);
    lemma_ascending_unique(d1.modified, d2.modified);
    lemma_ascending_unique(d1.type_changed, d2.type_changed);
    lemma_ascending_unique(d1.deleted, d2.deleted);
}

/// A diff with the two sides swapped: what was added is deleted, what was
/// deleted is added, and each change runs the other way.
pub open spec fn mirrored(d: DiffView) -> DiffView {
    DiffView {
        added: d.deleted.map_values(
            |e: (Seq<char>, DiffItemDeleted)| (e.0, DiffItemAdded { new: e.1.prev }),
        ),
        modified: d.modified.map_values(
            |e: (Seq<char>, DiffItemModified)|
                (e.0, DiffItemModified { prev: e.1.new, new: e.1.prev }),
        ),
        type_changed: d.type_changed.map_values(
            |e: (Seq<char>, DiffItemTypeChanged)|
                (e.0, DiffItemTypeChanged { prev: e.1.new, new: e.1.prev }),
        ),
        deleted: d.added.map_values(
            |e: (Seq<char>, DiffItemAdded)| (e.0, DiffItemDeleted { prev: e.1.new }),
        ),
    }
}

/// The status of a path with the two sides swapped.
pub open spec fn mirrored_status(status: DiffType) -> DiffType {
    match status {
        DiffType::Added(i) => DiffType::Deleted(DiffItemDeleted { prev: i.new }),
        DiffType::Modified(i) => DiffType::Modified(DiffItemModified { prev: i.new, new: i.prev }),
        DiffType::TypeChanged(i) => DiffType::TypeChanged(
            DiffItemTypeChanged { prev: i.new, new: i.prev },
        ),
        DiffType::Deleted(i) => DiffType::Added(DiffItemAdded { new: i.prev }),
    }
}

/// Swapping the sides of a comparison mirrors its outcome.
pub proof fn lemma_classify_mirrored(
    local: Option<SnapshotItemMetadata>,
    remote: Option<SnapshotItemMetadata>,
)
    ensures
        classify(remote, local) == match classify(local, remote) {
            Some(s) => Some(mirrored_status(s)),
            None => None,
        },
{
}

/// The mirror image of the diff from `remote` to `local` is the diff from
/// `local` to `remote`.
pub proof fn lemma_mirrored_is_diff(
    d: DiffView,
    local: Map<Seq<char>, SnapshotItemMetadata>,
    remote: Map<Seq<char>, SnapshotItemMetadata>,
)
    requires
        is_diff_of(d, local, remote),
    ensures
        is_diff_of(mirrored(d), remote, local),
{
    let m = mirrored(d);
    assert(bucket_paths(m.added) =~= bucket_paths(d.deleted));
    assert(bucket_paths(m.modified) =~= bucket_paths(d.modified));
    assert(bucket_paths(m.type_changed) =~= bucket_paths(d.type_changed));
    assert(bucket_paths(m.deleted) =~= bucket_paths(d.added));
    assert forall|p: Seq<char>, i: DiffItemAdded| #[trigger]
        m.added.contains((p, i)) <==> status_of(remote, local, p) == Some(
            DiffType::Added(i),
        ) by {
        lemma_classify_mirrored(entry_of(local, p), entry_of(remote, p));
        let twin = (p, DiffItemDeleted { prev: i.new });
        if m.added.contains((p, i)) {
            let k = choose|k: int| 0 <= k < m.added.len() && m.added[k] == (p, i);
            assert(d.deleted[k] == twin);
            assert(d.deleted.contains(twin));
        }
        if status_of(remote, local, p) == Some(DiffType::Added(i)) {
            assert(d.deleted.contains(twin));
            let k = choose|k: int| 0 <= k < d.deleted.len() && d.deleted[k] == twin;
            assert(m.added[k] == (p, i));
        }
    }
    assert forall|p: Seq<char>, i: DiffItemModified| #[trigger]
        m.modified.contains((p, i)) <==> status_of(remote, local, p) == Some(
            DiffType::Modified(i),
        ) by {
        lemma_classify_mirrored(entry_of(local, p), entry_of(remote, p));
        let twin = (p, DiffItemModified { prev: i.new, new: i.prev });
        if m.modified.contains((p, i)) {
            let k = choose|k: int| 0 <= k < m.modified.len() && m.modified[k] == (p, i);
            assert(d.modified[k] == twin);
            assert(d.modified.contains(twin));
        }
        if status_of(remote, local, p) == Some(DiffType::Modified(i)) {
            assert(d.modified.contains(twin));
            let k = choose|k: int| 0 <= k < d.modified.len() && d.modified[k] == twin;
            assert(m.modified[k] == (p, i));
        }
    }
    assert forall|p: Seq<char>, i: DiffItemTypeChanged| #[trigger]
        m.type_changed.contains((p, i)) <==> status_of(remote, local, p) == Some(
            DiffType::TypeChanged(i),
        ) by {
        lemma_classify_mirrored(entry_of(local, p), entry_of(remote, p));
        let twin = (p, DiffItemTypeChanged { prev: i.new, new: i.prev });
        if m.type_changed.contains((p, i)) {
            let k = choose|k: int| 0 <= k < m.type_changed.len() && m.type_changed[k] == (p, i);
            assert(d.type_changed[k] == twin);
            assert(d.type_changed.contains(twin));
        }
        if status_of(remote, local, p) == Some(DiffType::TypeChanged(i)) {
            assert(d.type_changed.contains(twin));
            let k = choose|k: int| 0 <= k < d.type_changed.len() && d.type_changed[k] == twin;
            assert(m.type_changed[k] == (p, i));
        }
    }
    assert forall|p: Seq<char>, i: DiffItemDeleted| #[trigger]
        m.deleted.contains((p, i)) <==> status_of(remote, local, p) == Some(
            DiffType::Deleted(i),
        ) by {
        lemma_classify_mirrored(entry_of(local, p), entry_of(remote, p));
        let twin = (p, DiffItemAdded { new: i.prev });
        if m.deleted.contains((p, i)) {
            let k = choose|k: int| 0 <= k < m.deleted.len() && m.deleted[k] == (p, i);
            assert(d.added[k] == twin);
            assert(d.added.contains(twin));
        }
        if status_of(remote, local, p) == Some(DiffType::Deleted(i)) {
            assert(d.added.contains(twin));
            let k = choose|k: int| 0 <= k < d.added.len() && d.added[k] == twin;
            assert(m.deleted[k] == (p, i));
        }
    }
}

/// Swapping the roles of two snapshots mirrors their diff: what one
/// direction adds the other deletes, and each modification and change of
/// type has its two sides exchanged.
pub proof fn lemma_diff_symmetry(
    forth: DiffView,
    back: DiffView,
    a: Map<Seq<char>, SnapshotItemMetadata>,
    b: Map<Seq<char>, SnapshotItemMetadata>,
)
    requires
        is_diff_of(forth, a, b),
        is_diff_of(back, b, a),
    ensures
        forth == mirrored(back),
{
    lemma_mirrored_is_diff(back, b, a);
    lemma_diff_unique(forth, mirrored(back), a, b);
}

/// A plan creates directories in ascending order and deletes them in
/// descending order, and in each case exactly the directories that the diff
/// names.
pub proof fn lemma_plan_ordered(d: DiffView)
    ensures
        sorted_by(plan(d).create_dirs, ascending()),
        sorted_by(plan(d).delete_empty_dirs, descending()),
        plan(d).create_dirs.to_multiset() == dirs_to_create(d).to_multiset(),
        plan(d).delete_empty_dirs.to_multiset() == dirs_to_delete(d).to_multiset(),
{
    lemma_path_orders_total();
    dirs_to_create(d).lemma_sort_by_ensures(ascending());
    dirs_to_delete(d).lemma_sort_by_ensures(descending());
}

/// A path comes no later than any path that it is the beginning of: in
/// ascending order a directory stands before what lies under it.
pub proof fn lemma_prefix_comes_first(parent: Seq<char>, child: Seq<char>)
    requires
        parent.is_prefix_of(child),
    ensures
        path_leq(parent, child),
    decreases parent.len(),
{
    if parent.len() > 0 {
        assert(parent[0] == child[0]);
        assert(parent.drop_first().is_prefix_of(child.drop_first())) by {
            assert(parent.drop_first() =~= child.drop_first().subrange(0, parent.len() - 1));
        }
        lemma_prefix_comes_first(parent.drop_first(), child.drop_first());
    }
}

/// In the order in which a plan creates directories, none stands before a
/// directory that it lies under; in the order in which it deletes them, none
/// stands after one.
pub proof fn lemma_plan_respects_nesting(d: DiffView, i: int, j: int)
    requires
        0 <= i < j,
    ensures
        j < plan(d).create_dirs.len() && plan(d).create_dirs[j].is_prefix_of(
            plan(d).create_dirs[i],
        ) ==> plan(d).create_dirs[j] == plan(d).create_dirs[i],
        j < plan(d).delete_empty_dirs.len() && plan(d).delete_empty_dirs[i].is_prefix_of(
            plan(d).delete_empty_dirs[j],
        ) ==> plan(d).delete_empty_dirs[i] == plan(d).delete_empty_dirs[j],
{
    lemma_plan_ordered(d);
    let create = plan(d).create_dirs;
    let delete = plan(d).delete_empty_dirs;
    if j < create.len() && create[j].is_prefix_of(create[i]) {
        assert(ascending()(create[i], create[j]));
        lemma_prefix_comes_first(create[j], create[i]);
        lemma_path_leq_antisymmetric(create[i], create[j]);
    }
    if j < delete.len() && delete[i].is_prefix_of(delete[j]) {
        assert(descending()(delete[i], delete[j]));
        lemma_prefix_comes_first(delete[i], delete[j]);
        lemma_path_leq_antisymmetric(delete[i], delete[j]);
    }
}

} // verus!
