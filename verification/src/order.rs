//! The order in which paths are listed: lexicographic by code point, which is
//! the order of `str` itself.

use vstd::prelude::*;
use vstd::relations::{sorted_by, total_ordering};
use vstd::seq_lib::{lemma_multiset_commutative, lemma_sorted_unique};
use vstd::std_specs::iter::IteratorSpec;

verus! {

/// `a` comes before `b`, or equals it, in lexicographic order by code point.
pub open spec fn path_leq(a: Seq<char>, b: Seq<char>) -> bool
    decreases a.len(),
{
    if a.len() == 0 {
        true
    } else if b.len() == 0 {
        false
    } else if a[0] != b[0] {
        (a[0] as u32) < (b[0] as u32)
    } else {
        path_leq(a.drop_first(), b.drop_first())
    }
}

/// The ascending order on paths, as a relation.
pub open spec fn ascending() -> spec_fn(Seq<char>, Seq<char>) -> bool {
    |a: Seq<char>, b: Seq<char>| path_leq(a, b)
}

/// The descending order on paths, as a relation.
pub open spec fn descending() -> spec_fn(Seq<char>, Seq<char>) -> bool {
    |a: Seq<char>, b: Seq<char>| path_leq(b, a)
}

/// Distinct characters have distinct code points.
pub proof fn lemma_code_points_differ(x: char, y: char)
    requires
        x != y,
    ensures
        x as u32 != y as u32,
{
    vstd::utf8::char_u32_cast(x, x as u32);
    vstd::utf8::char_u32_cast(y, y as u32);
}

/// Every path comes before itself, or equals it.
pub proof fn lemma_path_leq_reflexive(a: Seq<char>)
    ensures
        path_leq(a, a),
    decreases a.len(),
{
    if a.len() > 0 {
        lemma_path_leq_reflexive(a.drop_first());
    }
}

/// Two paths that each come before the other are the same path.
pub proof fn lemma_path_leq_antisymmetric(a: Seq<char>, b: Seq<char>)
    requires
        path_leq(a, b),
        path_leq(b, a),
    ensures
        a == b,
    decreases a.len(),
{
    if a.len() == 0 || b.len() == 0 {
        assert(a =~= b);
    } else {
        lemma_path_leq_antisymmetric(a.drop_first(), b.drop_first());
        assert(a =~= seq![a[0]] + a.drop_first());
        assert(b =~= seq![b[0]] + b.drop_first());
    }
}

/// What comes before a path comes before all that the path comes before.
pub proof fn lemma_path_leq_transitive(a: Seq<char>, b: Seq<char>, c: Seq<char>)
    requires
        path_leq(a, b),
        path_leq(b, c),
    ensures
        path_leq(a, c),
    decreases a.len(),
{
    if a.len() > 0 && b.len() > 0 && c.len() > 0 && a[0] == b[0] && b[0] == c[0] {
        lemma_path_leq_transitive(a.drop_first(), b.drop_first(), c.drop_first());
    }
}

/// Of two paths, one comes before the other.
pub proof fn lemma_path_leq_connected(a: Seq<char>, b: Seq<char>)
    ensures
        path_leq(a, b) || path_leq(b, a),
    decreases a.len(),
{
    if a.len() > 0 && b.len() > 0 {
        if a[0] == b[0] {
            lemma_path_leq_connected(a.drop_first(), b.drop_first());
        } else {
            lemma_code_points_differ(a[0], b[0]);
        }
    }
}

/// Both orders on paths are total orders.
pub proof fn lemma_path_orders_total()
    ensures
        total_ordering(ascending()),
        total_ordering(descending()),
{
    assert forall|a: Seq<char>| #[trigger] path_leq(a, a) by {
        lemma_path_leq_reflexive(a);
    }
    assert forall|a: Seq<char>, b: Seq<char>| #[trigger]
        path_leq(a, b) && #[trigger] path_leq(b, a) implies a == b by {
        lemma_path_leq_antisymmetric(a, b);
    }
    assert forall|a: Seq<char>, b: Seq<char>, c: Seq<char>| #[trigger]
        path_leq(a, b) && #[trigger] path_leq(b, c) implies path_leq(a, c) by {
        lemma_path_leq_transitive(a, b, c);
    }
    assert forall|a: Seq<char>, b: Seq<char>| #[trigger] path_leq(a, b) || #[trigger] path_leq(b, a) by {
        lemma_path_leq_connected(a, b);
    }
}

/// Compares two paths: whether `a` comes before `b` or equals it.
pub fn path_le(a: &str, b: &str) -> (le: bool)
    ensures
        le == path_leq(a@, b@),
{
    let mut ia = a.chars();
    let mut ib = b.chars();
    let ghost mut k: int = 0;
    loop
        invariant
            0 <= k <= a@.len(),
            k <= b@.len(),
            ia.remaining() == a@.skip(k),
            ib.remaining() == b@.skip(k),
            path_leq(a@, b@) == path_leq(a@.skip(k), b@.skip(k)),
        decreases a@.len() - k,
    {
        let ca = ia.next();
        let cb = ib.next();
        match ca {
            None => {
                return true;
            },
            Some(x) => match cb {
                None => {
                    return false;
                },
                Some(y) => {
                    if x != y {
                        return (x as u32) < (y as u32);
                    }
                    proof {
                        assert(a@.skip(k).drop_first() =~= a@.skip(k + 1));
                        assert(b@.skip(k).drop_first() =~= b@.skip(k + 1));
                        k = k + 1;
                    }
                },
            },
        }
    }
}

/// The paths that a vector of strings holds.
pub open spec fn path_views(v: Seq<String>) -> Seq<Seq<char>> {
    v.map_values(|s: String| s@)
}

/// The order that a sort follows: descending or ascending.
pub open spec fn listing_order(reverse: bool) -> spec_fn(Seq<char>, Seq<char>) -> bool {
    if reverse {
        descending()
    } else {
        ascending()
    }
}

/// The paths found in `keys` at the positions `idx`, in the order of `idx`.
spec fn picked(keys: Seq<Seq<char>>, idx: Seq<usize>) -> Seq<Seq<char>> {
    idx.map_values(|i: usize| keys[i as int])
}

spec fn all_within(idx: Seq<usize>, n: nat) -> bool {
    forall|k: int| 0 <= k < idx.len() ==> (#[trigger] idx[k]) < n
}

fn in_listing_order(a: &str, b: &str, reverse: bool) -> (r: bool)
    ensures
        r == listing_order(reverse)(a@, b@),
{
    if reverse {
        path_le(b, a)
    } else {
        path_le(a, b)
    }
}

/// Merges two runs of positions, each sorted by the path it points at.
fn merge_runs(keys: &Vec<String>, left: &Vec<usize>, right: &Vec<usize>, reverse: bool) -> (out:
    Vec<usize>)
    requires
        all_within(left@, keys@.len()),
        all_within(right@, keys@.len()),
        sorted_by(picked(path_views(keys@), left@), listing_order(reverse)),
        sorted_by(picked(path_views(keys@), right@), listing_order(reverse)),
    ensures
        all_within(out@, keys@.len()),
        sorted_by(picked(path_views(keys@), out@), listing_order(reverse)),
        picked(path_views(keys@), out@).to_multiset() == picked(
            path_views(keys@),
            left@,
        ).to_multiset().add(picked(path_views(keys@), right@).to_multiset()),
{
    let ghost kv = path_views(keys@);
    let ghost ord = listing_order(reverse);
    let mut out: Vec<usize> = Vec::new();
    let mut i: usize = 0;
    let mut j: usize = 0;
    proof {
        lemma_path_orders_total();
        assert(picked(kv, left@.take(0)) =~= Seq::<Seq<char>>::empty());
        assert(picked(kv, right@.take(0)) =~= Seq::<Seq<char>>::empty());
        assert(picked(kv, out@) =~= Seq::<Seq<char>>::empty());
        broadcast use vstd::seq_lib::group_to_multiset_ensures;
        assert(Seq::<Seq<char>>::empty().to_multiset() =~= Seq::<Seq<char>>::empty().to_multiset().add(
            Seq::<Seq<char>>::empty().to_multiset(),
        ));
    }
    while i < left.len() || j < right.len()
        invariant
            kv == path_views(keys@),
            ord == listing_order(reverse),
            total_ordering(ord),
            i <= left.len(),
            j <= right.len(),
            all_within(left@, keys@.len()),
            all_within(right@, keys@.len()),
            all_within(out@, keys@.len()),
            sorted_by(picked(kv, left@), ord),
            sorted_by(picked(kv, right@), ord),
            sorted_by(picked(kv, out@), ord),
            i < left.len() ==> forall|k: int|
                0 <= k < out@.len() ==> ord(#[trigger] picked(kv, out@)[k], kv[left@[i as int] as int]),
            j < right.len() ==> forall|k: int|
                0 <= k < out@.len() ==> ord(#[trigger] picked(kv, out@)[k], kv[right@[j as int] as int]),
            picked(kv, out@).to_multiset() == picked(kv, left@.take(i as int)).to_multiset().add(
                picked(kv, right@.take(j as int)).to_multiset(),
            ),
        decreases left.len() - i + right.len() - j,
    {
        let take_left = if i >= left.len() {
            false
        } else if j >= right.len() {
            true
        } else {
            in_listing_order(keys[left[i]].as_str(), keys[right[j]].as_str(), reverse)
        };
        let ghost before = out@;
        if take_left {
            let x = left[i];
            out.push(x);
            proof {
                broadcast use vstd::seq_lib::group_to_multiset_ensures;
                let key = kv[x as int];
                assert(picked(kv, out@) =~= picked(kv, before).push(key));
                assert(left@.take(i + 1) =~= left@.take(i as int).push(x));
                assert(picked(kv, left@.take(i + 1)) =~= picked(kv, left@.take(i as int)).push(key));
                assert(picked(kv, out@).to_multiset() =~= picked(kv, left@.take(i + 1)).to_multiset().add(
                    picked(kv, right@.take(j as int)).to_multiset(),
                ));
                if i + 1 < left.len() {
                    assert(ord(picked(kv, left@)[i as int], picked(kv, left@)[i + 1]));
                    assert forall|k: int| 0 <= k < out@.len() implies ord(
                        #[trigger] picked(kv, out@)[k],
                        kv[left@[i + 1] as int],
                    ) by {
                        if k < before.len() {
                            assert(ord(picked(kv, before)[k], key));
                        }
                    }
                }
                if j < right.len() {
                    assert forall|k: int| 0 <= k < out@.len() implies ord(
                        #[trigger] picked(kv, out@)[k],
                        kv[right@[j as int] as int],
                    ) by {
                        if k < before.len() {
                            assert(ord(picked(kv, before)[k], kv[right@[j as int] as int]));
                        }
                    }
                }
                assert forall|a: int, b: int| 0 <= a < b < out@.len() implies ord(
                    #[trigger] picked(kv, out@)[a],
                    #[trigger] picked(kv, out@)[b],
                ) by {
                    if b < before.len() {
                        assert(ord(picked(kv, before)[a], picked(kv, before)[b]));
                    } else {
                        assert(ord(picked(kv, before)[a], key));
                    }
                }
            }
            i += 1;
        } else {
            let x = right[j];
            out.push(x);
            proof {
                broadcast use vstd::seq_lib::group_to_multiset_ensures;
                let key = kv[x as int];
                assert(picked(kv, out@) =~= picked(kv, before).push(key));
                assert(right@.take(j + 1) =~= right@.take(j as int).push(x));
                assert(picked(kv, right@.take(j + 1)) =~= picked(kv, right@.take(j as int)).push(
                    key,
                ));
                assert(picked(kv, out@).to_multiset() =~= picked(kv, left@.take(i as int)).to_multiset().add(
                    picked(kv, right@.take(j + 1)).to_multiset(),
                ));
                if j + 1 < right.len() {
                    assert(ord(picked(kv, right@)[j as int], picked(kv, right@)[j + 1]));
                    assert forall|k: int| 0 <= k < out@.len() implies ord(
                        #[trigger] picked(kv, out@)[k],
                        kv[right@[j + 1] as int],
                    ) by {
                        if k < before.len() {
                            assert(ord(picked(kv, before)[k], key));
                        }
                    }
                }
                if i < left.len() {
                    assert(ord(key, kv[left@[i as int] as int]));
                    assert forall|k: int| 0 <= k < out@.len() implies ord(
                        #[trigger] picked(kv, out@)[k],
                        kv[left@[i as int] as int],
                    ) by {
                        if k < before.len() {
                            assert(ord(picked(kv, before)[k], kv[left@[i as int] as int]));
                        }
                    }
                }
                assert forall|a: int, b: int| 0 <= a < b < out@.len() implies ord(
                    #[trigger] picked(kv, out@)[a],
                    #[trigger] picked(kv, out@)[b],
                ) by {
                    if b < before.len() {
                        assert(ord(picked(kv, before)[a], picked(kv, before)[b]));
                    } else {
                        assert(ord(picked(kv, before)[a], key));
                    }
                }
            }
            j += 1;
        }
    }
    proof {
        assert(left@.take(i as int) =~= left@);
        assert(right@.take(j as int) =~= right@);
    }
    out
}

/// Sorts the positions `lo..hi` of `keys` by the path each points at.
fn sort_run(keys: &Vec<String>, lo: usize, hi: usize, reverse: bool) -> (out: Vec<usize>)
    requires
        lo <= hi <= keys@.len(),
    ensures
        all_within(out@, keys@.len()),
        sorted_by(picked(path_views(keys@), out@), listing_order(reverse)),
        picked(path_views(keys@), out@).to_multiset() == path_views(keys@).subrange(
            lo as int,
            hi as int,
        ).to_multiset(),
    decreases hi - lo,
{
    let ghost kv = path_views(keys@);
    if hi - lo <= 1 {
        let mut out: Vec<usize> = Vec::new();
        if hi > lo {
            out.push(lo);
        }
        proof {
            assert(picked(kv, out@) =~= kv.subrange(lo as int, hi as int));
        }
        out
    } else {
        let mid = lo + (hi - lo) / 2;
        let left = sort_run(keys, lo, mid, reverse);
        let right = sort_run(keys, mid, hi, reverse);
        let out = merge_runs(keys, &left, &right, reverse);
        proof {
            let a = kv.subrange(lo as int, mid as int);
            let b = kv.subrange(mid as int, hi as int);
            assert(a + b =~= kv.subrange(lo as int, hi as int));
            lemma_multiset_commutative(a, b);
        }
        out
    }
}

/// Sorts paths: ascending, or descending when `reverse` is set.
pub fn sort_paths(paths: &Vec<String>, reverse: bool) -> (sorted: Vec<String>)
    ensures
        path_views(sorted@) == path_views(paths@).sort_by(listing_order(reverse)),
{
    let ghost kv = path_views(paths@);
    let idx = sort_run(paths, 0, paths.len(), reverse);
    let mut sorted: Vec<String> = Vec::new();
    let mut k: usize = 0;
    while k < idx.len()
        invariant
            k <= idx.len(),
            kv == path_views(paths@),
            all_within(idx@, paths@.len()),
            path_views(sorted@) == picked(kv, idx@.take(k as int)),
        decreases idx.len() - k,
    {
        let ghost before = sorted@;
        sorted.push(paths[idx[k]].clone());
        proof {
            assert(idx@.take(k + 1) =~= idx@.take(k as int).push(idx@[k as int]));
            assert(path_views(sorted@) =~= path_views(before).push(kv[idx@[k as int] as int]));
            assert(picked(kv, idx@.take(k + 1)) =~= picked(kv, idx@.take(k as int)).push(
                kv[idx@[k as int] as int],
            ));
        }
        k += 1;
    }
    proof {
        assert(idx@.take(k as int) =~= idx@);
        assert(kv.subrange(0, paths@.len() as int) =~= kv);
        lemma_path_orders_total();
        kv.lemma_sort_by_ensures(listing_order(reverse));
        lemma_sorted_unique(picked(kv, idx@), kv.sort_by(listing_order(reverse)), listing_order(reverse));
    }
    sorted
}

} // verus!
