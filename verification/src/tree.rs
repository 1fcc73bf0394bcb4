//! Trusted view of the outside interval tree that backs the memory map.
//!
//! The shadow map stores its regions in `nonoverlapping_interval_tree::
//! NonOverlappingIntervalTree`, a `BTreeMap` keyed by interval start whose
//! values carry the interval end. Verus cannot look inside that structure,
//! so this module declares the type, names its contents — `tree_entries`
//! maps each stored start address to the pair of its end address and its
//! value — and wraps the handful of methods the map logic calls. Every
//! wrapper's contract states what the crate's source shows for that call.

use vstd::prelude::*;

use crate::region::State;
use nonoverlapping_interval_tree::NonOverlappingIntervalTree;

verus! {

#[verifier::external_type_specification]
#[verifier::external_body]
#[verifier::reject_recursive_types(K)]
#[verifier::reject_recursive_types(V)]
pub struct ExNonOverlappingIntervalTree<K, V>(NonOverlappingIntervalTree<K, V>);

/// The contents of the tree: each stored interval's start address mapped to
/// its end address and its value.
pub uninterp spec fn tree_entries(t: NonOverlappingIntervalTree<usize, State>) -> Map<
    int,
    (int, State),
>;

/// Whether a model holds only non-empty, pairwise disjoint intervals whose
/// bounds are addresses. The tree's own lookups assume this shape, so the
/// wrappers that search the tree require it.
pub open spec fn entries_disjoint(m: Map<int, (int, State)>) -> bool {
    &&& forall|k: int| #[trigger]
        m.dom().contains(k) ==> 0 <= k < m[k].0 <= usize::MAX
    &&& forall|k1: int, k2: int|
        m.dom().contains(k1) && m.dom().contains(k2) && k1 != k2 ==> !crate::region::overlaps(
            k1,
            m[k1].0,
            k2,
            m[k2].0,
        )
}

/// The model of a tree that stores nothing.
pub open spec fn no_entries() -> Map<int, (int, State)> {
    Map::empty()
}

/// Relies on `NonOverlappingIntervalTree::new`: the fresh tree's `BTreeMap`
/// is empty, so it stores no interval.
#[verifier::external_body]
pub(crate) fn tree_new() -> (r: NonOverlappingIntervalTree<usize, State>)
    ensures
        tree_entries(r) == no_entries(),
{
    NonOverlappingIntervalTree::new()
}

/// Relies on `NonOverlappingIntervalTree::range(lo..hi)` followed by `next`:
/// `range` walks the underlying `BTreeMap` from the query start — widened to
/// the one interval that may begin before `lo` yet reach past it — up to
/// `hi`, so its first element is the stored interval with the least start
/// among those meeting `[lo, hi)`, and there is none exactly when no stored
/// interval meets `[lo, hi)`.
#[verifier::external_body]
pub(crate) fn tree_first_in(
    t: &NonOverlappingIntervalTree<usize, State>,
    lo: usize,
    hi: usize,
) -> (r: Option<(usize, usize, State)>)
    requires
        lo < hi,
        entries_disjoint(tree_entries(*t)),
    ensures
        ({
            let m = tree_entries(*t);
            match r {
                None => forall|k: int| #[trigger]
                    m.dom().contains(k) ==> !crate::region::overlaps(
                        k,
                        m[k].0,
                        lo as int,
                        hi as int,
                    ),
                Some((s, e, st)) => {
                    &&& m.dom().contains(s as int)
                    &&& m[s as int] == (e as int, st)
                    &&& crate::region::overlaps(s as int, e as int, lo as int, hi as int)
                    &&& forall|k: int| #[trigger]
                        m.dom().contains(k) && crate::region::overlaps(
                            k,
                            m[k].0,
                            lo as int,
                            hi as int,
                        ) ==> k >= s as int
                },
            }
        }),
{
    match t.range(lo..hi).next() {
        None => None,
        Some((s, iv)) => Some((*s, *iv.end(), *iv.value())),
    }
}

/// Relies on `NonOverlappingIntervalTree::insert`: it stores the value and
/// the interval end in the underlying `BTreeMap` at key `lo`, leaving every
/// other key alone.
#[verifier::external_body]
pub(crate) fn tree_insert(
    t: &mut NonOverlappingIntervalTree<usize, State>,
    lo: usize,
    hi: usize,
    st: State,
)
    ensures
        tree_entries(*final(t)) == tree_entries(*old(t)).insert(lo as int, (hi as int, st)),
{
    let _ = t.insert(lo..hi, st);
}

/// Relies on `NonOverlappingIntervalTree::remove`: when the point is itself
/// a stored interval's start, that entry is removed from the underlying
/// `BTreeMap` and its value returned.
#[verifier::external_body]
pub(crate) fn tree_remove_at(t: &mut NonOverlappingIntervalTree<usize, State>, start: usize) -> (r:
    Option<State>)
    requires
        tree_entries(*old(t)).dom().contains(start as int),
    ensures
        tree_entries(*final(t)) == tree_entries(*old(t)).remove(start as int),
        r == Some(tree_entries(*old(t))[start as int].1),
{
    t.remove(&start)
}

/// Relies on the tree's derived `Clone`, which clones the underlying
/// `BTreeMap` entry for entry.
#[verifier::external_body]
pub(crate) fn tree_clone(t: &NonOverlappingIntervalTree<usize, State>) -> (r:
    NonOverlappingIntervalTree<usize, State>)
    ensures
        tree_entries(r) == tree_entries(*t),
{
    t.clone()
}

} // verus!
