//! The shadow memory map: a non-overlapping interval tree of page ranges.
//!
//! The map mirrors the process's virtual memory areas for the syscall
//! tracer. Each entry covers a whole number of pages and carries the
//! region's owner key and protection history; no two entries overlap. All
//! operations that take a range round it outward to page boundaries first,
//! and every policy refusal returns `false` without mutating the map.

use vstd::prelude::*;

use crate::region::MemRegion;
use crate::region::Range;
use crate::region::State;
use crate::region::lemma_page_aligned_fixed;
use crate::region::lemma_page_down;
use crate::region::lemma_page_up;
use crate::region::max_int;
use crate::region::min_int;
use crate::region::overlaps;
use crate::region::page_down;
use crate::region::page_up;
use crate::tree::entries_disjoint;
use crate::tree::no_entries;
use crate::tree::tree_clone;
use crate::tree::tree_entries;
use crate::tree::tree_first_in;
use crate::tree::tree_insert;
use crate::tree::tree_new;
use crate::tree::tree_remove_at;
use nonoverlapping_interval_tree::NonOverlappingIntervalTree;

verus! {

/// Result of a protection query over a range whose regions do not all share
/// one protection value, or that has no region at all.
pub const PROT_INDETERMINATE: u32 = 0xFFFFFFFFu32;

/// Result of an owner-key query over a range whose regions are owned by
/// more than one key.
pub const PKEY_MULTIPLE: u8 = 255;

/// Result of an owner-key query over a range that no region covers.
pub const PKEY_NONE: u8 = 254;

/// Whether some stored region contains the address `a`.
pub open spec fn covered_at(m: Map<int, (int, State)>, a: int) -> bool {
    exists|k: int| #[trigger] m.dom().contains(k) && k <= a < m[k].0
}

/// Whether every address of `[lo, hi)` lies in some stored region.
pub open spec fn spec_fully_covered(m: Map<int, (int, State)>, lo: int, hi: int) -> bool {
    forall|a: int| lo <= a < hi ==> #[trigger] covered_at(m, a)
}

/// Whether the region at `k` does not meet `[lo, hi)` and so survives a
/// carve of `[lo, hi)` untouched.
pub open spec fn keeps_untouched(m: Map<int, (int, State)>, lo: int, hi: int, k: int) -> bool {
    m.dom().contains(k) && !overlaps(k, m[k].0, lo, hi)
}

/// Whether the region at `k` meets `[lo, hi)` but begins below `lo`, so a
/// carve of `[lo, hi)` leaves its prefix `[k, lo)` in place.
pub open spec fn keeps_prefix(m: Map<int, (int, State)>, lo: int, hi: int, k: int) -> bool {
    m.dom().contains(k) && overlaps(k, m[k].0, lo, hi) && k < lo
}

/// Whether some region meets `[lo, hi)` and reaches past `hi`, so a carve
/// of `[lo, hi)` leaves its suffix starting at `hi`.
pub open spec fn has_tail(m: Map<int, (int, State)>, lo: int, hi: int) -> bool {
    exists|k: int| #[trigger] m.dom().contains(k) && overlaps(k, m[k].0, lo, hi) && m[k].0 > hi
}

/// The region whose suffix survives at `hi` after a carve of `[lo, hi)`.
pub open spec fn tail_src(m: Map<int, (int, State)>, lo: int, hi: int) -> int {
    choose|k: int| #[trigger] m.dom().contains(k) && overlaps(k, m[k].0, lo, hi) && m[k].0 > hi
}

/// The stored regions after the addresses `[lo, hi)` are split out: regions
/// away from `[lo, hi)` survive unchanged, a region reaching below `lo`
/// keeps its prefix `[k, lo)`, a region reaching past `hi` keeps its suffix
/// `[hi, end)`, and everything in between is gone.
pub open spec fn carve(m: Map<int, (int, State)>, lo: int, hi: int) -> Map<int, (int, State)> {
    Map::new(
        |k: int|
            keeps_untouched(m, lo, hi, k) || keeps_prefix(m, lo, hi, k) || (k == hi && has_tail(
                m,
                lo,
                hi,
            )),
        |k: int|
            if keeps_untouched(m, lo, hi, k) {
                m[k]
            } else if keeps_prefix(m, lo, hi, k) {
                (lo, m[k].1)
            } else {
                (m[tail_src(m, lo, hi)].0, m[tail_src(m, lo, hi)].1)
            },
    )
}

/// Whether `sl` is the part inside `[lo, hi)` of some stored region of
/// `m` that meets `[lo, hi)`, with that region's state.
pub open spec fn slice_from(m: Map<int, (int, State)>, lo: int, hi: int, sl: MemRegion) -> bool {
    exists|k: int|
        {
            &&& #[trigger] m.dom().contains(k)
            &&& overlaps(k, m[k].0, lo, hi)
            &&& sl.range.start as int == max_int(k, lo)
            &&& sl.range.spec_end() == min_int(m[k].0, hi)
            &&& sl.state == m[k].1
        }
}

/// Whether `x` is where some stored region's slice inside `[lo, hi)`
/// begins: `x` is the larger of the region's start and `lo`.
pub open spec fn slice_key(m: Map<int, (int, State)>, lo: int, hi: int, x: int) -> bool {
    exists|k: int| #[trigger] m.dom().contains(k) && overlaps(k, m[k].0, lo, hi) && max_int(k, lo)
        == x
}

/// The stored region whose slice inside `[lo, hi)` begins at `x`.
pub open spec fn slice_src(m: Map<int, (int, State)>, lo: int, hi: int, x: int) -> int {
    choose|k: int| #[trigger] m.dom().contains(k) && overlaps(k, m[k].0, lo, hi) && max_int(k, lo)
        == x
}

/// The stored regions after every slice inside `[lo, hi)` is put back with
/// its state passed through `f`: the carve of `[lo, hi)` plus, for each
/// region that met `[lo, hi)`, its clipped span with the updated state.
pub open spec fn reprotected(
    m: Map<int, (int, State)>,
    lo: int,
    hi: int,
    f: spec_fn(State) -> State,
) -> Map<int, (int, State)> {
    Map::new(
        |x: int| carve(m, lo, hi).dom().contains(x) || slice_key(m, lo, hi, x),
        |x: int|
            if carve(m, lo, hi).dom().contains(x) {
                carve(m, lo, hi)[x]
            } else {
                (min_int(m[slice_src(m, lo, hi, x)].0, hi), f(m[slice_src(m, lo, hi, x)].1))
            },
    )
}

/// The state of a slice after `pkey_mprotect` with `pkey`: marked
/// pkey-protected; ownership passes to `pkey` when the slice was unclaimed
/// or initialization is still running.
pub open spec fn pkey_applied(st: State, pkey: u8, init_finished: bool) -> State {
    State {
        pkey_mprotected: true,
        owner_pkey: if st.owner_pkey == 0 || !init_finished {
            pkey
        } else {
            st.owner_pkey
        },
        ..st
    }
}

/// The state of a slice after `mprotect` with `prot`: marked protected and
/// carrying the new protection bits.
pub open spec fn prot_applied(st: State, prot: u32) -> State {
    State { mprotected: true, prot, ..st }
}

/// No piece of the carve of `[lo, hi)` meets `[lo, hi)` itself.
proof fn lemma_carve_avoids(m: Map<int, (int, State)>, lo: int, hi: int)
    requires
        lo < hi,
    ensures
        forall|x: int| #[trigger]
            carve(m, lo, hi).dom().contains(x) ==> !overlaps(x, carve(m, lo, hi)[x].0, lo, hi),
{
}

/// Distinct regions that both meet `[lo, hi)` have distinct slice starts.
proof fn lemma_slice_key_unique(m: Map<int, (int, State)>, lo: int, hi: int, k1: int, k2: int)
    requires
        entries_disjoint(m),
        m.dom().contains(k1),
        m.dom().contains(k2),
        overlaps(k1, m[k1].0, lo, hi),
        overlaps(k2, m[k2].0, lo, hi),
        max_int(k1, lo) == max_int(k2, lo),
    ensures
        k1 == k2,
{
    if k1 != k2 {
        if k1 < k2 {
            assert(m[k1].0 > lo && m[k2].0 > lo);
            assert(k2 <= lo);
            assert(overlaps(k1, m[k1].0, k2, m[k2].0));
        } else {
            assert(m[k1].0 > lo && m[k2].0 > lo);
            assert(k1 <= lo);
            assert(overlaps(k1, m[k1].0, k2, m[k2].0));
        }
        assert(false);
    }
}

/// Once the carve of `[lo, hi)` holds every slice again, updated by `f`,
/// the stored regions are exactly the reprotection of the original map.
proof fn lemma_reinsert_finish(
    m: Map<int, (int, State)>,
    cur: Map<int, (int, State)>,
    slices: Seq<MemRegion>,
    lo: int,
    hi: int,
    f: spec_fn(State) -> State,
)
    requires
        entries_disjoint(m),
        lo < hi,
        forall|x: int| #[trigger]
            carve(m, lo, hi).dom().contains(x) ==> cur.dom().contains(x) && cur[x] == carve(
                m,
                lo,
                hi,
            )[x],
        forall|i: int| 0 <= i < slices.len() ==> #[trigger] slice_from(m, lo, hi, slices[i]),
        forall|i: int|
            0 <= i < slices.len() ==> cur.dom().contains(#[trigger] slices[i].range.start as int)
                && cur[slices[i].range.start as int] == (
                slices[i].range.spec_end(),
                f(slices[i].state),
            ),
        forall|k: int| #[trigger]
            m.dom().contains(k) && overlaps(k, m[k].0, lo, hi) ==> exists|i: int|
                0 <= i < slices.len() && #[trigger] slices[i].range.start as int == max_int(
                    k,
                    lo,
                ),
        forall|x: int| #[trigger]
            cur.dom().contains(x) ==> carve(m, lo, hi).dom().contains(x) || (exists|i: int|
                0 <= i < slices.len() && #[trigger] slices[i].range.start as int == x),
    ensures
        cur == reprotected(m, lo, hi, f),
{
    let c = carve(m, lo, hi);
    let rp = reprotected(m, lo, hi, f);
    assert forall|x: int| #[trigger] rp.dom().contains(x) implies cur.dom().contains(x) && cur[x]
        == rp[x] by {
        if c.dom().contains(x) {
            assert(!overlaps(x, c[x].0, lo, hi));
        } else {
            assert(slice_key(m, lo, hi, x));
            let k = slice_src(m, lo, hi, x);
            assert(m.dom().contains(k) && overlaps(k, m[k].0, lo, hi) && max_int(k, lo) == x);
            let i = choose|i: int|
                0 <= i < slices.len() && #[trigger] slices[i].range.start as int == max_int(
                    k,
                    lo,
                );
            assert(slice_from(m, lo, hi, slices[i]));
            let k2 = choose|k2: int|
                {
                    &&& #[trigger] m.dom().contains(k2)
                    &&& overlaps(k2, m[k2].0, lo, hi)
                    &&& slices[i].range.start as int == max_int(k2, lo)
                    &&& slices[i].range.spec_end() == min_int(m[k2].0, hi)
                    &&& slices[i].state == m[k2].1
                };
            lemma_slice_key_unique(m, lo, hi, k, k2);
            assert(cur[x] == (min_int(m[k].0, hi), f(m[k].1)));
        }
    }
    assert forall|x: int| #[trigger] cur.dom().contains(x) implies rp.dom().contains(x) by {
        if !c.dom().contains(x) {
            let i = choose|i: int|
                0 <= i < slices.len() && #[trigger] slices[i].range.start as int == x;
            assert(slice_from(m, lo, hi, slices[i]));
            let k = choose|k: int|
                {
                    &&& #[trigger] m.dom().contains(k)
                    &&& overlaps(k, m[k].0, lo, hi)
                    &&& slices[i].range.start as int == max_int(k, lo)
                    &&& slices[i].range.spec_end() == min_int(m[k].0, hi)
                    &&& slices[i].state == m[k].1
                };
            assert(slice_key(m, lo, hi, x));
        }
    }
    assert(cur =~= rp);
}

/// The shadow of the process memory map: disjoint page-aligned regions,
/// each with its tracked state, plus the flag that ends the permissive
/// initialization phase.
pub struct MemoryMap {
    regions: NonOverlappingIntervalTree<usize, State>,
    init_finished: bool,
}

impl MemoryMap {
    /// The stored regions: each start address maps to the region's end
    /// address and state.
    pub closed spec fn entries(self) -> Map<int, (int, State)> {
        tree_entries(self.regions)
    }

    /// Whether the permissive initialization phase is over.
    pub closed spec fn spec_init_finished(self) -> bool {
        self.init_finished
    }

    /// Every stored region is non-empty, fits in the address space, is
    /// page-aligned at both ends, and overlaps no other stored region.
    pub open spec fn wf(self) -> bool {
        &&& entries_disjoint(self.entries())
        &&& forall|k: int| #[trigger]
            self.entries().dom().contains(k) ==> k % 4096 == 0 && self.entries()[k].0 % 4096 == 0
    }

    /// An empty map, still in the initialization phase.
    pub fn new() -> (r: MemoryMap)
        ensures
            r.wf(),
            r.entries() == no_entries(),
            !r.spec_init_finished(),
    {
        MemoryMap { regions: tree_new(), init_finished: false }
    }

    /// Ends the initialization phase. Returns `true` the first time, then
    /// `false`, and never touches the regions.
    pub fn mark_init_finished(&mut self) -> (r: bool)
        ensures
            final(self).entries() == old(self).entries(),
            final(self).spec_init_finished(),
            r == !old(self).spec_init_finished(),
    {
        if self.init_finished {
            false
        } else {
            self.init_finished = true;
            true
        }
    }

    /// Whether the initialization phase is over.
    pub fn is_init_finished(&self) -> (r: bool)
        ensures
            r == self.spec_init_finished(),
    {
        self.init_finished
    }

    /// Forgets every region and restarts the initialization phase.
    pub fn clear(&mut self)
        ensures
            final(self).wf(),
            final(self).entries() == no_entries(),
            !final(self).spec_init_finished(),
    {
        self.regions = tree_new();
        self.init_finished = false;
    }

    /// Records a new region. Fails, leaving the map unchanged, when the
    /// range is empty or its page-rounding overlaps a stored region;
    /// otherwise inserts the rounded range with the given state.
    pub fn add_region(&mut self, range: Range, state: State) -> (r: bool)
        requires
            old(self).wf(),
            range.start + range.len + 0xFFF <= usize::MAX,
        ensures
            final(self).wf(),
            final(self).spec_init_finished() == old(self).spec_init_finished(),
            ({
                let lo = page_down(range.start as int);
                let hi = page_up(range.spec_end());
                &&& r == (range.len != 0 && (forall|k: int| #[trigger]
                    old(self).entries().dom().contains(k) ==> !overlaps(
                        k,
                        old(self).entries()[k].0,
                        lo,
                        hi,
                    )))
                &&& (r ==> final(self).entries() == old(self).entries().insert(lo, (hi, state)))
                &&& (!r ==> final(self).entries() == old(self).entries())
            }),
    {
        if range.len == 0 {
            return false;
        }
        let mut rounded = range;
        rounded.round_to_4k();
        proof {
            lemma_page_down(range.start as int);
            lemma_page_up(range.spec_end());
        }
        let lo = rounded.start;
        let hi = rounded.start + rounded.len;
        match tree_first_in(&self.regions, lo, hi) {
            Some(_) => false,
            None => {
                tree_insert(&mut self.regions, lo, hi, state);
                true
            },
        }
    }
    /// Finds the stored region with the lowest start among those sharing an
    /// address with the needle, which is not rounded. Zero-length needles
    /// are disallowed.
    pub fn find_overlapping_region(&self, needle: Range) -> (r: Option<MemRegion>)
        requires
            self.wf(),
            needle.len >= 1,
            needle.start + needle.len <= usize::MAX,
        ensures
            match r {
                None => forall|k: int| #[trigger]
                    self.entries().dom().contains(k) ==> !overlaps(
                        k,
                        self.entries()[k].0,
                        needle.start as int,
                        needle.spec_end(),
                    ),
                Some(reg) => {
                    &&& self.entries().dom().contains(reg.range.start as int)
                    &&& self.entries()[reg.range.start as int] == (reg.range.spec_end(), reg.state)
                    &&& overlaps(
                        reg.range.start as int,
                        reg.range.spec_end(),
                        needle.start as int,
                        needle.spec_end(),
                    )
                    &&& forall|k: int| #[trigger]
                        self.entries().dom().contains(k) && overlaps(
                            k,
                            self.entries()[k].0,
                            needle.start as int,
                            needle.spec_end(),
                        ) ==> k >= reg.range.start as int
                },
            },
    {
        match tree_first_in(&self.regions, needle.start, needle.start + needle.len) {
            None => None,
            Some((s, e, st)) => Some(MemRegion { range: Range { start: s, len: e - s }, state: st }),
        }
    }

    /// Finds the stored region whose span is exactly the needle, which is
    /// not rounded. Zero-length needles are disallowed.
    pub fn find_region_exact(&self, needle: Range) -> (r: Option<MemRegion>)
        requires
            self.wf(),
            needle.len >= 1,
            needle.start + needle.len <= usize::MAX,
        ensures
            r == (if self.entries().dom().contains(needle.start as int) && self.entries()[
                needle.start as int
            ].0 == needle.spec_end() {
                Some(
                    MemRegion {
                        range: needle,
                        state: self.entries()[needle.start as int].1,
                    },
                )
            } else {
                None::<MemRegion>
            }),
    {
        let found = self.find_overlapping_region(needle);
        match found {
            None => None,
            Some(reg) => {
                if reg.range.start == needle.start && reg.range.len == needle.len {
                    Some(reg)
                } else {
                    proof {
                        if self.entries().dom().contains(needle.start as int) && self.entries()[
                            needle.start as int
                        ].0 == needle.spec_end() {
                            let rs = reg.range.start as int;
                            assert(overlaps(
                                needle.start as int,
                                needle.spec_end(),
                                needle.start as int,
                                needle.spec_end(),
                            ));
                            assert(rs >= needle.start as int);
                            if rs != needle.start as int {
                                assert(!overlaps(
                                    rs,
                                    self.entries()[rs].0,
                                    needle.start as int,
                                    self.entries()[needle.start as int].0,
                                ));
                                assert(false);
                            }
                        }
                    }
                    None
                }
            },
        }
    }

    /// Finds the stored region containing the given address, querying with
    /// a one-byte needle since zero-length queries are disallowed.
    pub fn find_region_containing_addr(&self, needle: usize) -> (r: Option<MemRegion>)
        requires
            self.wf(),
            needle < usize::MAX,
        ensures
            match r {
                None => forall|k: int| #[trigger]
                    self.entries().dom().contains(k) ==> !(k <= needle as int && (needle as int)
                        < self.entries()[k].0),
                Some(reg) => {
                    &&& self.entries().dom().contains(reg.range.start as int)
                    &&& self.entries()[reg.range.start as int] == (reg.range.spec_end(), reg.state)
                    &&& reg.range.start as int <= needle as int
                    &&& (needle as int) < reg.range.spec_end()
                },
            },
    {
        self.find_overlapping_region(Range { start: needle, len: 1 })
    }

    /// Collects the stored regions sharing an address with `[lo, hi)`, in
    /// increasing order, each as its start, end and state.
    fn overlapping_entries(&self, lo: usize, hi: usize) -> (r: Vec<(usize, usize, State)>)
        requires
            self.wf(),
            lo < hi,
        ensures
            forall|i: int|
                0 <= i < r@.len() ==> {
                    &&& self.entries().dom().contains(#[trigger] r@[i].0 as int)
                    &&& self.entries()[r@[i].0 as int] == (r@[i].1 as int, r@[i].2)
                    &&& overlaps(r@[i].0 as int, r@[i].1 as int, lo as int, hi as int)
                },
            forall|i: int, j: int|
                0 <= i < j < r@.len() ==> #[trigger] r@[i].1 <= #[trigger] r@[j].0,
            forall|k: int| #[trigger]
                self.entries().dom().contains(k) && overlaps(
                    k,
                    self.entries()[k].0,
                    lo as int,
                    hi as int,
                ) ==> exists|i: int| 0 <= i < r@.len() && #[trigger] r@[i].0 as int == k,
    {
        let ghost m = self.entries();
        let mut out: Vec<(usize, usize, State)> = Vec::new();
        let mut cur: usize = lo;
        let mut more = true;
        while more
            invariant
                self.wf(),
                m == self.entries(),
                lo <= cur <= hi,
                more ==> cur < hi,
                forall|i: int|
                    0 <= i < out@.len() ==> {
                        &&& m.dom().contains(#[trigger] out@[i].0 as int)
                        &&& m[out@[i].0 as int] == (out@[i].1 as int, out@[i].2)
                        &&& overlaps(out@[i].0 as int, out@[i].1 as int, lo as int, hi as int)
                    },
                more ==> forall|i: int| 0 <= i < out@.len() ==> #[trigger] out@[i].1 <= cur,
                more && out@.len() > 0 ==> out@[out@.len() - 1].1 == cur,
                forall|i: int, j: int|
                    0 <= i < j < out@.len() ==> #[trigger] out@[i].1 <= #[trigger] out@[j].0,
                forall|k: int| #[trigger]
                    m.dom().contains(k) && overlaps(k, m[k].0, lo as int, hi as int) ==> (exists|
                        i: int,
                    |
                        0 <= i < out@.len() && #[trigger] out@[i].0 as int == k) || (more && m[k].0
                        > cur as int),
            decreases (hi - cur) as int + (if more {
                1int
            } else {
                0int
            }),
        {
            match tree_first_in(&self.regions, cur, hi) {
                None => {
                    proof {
                        assert forall|k: int|
                            m.dom().contains(k) && overlaps(
                                k,
                                m[k].0,
                                lo as int,
                                hi as int,
                            ) implies (exists|i: int|
                            0 <= i < out@.len() && #[trigger] out@[i].0 as int == k) by {
                            if m[k].0 > cur as int {
                                assert(overlaps(k, m[k].0, cur as int, hi as int));
                                assert(false);
                            }
                        }
                    }
                    more = false;
                },
                Some((s, e, st)) => {
                    proof {
                        if out@.len() > 0 {
                            let last = out@[out@.len() - 1];
                            if (s as int) < cur as int {
                                assert(m.dom().contains(last.0 as int));
                                assert(m[last.0 as int].0 == cur as int);
                                if s as int == last.0 as int {
                                    assert(e as int == cur as int);
                                    assert(false);
                                } else {
                                    assert(overlaps(
                                        s as int,
                                        e as int,
                                        last.0 as int,
                                        cur as int,
                                    ));
                                    assert(false);
                                }
                            }
                        }
                    }
    let ghost out0 = out@;
                    out.push((s, e, st));
                    proof {
                        assert(out@ == out0.push((s, e, st)));
                        assert(out@[out@.len() - 1].0 as int == s as int);
                        assert forall|k: int|
                            m.dom().contains(k) && overlaps(
                                k,
                                m[k].0,
                                lo as int,
                                hi as int,
                            ) implies (exists|i: int|
                            0 <= i < out@.len() && #[trigger] out@[i].0 as int == k) || (m[k].0
                            > e as int && (e as int) < hi as int) by {
                            if k == s as int {
                                assert(0 <= out@.len() - 1 < out@.len() && out@[out@.len()
                                    - 1].0 as int == k);
                            } else if !(exists|i: int|
                                0 <= i < out@.len() && #[trigger] out@[i].0 as int == k) {
                                if exists|i: int|
                                    0 <= i < out0.len() && #[trigger] out0[i].0 as int == k {
                                    let i = choose|i: int|
                                        0 <= i < out0.len() && #[trigger] out0[i].0 as int == k;
                                    assert(out@[i].0 as int == k);
                                    assert(false);
                                }
                                assert(m[k].0 > cur as int);
                                assert(overlaps(k, m[k].0, cur as int, hi as int));
                                assert(k >= s as int);
                                assert(!overlaps(k, m[k].0, s as int, e as int));
                                assert(k >= e as int);
                                assert(m[k].0 > e as int);
                                assert(k < hi as int);
                            }
                        }
                    }
                    if e < hi {
                        cur = e;
                    } else {
                        cur = hi;
                        more = false;
                    }
                },
            }
        }
        out
    }

    /// The stored regions sharing an address with the needle, in increasing
    /// order. The needle is not rounded; zero-length needles are disallowed.
    pub fn overlapping_regions(&self, needle: Range) -> (r: Vec<MemRegion>)
        requires
            self.wf(),
            needle.len >= 1,
            needle.start + needle.len <= usize::MAX,
        ensures
            forall|i: int|
                0 <= i < r@.len() ==> {
                    &&& self.entries().dom().contains(#[trigger] r@[i].range.start as int)
                    &&& self.entries()[r@[i].range.start as int] == (
                        r@[i].range.spec_end(),
                        r@[i].state,
                    )
                    &&& overlaps(
                        r@[i].range.start as int,
                        r@[i].range.spec_end(),
                        needle.start as int,
                        needle.spec_end(),
                    )
                },
            forall|i: int, j: int|
                0 <= i < j < r@.len() ==> #[trigger] r@[i].range.spec_end()
                    <= #[trigger] r@[j].range.start as int,
            forall|k: int| #[trigger]
                self.entries().dom().contains(k) && overlaps(
                    k,
                    self.entries()[k].0,
                    needle.start as int,
                    needle.spec_end(),
                ) ==> exists|i: int| 0 <= i < r@.len() && #[trigger] r@[i].range.start as int == k,
    {
        let raw = self.overlapping_entries(needle.start, needle.start + needle.len);
        let mut out: Vec<MemRegion> = Vec::new();
        let mut i: usize = 0;
        while i < raw.len()
            invariant
                self.wf(),
                i <= raw.len(),
                out@.len() == i as int,
                forall|j: int|
                    0 <= j < raw@.len() ==> {
                        &&& self.entries().dom().contains(#[trigger] raw@[j].0 as int)
                        &&& self.entries()[raw@[j].0 as int] == (raw@[j].1 as int, raw@[j].2)
                    },
                forall|j: int|
                    0 <= j < i as int ==> #[trigger] out@[j] == (MemRegion {
                        range: Range {
                            start: raw@[j].0,
                            len: (raw@[j].1 - raw@[j].0) as usize,
                        },
                        state: raw@[j].2,
                    }),
            decreases raw.len() - i,
        {
            let (s, e, st) = raw[i];
            out.push(MemRegion { range: Range { start: s, len: e - s }, state: st });
            i += 1;
        }
        proof {
            assert forall|k: int| #[trigger]
                self.entries().dom().contains(k) && overlaps(
                    k,
                    self.entries()[k].0,
                    needle.start as int,
                    needle.spec_end(),
                ) implies exists|i: int|
                0 <= i < out@.len() && #[trigger] out@[i].range.start as int == k by {
                let j = choose|j: int| 0 <= j < raw@.len() && #[trigger] raw@[j].0 as int == k;
                assert(out@[j].range.start as int == k);
            }
        }
        out
    }

    /// Whether some address of the page-rounded needle lies outside every
    /// stored region.
    pub fn contains_holes(&self, needle: Range) -> (r: bool)
        requires
            self.wf(),
            needle.len >= 1,
            needle.start + needle.len + 0xFFF <= usize::MAX,
        ensures
            r == !spec_fully_covered(
                self.entries(),
                page_down(needle.start as int),
                page_up(needle.spec_end()),
            ),
    {
        let mut rounded = needle;
        rounded.round_to_4k();
        proof {
            lemma_page_down(needle.start as int);
            lemma_page_up(needle.spec_end());
        }
        let lo = rounded.start;
        let hi = rounded.start + rounded.len;
        let ghost m = self.entries();
        let mut cur: usize = lo;
        while cur < hi
            invariant
                self.wf(),
                m == self.entries(),
                lo as int == page_down(needle.start as int),
                hi as int == page_up(needle.spec_end()),
                lo <= cur <= hi,
                forall|a: int| lo as int <= a < cur as int ==> #[trigger] covered_at(m, a),
            decreases hi - cur,
        {
            match tree_first_in(&self.regions, cur, hi) {
                None => {
                    proof {
                        assert(!covered_at(m, cur as int)) by {
                            if covered_at(m, cur as int) {
                                let k = choose|k: int|
                                    #[trigger] m.dom().contains(k) && k <= cur as int && (cur as int) < m[k].0;
                                assert(overlaps(k, m[k].0, cur as int, hi as int));
                            }
                        }
                        assert(lo as int <= cur as int && (cur as int) < hi as int);
                        assert(!spec_fully_covered(m, lo as int, hi as int));
                    }
                    return true;
                },
                Some((s, e, _)) => {
                    if s > cur {
                        proof {
                            assert(!covered_at(m, cur as int)) by {
                                if covered_at(m, cur as int) {
                                    let k = choose|k: int|
                                        #[trigger] m.dom().contains(k) && k <= cur as int && (cur as int) < m[k].0;
                                    assert(overlaps(k, m[k].0, cur as int, hi as int));
                                    assert(k >= s as int);
                                }
                            }
                            assert(lo as int <= cur as int && (cur as int) < hi as int);
                            assert(!spec_fully_covered(m, lo as int, hi as int));
                        }
                        return true;
                    }
                    proof {
                        assert forall|a: int| cur as int <= a < e as int implies #[trigger]
                            covered_at(m, a) by {
                            assert(m.dom().contains(s as int) && s as int <= a < m[s as int].0);
                        }
                    }
                    if e >= hi {
                        return false;
                    }
                    cur = e;
                },
            }
        }
        false
    }

    /// Removes the stored region whose span is exactly the needle and
    /// returns it, or does nothing when there is none.
    pub fn remove_region(&mut self, needle: Range) -> (r: Option<MemRegion>)
        requires
            old(self).wf(),
            needle.len >= 1,
            needle.start + needle.len <= usize::MAX,
        ensures
            final(self).wf(),
            final(self).spec_init_finished() == old(self).spec_init_finished(),
            r == (if old(self).entries().dom().contains(needle.start as int) && old(self).entries()[
                needle.start as int
            ].0 == needle.spec_end() {
                Some(
                    MemRegion {
                        range: needle,
                        state: old(self).entries()[needle.start as int].1,
                    },
                )
            } else {
                None::<MemRegion>
            }),
            (r is Some) ==> final(self).entries() == old(self).entries().remove(
                needle.start as int,
            ),
            (r is None) ==> final(self).entries() == old(self).entries(),
    {
        let found = self.find_region_exact(needle);
        match found {
            None => None,
            Some(reg) => {
                let _ = tree_remove_at(&mut self.regions, needle.start);
                Some(reg)
            },
        }
    }
    /// Splits the page-rounded subrange out of every stored region: each
    /// region meeting it is removed, its parts outside the subrange are
    /// re-inserted with unchanged state, and the removed slices inside the
    /// subrange are returned in increasing order.
    #[verifier::rlimit(100)]
    pub fn split_out_region(&mut self, subrange: Range) -> (r: Vec<MemRegion>)
        requires
            old(self).wf(),
            subrange.len >= 1,
            subrange.start + subrange.len + 0xFFF <= usize::MAX,
        ensures
            final(self).wf(),
            final(self).spec_init_finished() == old(self).spec_init_finished(),
            ({
                let lo = page_down(subrange.start as int);
                let hi = page_up(subrange.spec_end());
                let m = old(self).entries();
                &&& final(self).entries() == carve(m, lo, hi)
                &&& forall|i: int|
                    0 <= i < r@.len() ==> #[trigger] slice_from(m, lo, hi, r@[i])
                &&& forall|i: int, j: int|
                    0 <= i < j < r@.len() ==> #[trigger] r@[i].range.spec_end()
                        <= #[trigger] r@[j].range.start as int
                &&& forall|k: int| #[trigger]
                    m.dom().contains(k) && overlaps(k, m[k].0, lo, hi) ==> exists|i: int|
                        0 <= i < r@.len() && #[trigger] r@[i].range.start as int == max_int(k, lo)
            }),
    {
        let mut rounded = subrange;
        rounded.round_to_4k();
        proof {
            lemma_page_down(subrange.start as int);
            lemma_page_up(subrange.spec_end());
        }
        let lo = rounded.start;
        let hi = rounded.start + rounded.len;
        let ghost m = self.entries();
        let ghost glo = lo as int;
        let ghost ghi = hi as int;
        let ghost fin = self.spec_init_finished();
        let raw = self.overlapping_entries(lo, hi);
        let mut slices: Vec<MemRegion> = Vec::new();
        let mut i: usize = 0;
        while i < raw.len()
            invariant
                0 <= i <= raw.len(),
                glo == lo as int && ghi == hi as int,
                glo < ghi <= usize::MAX,
                entries_disjoint(m),
                self.spec_init_finished() == fin,
                raw_overlap_facts(m, raw@, glo, ghi),
                carve_loop_inv(m, self.entries(), raw@, i as int, glo, ghi),
                slices@.len() == i as int,
                forall|j: int|
                    0 <= j < i as int ==> {
                        &&& #[trigger] slices@[j].range.start as int == max_int(
                            raw@[j].0 as int,
                            glo,
                        )
                        &&& slices@[j].range.spec_end() == min_int(raw@[j].1 as int, ghi)
                        &&& slices@[j].state == raw@[j].2
                    },
            decreases raw.len() - i,
        {
            let (s, e, st) = raw[i];
            let ghost prev = self.entries();
            proof {
                assert(m.dom().contains(s as int) && m[s as int] == (e as int, st));
                assert(prev.dom().contains(s as int) && prev[s as int] == m[s as int]);
                assert(s < e);
            }
            tree_remove_at(&mut self.regions, s);
            if s < lo {
                tree_insert(&mut self.regions, s, lo, st);
            }
            if e > hi {
                tree_insert(&mut self.regions, hi, e, st);
            }
            proof {
                assert(self.entries() == carve_step_map(prev, s as int, e as int, st, glo, ghi));
                lemma_carve_step(m, prev, self.entries(), raw@, i as int, glo, ghi);
            }
            let cs = if s < lo {
                lo
            } else {
                s
            };
            let ce = if e < hi {
                e
            } else {
                hi
            };
            slices.push(MemRegion { range: Range { start: cs, len: ce - cs }, state: st });
            proof {
                assert(slices@[i as int].range.start as int == max_int(raw@[i as int].0 as int, glo));
                assert(slices@[i as int].range.spec_end() == min_int(raw@[i as int].1 as int, ghi));
                assert(slices@[i as int].state == raw@[i as int].2);
            }
            i += 1;
        }
        proof {
            lemma_carve_finish(m, self.entries(), raw@, glo, ghi);
            lemma_carve_wf(m, glo, ghi);
            lemma_slices_describe(m, raw@, slices@, glo, ghi);
        }
        slices
    }

    /// Removes the page-rounded range from the map. Fails, changing
    /// nothing, when the range is empty or not fully covered by stored
    /// regions; otherwise splits the range out and drops its slices.
    pub fn unmap_region(&mut self, needle: Range) -> (r: bool)
        requires
            old(self).wf(),
            needle.start + needle.len + 0xFFF <= usize::MAX,
        ensures
            final(self).wf(),
            final(self).spec_init_finished() == old(self).spec_init_finished(),
            ({
                let lo = page_down(needle.start as int);
                let hi = page_up(needle.spec_end());
                let m = old(self).entries();
                &&& r == (needle.len != 0 && spec_fully_covered(m, lo, hi))
                &&& (r ==> final(self).entries() == carve(m, lo, hi))
                &&& (!r ==> final(self).entries() == m)
            }),
    {
        if needle.len == 0 {
            return false;
        }
        if self.contains_holes(needle) {
            return false;
        }
        let _ = self.split_out_region(needle);
        true
    }

    /// Applies a `pkey_mprotect` of `pkey` to the page-rounded range.
    /// Fails, changing nothing, when the range is empty, not fully covered,
    /// or — once initialization is finished — when some covered region is
    /// already pkey-protected or owned by another key. On success every
    /// covered slice is marked pkey-protected and, when it was unclaimed or
    /// initialization is still running, handed to `pkey`.
    pub fn pkey_mprotect_region(&mut self, range: Range, pkey: u8) -> (r: bool)
        requires
            old(self).wf(),
            range.start + range.len + 0xFFF <= usize::MAX,
        ensures
            final(self).wf(),
            final(self).spec_init_finished() == old(self).spec_init_finished(),
            ({
                let lo = page_down(range.start as int);
                let hi = page_up(range.spec_end());
                let m = old(self).entries();
                let fin = old(self).spec_init_finished();
                &&& r == (range.len != 0 && spec_fully_covered(m, lo, hi) && (fin
                    ==> (forall|k: int| #[trigger]
                        m.dom().contains(k) && overlaps(k, m[k].0, lo, hi)
                            ==> !m[k].1.pkey_mprotected && (m[k].1.owner_pkey == 0
                            || m[k].1.owner_pkey == pkey))))
                &&& (r ==> final(self).entries() == reprotected(
                    m,
                    lo,
                    hi,
                    (|st: State| pkey_applied(st, pkey, fin)),
                ))
                &&& (!r ==> final(self).entries() == m)
            }),
    {
        let ghost m = self.entries();
        let ghost fin = self.spec_init_finished();
        if range.len == 0 {
            return false;
        }
        if self.contains_holes(range) {
            return false;
        }
        let mut rounded = range;
        rounded.round_to_4k();
        proof {
            lemma_page_down(range.start as int);
            lemma_page_up(range.spec_end());
        }
        let ghost glo = rounded.start as int;
        let ghost ghi = rounded.start as int + rounded.len as int;
        let was_fin = self.is_init_finished();
        if was_fin {
            let regs = self.overlapping_regions(rounded);
            let mut idx: usize = 0;
            while idx < regs.len()
                invariant
                    idx <= regs.len(),
                    self.wf(),
                    m == self.entries(),
                    fin == self.spec_init_finished(),
                    fin,
                    glo == page_down(range.start as int),
                    ghi == page_up(range.spec_end()),
                    forall|i: int|
                        0 <= i < regs@.len() ==> {
                            &&& m.dom().contains(#[trigger] regs@[i].range.start as int)
                            &&& m[regs@[i].range.start as int] == (
                                regs@[i].range.spec_end(),
                                regs@[i].state,
                            )
                            &&& overlaps(
                                regs@[i].range.start as int,
                                regs@[i].range.spec_end(),
                                glo,
                                ghi,
                            )
                        },
                    forall|k: int| #[trigger]
                        m.dom().contains(k) && overlaps(k, m[k].0, glo, ghi) ==> exists|i: int|
                            0 <= i < regs@.len() && #[trigger] regs@[i].range.start as int == k,
                    forall|i: int|
                        0 <= i < idx as int ==> !(#[trigger] regs@[i].state).pkey_mprotected && (
                        regs@[i].state.owner_pkey == 0 || regs@[i].state.owner_pkey == pkey),
                decreases regs.len() - idx,
            {
                let st = regs[idx].state;
                if st.pkey_mprotected || (st.owner_pkey != 0 && st.owner_pkey != pkey) {
                    proof {
                        let bad = regs@[idx as int].range.start as int;
                        assert(m.dom().contains(bad));
                        assert(m[bad] == (regs@[idx as int].range.spec_end(), st));
                        assert(overlaps(bad, m[bad].0, glo, ghi));
                        assert(m[bad].1.pkey_mprotected || !(m[bad].1.owner_pkey == 0
                            || m[bad].1.owner_pkey == pkey));
                    }
                    return false;
                }
                idx += 1;
            }
            proof {
                assert forall|k: int| #[trigger]
                    m.dom().contains(k) && overlaps(k, m[k].0, glo, ghi) implies !m[k].1.pkey_mprotected
                    && (m[k].1.owner_pkey == 0 || m[k].1.owner_pkey == pkey) by {
                    let i = choose|i: int|
                        0 <= i < regs@.len() && #[trigger] regs@[i].range.start as int == k;
                    assert(regs@[i].state == m[k].1);
                }
            }
        }
        let slices = self.split_out_region(range);
        self.reinsert_pkey(Ghost(m), Ghost(glo), Ghost(ghi), slices, pkey, was_fin);
        true
    }

    /// Puts the slices of a just-split range back with `pkey_mprotect`
    /// applied.
    fn reinsert_pkey(
        &mut self,
        Ghost(m): Ghost<Map<int, (int, State)>>,
        Ghost(glo): Ghost<int>,
        Ghost(ghi): Ghost<int>,
        slices: Vec<MemRegion>,
        pkey: u8,
        was_fin: bool,
    )
        requires
            old(self).wf(),
            entries_disjoint(m),
            glo % 4096 == 0,
            ghi % 4096 == 0,
            glo < ghi <= usize::MAX,
            forall|k: int| #[trigger] m.dom().contains(k) ==> k % 4096 == 0 && m[k].0 % 4096 == 0,
            old(self).entries() == carve(m, glo, ghi),
            forall|i: int| 0 <= i < slices@.len() ==> #[trigger] slice_from(m, glo, ghi, slices@[i]),
            forall|i: int, j: int|
                0 <= i < j < slices@.len() ==> #[trigger] slices@[i].range.spec_end()
                    <= #[trigger] slices@[j].range.start as int,
            forall|k: int| #[trigger]
                m.dom().contains(k) && overlaps(k, m[k].0, glo, ghi) ==> exists|i: int|
                    0 <= i < slices@.len() && #[trigger] slices@[i].range.start as int == max_int(
                        k,
                        glo,
                    ),
            old(self).spec_init_finished() == was_fin,
        ensures
            final(self).wf(),
            final(self).spec_init_finished() == old(self).spec_init_finished(),
            final(self).entries() == reprotected(
                m,
                glo,
                ghi,
                (|st: State| pkey_applied(st, pkey, was_fin)),
            ),
    {
        let ghost f: spec_fn(State) -> State = |st: State| pkey_applied(st, pkey, was_fin);
        let ghost c = carve(m, glo, ghi);
        let mut j: usize = 0;
        while j < slices.len()
            invariant
                j <= slices.len(),
                self.wf(),
                self.spec_init_finished() == was_fin,
                entries_disjoint(m),
                glo % 4096 == 0 && ghi % 4096 == 0,
                glo < ghi <= usize::MAX,
                forall|k: int| #[trigger]
                    m.dom().contains(k) ==> k % 4096 == 0 && m[k].0 % 4096 == 0,
                c == carve(m, glo, ghi),
                f == (|st: State| pkey_applied(st, pkey, was_fin)),
                forall|i: int|
                    0 <= i < slices@.len() ==> #[trigger] slice_from(m, glo, ghi, slices@[i]),
                forall|i1: int, i2: int|
                    0 <= i1 < i2 < slices@.len() ==> #[trigger] slices@[i1].range.spec_end()
                        <= #[trigger] slices@[i2].range.start as int,
                forall|x: int| #[trigger]
                    c.dom().contains(x) ==> self.entries().dom().contains(x) && self.entries()[x]
                        == c[x],
                forall|i: int|
                    0 <= i < j as int ==> self.entries().dom().contains(
                        #[trigger] slices@[i].range.start as int,
                    ) && self.entries()[slices@[i].range.start as int] == (
                        slices@[i].range.spec_end(),
                        f(slices@[i].state),
                    ),
                forall|x: int| #[trigger]
                    self.entries().dom().contains(x) ==> c.dom().contains(x) || (exists|i: int|
                        0 <= i < j as int && #[trigger] slices@[i].range.start as int == x),
            decreases slices.len() - j,
        {
            let sl = slices[j];
            proof {
                assert(slice_from(m, glo, ghi, sl));
                let k = choose|k: int|
                    {
                        &&& #[trigger] m.dom().contains(k)
                        &&& overlaps(k, m[k].0, glo, ghi)
                        &&& sl.range.start as int == max_int(k, glo)
                        &&& sl.range.spec_end() == min_int(m[k].0, ghi)
                        &&& sl.state == m[k].1
                    };
                assert(sl.range.start as int % 4096 == 0);
                assert(sl.range.spec_end() % 4096 == 0);
                assert(glo <= sl.range.start as int && (sl.range.start as int) < sl.range.spec_end()
                    <= ghi);
                lemma_page_aligned_fixed(sl.range.start as int);
                lemma_page_aligned_fixed(sl.range.spec_end());
            }
            let mut new_st = sl.state;
            new_st.pkey_mprotected = true;
            if new_st.owner_pkey == 0 || !was_fin {
                new_st.owner_pkey = pkey;
            }
            proof {
                assert(new_st == pkey_applied(sl.state, pkey, was_fin));
                assert(new_st == f(sl.state));
                lemma_carve_avoids(m, glo, ghi);
                assert forall|x: int| #[trigger]
                    self.entries().dom().contains(x) implies !overlaps(
                    x,
                    self.entries()[x].0,
                    page_down(sl.range.start as int),
                    page_up(sl.range.spec_end()),
                ) by {
                    if c.dom().contains(x) {
                        assert(!overlaps(x, c[x].0, glo, ghi));
                    } else {
                        let i = choose|i: int|
                            0 <= i < j as int && #[trigger] slices@[i].range.start as int == x;
                        assert(slices@[i].range.spec_end() <= slices@[j as int].range.start as int);
                    }
                }
            }
            let added = self.add_region(sl.range, new_st);
            proof {
                assert(added);
            }
            j += 1;
        }
        proof {
            lemma_reinsert_finish(m, self.entries(), slices@, glo, ghi, f);
        }
    }

    /// Applies an `mprotect` of `prot` to the page-rounded range. Fails,
    /// changing nothing, when the range is empty or not fully covered;
    /// otherwise every covered slice is marked protected with the new bits.
    pub fn mprotect_region(&mut self, range: Range, prot: u32) -> (r: bool)
        requires
            old(self).wf(),
            range.start + range.len + 0xFFF <= usize::MAX,
        ensures
            final(self).wf(),
            final(self).spec_init_finished() == old(self).spec_init_finished(),
            ({
                let lo = page_down(range.start as int);
                let hi = page_up(range.spec_end());
                let m = old(self).entries();
                &&& r == (range.len != 0 && spec_fully_covered(m, lo, hi))
                &&& (r ==> final(self).entries() == reprotected(
                    m,
                    lo,
                    hi,
                    (|st: State| prot_applied(st, prot)),
                ))
                &&& (!r ==> final(self).entries() == m)
            }),
    {
        let ghost m = self.entries();
        if range.len == 0 {
            return false;
        }
        if self.contains_holes(range) {
            return false;
        }
        let mut rounded = range;
        rounded.round_to_4k();
        proof {
            lemma_page_down(range.start as int);
            lemma_page_up(range.spec_end());
        }
        let ghost glo = rounded.start as int;
        let ghost ghi = rounded.start as int + rounded.len as int;
        let slices = self.split_out_region(range);
        let ghost f: spec_fn(State) -> State = |st: State| prot_applied(st, prot);
        let ghost c = carve(m, glo, ghi);
        let mut j: usize = 0;
        while j < slices.len()
            invariant
                j <= slices.len(),
                self.wf(),
                self.spec_init_finished() == old(self).spec_init_finished(),
                entries_disjoint(m),
                glo % 4096 == 0 && ghi % 4096 == 0,
                glo < ghi <= usize::MAX,
                forall|k: int| #[trigger]
                    m.dom().contains(k) ==> k % 4096 == 0 && m[k].0 % 4096 == 0,
                c == carve(m, glo, ghi),
                f == (|st: State| prot_applied(st, prot)),
                forall|i: int|
                    0 <= i < slices@.len() ==> #[trigger] slice_from(m, glo, ghi, slices@[i]),
                forall|i1: int, i2: int|
                    0 <= i1 < i2 < slices@.len() ==> #[trigger] slices@[i1].range.spec_end()
                        <= #[trigger] slices@[i2].range.start as int,
                forall|x: int| #[trigger]
                    c.dom().contains(x) ==> self.entries().dom().contains(x) && self.entries()[x]
                        == c[x],
                forall|i: int|
                    0 <= i < j as int ==> self.entries().dom().contains(
                        #[trigger] slices@[i].range.start as int,
                    ) && self.entries()[slices@[i].range.start as int] == (
                        slices@[i].range.spec_end(),
                        f(slices@[i].state),
                    ),
                forall|x: int| #[trigger]
                    self.entries().dom().contains(x) ==> c.dom().contains(x) || (exists|i: int|
                        0 <= i < j as int && #[trigger] slices@[i].range.start as int == x),
            decreases slices.len() - j,
        {
            let sl = slices[j];
            proof {
                assert(slice_from(m, glo, ghi, sl));
                let k = choose|k: int|
                    {
                        &&& #[trigger] m.dom().contains(k)
                        &&& overlaps(k, m[k].0, glo, ghi)
                        &&& sl.range.start as int == max_int(k, glo)
                        &&& sl.range.spec_end() == min_int(m[k].0, ghi)
                        &&& sl.state == m[k].1
                    };
                assert(sl.range.start as int % 4096 == 0);
                assert(sl.range.spec_end() % 4096 == 0);
                assert(glo <= sl.range.start as int && (sl.range.start as int) < sl.range.spec_end()
                    <= ghi);
                lemma_page_aligned_fixed(sl.range.start as int);
                lemma_page_aligned_fixed(sl.range.spec_end());
            }
            let mut new_st = sl.state;
            new_st.mprotected = true;
            new_st.prot = prot;
            proof {
                assert(new_st == prot_applied(sl.state, prot));
                assert(new_st == f(sl.state));
                lemma_carve_avoids(m, glo, ghi);
                assert forall|x: int| #[trigger]
                    self.entries().dom().contains(x) implies !overlaps(
                    x,
                    self.entries()[x].0,
                    page_down(sl.range.start as int),
                    page_up(sl.range.spec_end()),
                ) by {
                    if c.dom().contains(x) {
                        assert(!overlaps(x, c[x].0, glo, ghi));
                    } else {
                        let i = choose|i: int|
                            0 <= i < j as int && #[trigger] slices@[i].range.start as int == x;
                        assert(slices@[i].range.spec_end() <= slices@[j as int].range.start as int);
                    }
                }
            }
            let added = self.add_region(sl.range, new_st);
            proof {
                assert(added);
            }
            j += 1;
        }
        proof {
            lemma_reinsert_finish(m, self.entries(), slices@, glo, ghi, f);
        }
        true
    }

    /// Carves the page-rounded subrange out and re-adds it as one region
    /// with the given owner and protection, keeping the protection history
    /// of the region it came from. Fails, changing nothing, unless exactly
    /// one stored region meets the subrange.
    pub fn split_region(&mut self, subrange: Range, owner_pkey: u8, prot: u32) -> (r: Option<
        MemRegion,
    >)
        requires
            old(self).wf(),
            subrange.len >= 1,
            subrange.start + subrange.len + 0xFFF <= usize::MAX,
        ensures
            final(self).wf(),
            final(self).spec_init_finished() == old(self).spec_init_finished(),
            ({
                let lo = page_down(subrange.start as int);
                let hi = page_up(subrange.spec_end());
                let m = old(self).entries();
                &&& (r is Some) == ((exists|k: int| #[trigger]
                    m.dom().contains(k) && overlaps(k, m[k].0, lo, hi)) && (forall|
                    k1: int,
                    k2: int,
                |
                    #[trigger] m.dom().contains(k1) && #[trigger] m.dom().contains(k2) && overlaps(
                        k1,
                        m[k1].0,
                        lo,
                        hi,
                    ) && overlaps(k2, m[k2].0, lo, hi) ==> k1 == k2))
                &&& (r matches Some(reg) ==> ({
                    let k = choose|k: int| #[trigger]
                        m.dom().contains(k) && overlaps(k, m[k].0, lo, hi);
                    let st = State {
                        owner_pkey,
                        prot,
                        pkey_mprotected: m[k].1.pkey_mprotected,
                        mprotected: m[k].1.mprotected,
                    };
                    &&& final(self).entries() == carve(m, lo, hi).insert(lo, (hi, st))
                    &&& reg == MemRegion { range: subrange, state: st }
                }))
                &&& (r is None ==> final(self).entries() == m)
            }),
    {
        let ghost m = self.entries();
        let mut rounded = subrange;
        rounded.round_to_4k();
        proof {
            lemma_page_down(subrange.start as int);
            lemma_page_up(subrange.spec_end());
        }
        let ghost glo = rounded.start as int;
        let ghost ghi = rounded.start as int + rounded.len as int;
        let regs = self.overlapping_regions(rounded);
        if regs.len() != 1 {
            proof {
                if regs@.len() == 0 {
                    if exists|k: int| #[trigger] m.dom().contains(k) && overlaps(
                        k,
                        m[k].0,
                        glo,
                        ghi,
                    ) {
                        let k = choose|k: int| #[trigger]
                            m.dom().contains(k) && overlaps(k, m[k].0, glo, ghi);
                        let i = choose|i: int|
                            0 <= i < regs@.len() && #[trigger] regs@[i].range.start as int == k;
                        assert(false);
                    }
                } else {
                    let a = regs@[0].range.start as int;
                    let b = regs@[1].range.start as int;
                    assert(regs@[0].range.spec_end() <= regs@[1].range.start as int);
                    assert(m.dom().contains(a) && overlaps(a, m[a].0, glo, ghi));
                    assert(m.dom().contains(b) && overlaps(b, m[b].0, glo, ghi));
                    assert(a < b);
                }
            }
            return None;
        }
        let found = regs[0];
        proof {
            assert forall|k1: int, k2: int|
                #[trigger] m.dom().contains(k1) && #[trigger] m.dom().contains(k2) && overlaps(
                    k1,
                    m[k1].0,
                    glo,
                    ghi,
                ) && overlaps(k2, m[k2].0, glo, ghi) implies k1 == k2 by {
                let i1 = choose|i: int|
                    0 <= i < regs@.len() && #[trigger] regs@[i].range.start as int == k1;
                let i2 = choose|i: int|
                    0 <= i < regs@.len() && #[trigger] regs@[i].range.start as int == k2;
                assert(i1 == 0 && i2 == 0);
            }
        }
        let slices = self.split_out_region(subrange);
        let new_st = State {
            owner_pkey,
            prot,
            pkey_mprotected: found.state.pkey_mprotected,
            mprotected: found.state.mprotected,
        };
        proof {
            lemma_carve_avoids(m, glo, ghi);
            lemma_page_aligned_fixed(glo);
            lemma_page_aligned_fixed(ghi);
            let k = choose|k: int| #[trigger] m.dom().contains(k) && overlaps(k, m[k].0, glo, ghi);
            assert(k == found.range.start as int);
            assert(m[k].1 == found.state);
        }
        let added = self.add_region(rounded, new_st);
        proof {
            assert(added);
        }
        Some(MemRegion { range: subrange, state: new_st })
    }
}

/// The facts `overlapping_entries` reports about its result: each element
/// is a stored region meeting `[glo, ghi)`, the elements are disjoint and
/// increasing, and every stored region meeting `[glo, ghi)` appears.
pub open spec fn raw_overlap_facts(
    m: Map<int, (int, State)>,
    raw: Seq<(usize, usize, State)>,
    glo: int,
    ghi: int,
) -> bool {
    &&& forall|j: int|
        0 <= j < raw.len() ==> {
            &&& m.dom().contains(#[trigger] raw[j].0 as int)
            &&& m[raw[j].0 as int] == (raw[j].1 as int, raw[j].2)
            &&& overlaps(raw[j].0 as int, raw[j].1 as int, glo, ghi)
        }
    &&& forall|j1: int, j2: int|
        0 <= j1 < j2 < raw.len() ==> #[trigger] raw[j1].1 <= #[trigger] raw[j2].0
    &&& forall|k: int| #[trigger]
        m.dom().contains(k) && overlaps(k, m[k].0, glo, ghi) ==> exists|j: int|
            0 <= j < raw.len() && #[trigger] raw[j].0 as int == k
}

/// The state of the carving loop after the first `i` overlapping regions
/// are processed: regions away from `[glo, ghi)` are intact, processed
/// regions survive only as their prefix below `glo` or suffix at `ghi`,
/// unprocessed regions are intact, and nothing else is stored.
pub open spec fn carve_loop_inv(
    m: Map<int, (int, State)>,
    cur: Map<int, (int, State)>,
    raw: Seq<(usize, usize, State)>,
    i: int,
    glo: int,
    ghi: int,
) -> bool {
    &&& forall|k: int| #[trigger]
        keeps_untouched(m, glo, ghi, k) ==> cur.dom().contains(k) && cur[k] == m[k]
    &&& forall|j: int|
        0 <= j < i && ((#[trigger] raw[j].0 as int) < glo) ==> cur.dom().contains(raw[j].0 as int)
            && cur[raw[j].0 as int] == (glo, raw[j].2)
    &&& forall|j: int|
        0 <= j < i && ((#[trigger] raw[j].0 as int) >= glo) ==> !cur.dom().contains(
            raw[j].0 as int,
        )
    &&& forall|j: int|
        0 <= j < i && ((#[trigger] raw[j].1 as int) > ghi) ==> cur.dom().contains(ghi) && cur[ghi]
            == (raw[j].1 as int, raw[j].2)
    &&& (!m.dom().contains(ghi) && !(exists|j: int|
        0 <= j < i && ((#[trigger] raw[j].1 as int) > ghi)) ==> !cur.dom().contains(ghi))
    &&& forall|j: int|
        i <= j < raw.len() ==> cur.dom().contains(#[trigger] raw[j].0 as int) && cur[raw[j].0 as int]
            == m[raw[j].0 as int]
    &&& forall|k: int| #[trigger]
        cur.dom().contains(k) ==> keeps_untouched(m, glo, ghi, k) || keeps_prefix(m, glo, ghi, k)
            || (k == ghi && (exists|j: int| 0 <= j < i && ((#[trigger] raw[j].1 as int) > ghi)))
            || (exists|j: int| i <= j < raw.len() && #[trigger] raw[j].0 as int == k)
}

/// One carving step as a map: the region at `s` is removed, its prefix
/// below `glo` and its suffix past `ghi` are put back.
pub open spec fn carve_step_map(
    prev: Map<int, (int, State)>,
    s: int,
    e: int,
    st: State,
    glo: int,
    ghi: int,
) -> Map<int, (int, State)> {
    let base = prev.remove(s);
    let with_prefix = if s < glo {
        base.insert(s, (glo, st))
    } else {
        base
    };
    if e > ghi {
        with_prefix.insert(ghi, (e, st))
    } else {
        with_prefix
    }
}

/// Processing one more overlapping region keeps the carving loop's state
/// description true.
proof fn lemma_carve_step(
    m: Map<int, (int, State)>,
    prev: Map<int, (int, State)>,
    now: Map<int, (int, State)>,
    raw: Seq<(usize, usize, State)>,
    i: int,
    glo: int,
    ghi: int,
)
    requires
        entries_disjoint(m),
        glo < ghi,
        raw_overlap_facts(m, raw, glo, ghi),
        carve_loop_inv(m, prev, raw, i, glo, ghi),
        0 <= i < raw.len(),
        now == carve_step_map(prev, raw[i].0 as int, raw[i].1 as int, raw[i].2, glo, ghi),
    ensures
        carve_loop_inv(m, now, raw, i + 1, glo, ghi),
{
    let s = raw[i].0 as int;
    let e = raw[i].1 as int;
    let st = raw[i].2;
    assert(m.dom().contains(s) && m[s] == (e, st));
    assert(s < e);
    assert(overlaps(s, e, glo, ghi));
    // The region being processed spans past ghi only when no stored region
    // begins at ghi and no earlier processed region also spans past it.
    if e > ghi {
        if m.dom().contains(ghi) {
            assert(ghi < m[ghi].0);
            assert(overlaps(s, m[s].0, ghi, m[ghi].0));
            assert(false);
        }
        assert forall|j: int| 0 <= j < i implies ((#[trigger] raw[j].1 as int) <= ghi) by {
            if (raw[j].1 as int) > ghi {
                assert(raw[j].1 <= raw[i].0);
                assert((raw[i].0 as int) < ghi);
            }
        }
    }
    // Strictly increasing starts: every other element differs from s.
    assert forall|j: int| 0 <= j < raw.len() && j != i implies #[trigger] raw[j].0 as int != s by {
        if j < i {
            assert(raw[j].1 <= raw[i].0);
            assert((raw[j].0 as int) < raw[j].1 as int);
        } else {
            assert(raw[i].1 <= raw[j].0);
            assert(s < e);
        }
    }
    assert forall|k: int| #[trigger]
        keeps_untouched(m, glo, ghi, k) implies now.dom().contains(k) && now[k] == m[k] by {
        assert(prev.dom().contains(k) && prev[k] == m[k]);
        assert(k != s);
        if e > ghi {
            assert(k != ghi);
        }
    }
    assert forall|j: int|
        0 <= j < i + 1 && ((#[trigger] raw[j].0 as int) < glo) implies now.dom().contains(
        raw[j].0 as int,
    ) && now[raw[j].0 as int] == (glo, raw[j].2) by {
        if j < i {
            assert(prev.dom().contains(raw[j].0 as int) && prev[raw[j].0 as int] == (
                glo,
                raw[j].2,
            ));
            assert(raw[j].0 as int != s);
            assert((raw[j].0 as int) < ghi);
        }
    }
    assert forall|j: int|
        0 <= j < i + 1 && ((#[trigger] raw[j].0 as int) >= glo) implies !now.dom().contains(
        raw[j].0 as int,
    ) by {
        if j < i {
            assert(!prev.dom().contains(raw[j].0 as int));
            assert(raw[j].0 as int != s);
        }
        assert((raw[j].0 as int) < ghi);
    }
    assert forall|j: int|
        0 <= j < i + 1 && ((#[trigger] raw[j].1 as int) > ghi) implies now.dom().contains(ghi)
        && now[ghi] == (raw[j].1 as int, raw[j].2) by {
        assert(j == i);
    }
    assert forall|j: int|
        i + 1 <= j < raw.len() implies now.dom().contains(#[trigger] raw[j].0 as int)
        && now[raw[j].0 as int] == m[raw[j].0 as int] by {
        assert(prev.dom().contains(raw[j].0 as int) && prev[raw[j].0 as int] == m[raw[j].0 as int]);
        assert(raw[j].0 as int != s);
        assert((raw[j].0 as int) < ghi);
    }
    assert forall|k: int| #[trigger]
        now.dom().contains(k) implies keeps_untouched(m, glo, ghi, k) || keeps_prefix(
        m,
        glo,
        ghi,
        k,
    ) || (k == ghi && (exists|j: int| 0 <= j < i + 1 && ((#[trigger] raw[j].1 as int) > ghi))) || (
    exists|j: int| i + 1 <= j < raw.len() && #[trigger] raw[j].0 as int == k) by {
        if e > ghi && k == ghi {
            assert(0 <= i < i + 1 && (raw[i].1 as int) > ghi);
        } else if s < glo && k == s {
            assert(keeps_prefix(m, glo, ghi, s));
        } else {
            assert(prev.dom().contains(k));
            assert(k != s);
            if !keeps_untouched(m, glo, ghi, k) && !keeps_prefix(m, glo, ghi, k) && !(k == ghi
                && (exists|j: int| 0 <= j < i && ((#[trigger] raw[j].1 as int) > ghi))) {
                let j = choose|j: int| i <= j < raw.len() && #[trigger] raw[j].0 as int == k;
                assert(j != i);
                assert(i + 1 <= j < raw.len() && raw[j].0 as int == k);
            }
        }
    }
}

/// When every overlapping region is processed, the carving loop's state
/// description says the stored regions are exactly the carve of the
/// original map.
proof fn lemma_carve_finish(
    m: Map<int, (int, State)>,
    cur: Map<int, (int, State)>,
    raw: Seq<(usize, usize, State)>,
    glo: int,
    ghi: int,
)
    requires
        entries_disjoint(m),
        glo < ghi,
        raw_overlap_facts(m, raw, glo, ghi),
        carve_loop_inv(m, cur, raw, raw.len() as int, glo, ghi),
    ensures
        cur == carve(m, glo, ghi),
{
    assert forall|k: int| #[trigger]
        carve(m, glo, ghi).dom().contains(k) implies cur.dom().contains(k) && cur[k] == carve(
        m,
        glo,
        ghi,
    )[k] by {
        if keeps_untouched(m, glo, ghi, k) {
        } else if keeps_prefix(m, glo, ghi, k) {
            let j = choose|j: int| 0 <= j < raw.len() && #[trigger] raw[j].0 as int == k;
            assert(0 <= j < raw.len() && raw[j].0 as int == k);
            assert((raw[j].0 as int) < glo);
        } else {
            assert(k == ghi && has_tail(m, glo, ghi));
            let k0 = tail_src(m, glo, ghi);
            assert(m.dom().contains(k0) && overlaps(k0, m[k0].0, glo, ghi) && m[k0].0 > ghi);
            let j = choose|j: int| 0 <= j < raw.len() && #[trigger] raw[j].0 as int == k0;
            assert(0 <= j < raw.len() && raw[j].0 as int == k0);
            assert((raw[j].1 as int) > ghi);
            assert(cur.dom().contains(ghi) && cur[ghi] == (raw[j].1 as int, raw[j].2));
            assert(m[k0] == (raw[j].1 as int, raw[j].2));
        }
    }
    assert forall|k: int| #[trigger] cur.dom().contains(k) implies carve(
        m,
        glo,
        ghi,
    ).dom().contains(k) by {
        if !keeps_untouched(m, glo, ghi, k) && !keeps_prefix(m, glo, ghi, k) {
            let j = choose|j: int| 0 <= j < raw.len() && ((#[trigger] raw[j].1 as int) > ghi);
            assert(m.dom().contains(raw[j].0 as int) && overlaps(
                raw[j].0 as int,
                m[raw[j].0 as int].0,
                glo,
                ghi,
            ) && m[raw[j].0 as int].0 > ghi);
            assert(has_tail(m, glo, ghi));
        }
    }
    assert(cur =~= carve(m, glo, ghi));
}

/// A carve of a well-formed map is well-formed: every surviving piece is
/// a sub-span of one original region, so the pieces stay non-empty,
/// page-aligned and pairwise disjoint.
proof fn lemma_carve_wf(m: Map<int, (int, State)>, glo: int, ghi: int)
    requires
        entries_disjoint(m),
        forall|k: int| #[trigger] m.dom().contains(k) ==> k % 4096 == 0 && m[k].0 % 4096 == 0,
        glo % 4096 == 0,
        ghi % 4096 == 0,
        glo < ghi <= usize::MAX,
    ensures
        entries_disjoint(carve(m, glo, ghi)),
        forall|k: int| #[trigger]
            carve(m, glo, ghi).dom().contains(k) ==> k % 4096 == 0 && carve(m, glo, ghi)[k].0
                % 4096 == 0,
{
    let c = carve(m, glo, ghi);
    // Each surviving piece [k, c[k].0) sits inside the original region it
    // came from.
    assert forall|k: int| #[trigger] c.dom().contains(k) implies (exists|src: int|
        {
            &&& #[trigger] m.dom().contains(src)
            &&& src <= k < c[k].0 <= m[src].0
        }) by {
        if keeps_untouched(m, glo, ghi, k) {
            assert(m.dom().contains(k) && k <= k < c[k].0 <= m[k].0);
        } else if keeps_prefix(m, glo, ghi, k) {
            assert(m.dom().contains(k) && k <= k < c[k].0 <= m[k].0);
        } else {
            let k0 = tail_src(m, glo, ghi);
            assert(m.dom().contains(k0) && overlaps(k0, m[k0].0, glo, ghi) && m[k0].0 > ghi);
            assert(m.dom().contains(k0) && k0 <= k < c[k].0 <= m[k0].0);
        }
    }
    assert forall|k: int| #[trigger] c.dom().contains(k) implies 0 <= k < c[k].0 <= usize::MAX
        && k % 4096 == 0 && c[k].0 % 4096 == 0 by {
        let src = choose|src: int| #[trigger] m.dom().contains(src) && src <= k < c[k].0 <= m[src].0;
        assert(0 <= src && m[src].0 <= usize::MAX);
    }
    assert forall|k1: int, k2: int|
        c.dom().contains(k1) && c.dom().contains(k2) && k1 != k2 implies !overlaps(
        k1,
        c[k1].0,
        k2,
        c[k2].0,
    ) by {
        if overlaps(k1, c[k1].0, k2, c[k2].0) {
            // The two survivors share an address p; find it and trace each
            // back to the original region holding it.
            let p = max_int(k1, k2);
            assert(k1 <= p < c[k1].0 && k2 <= p < c[k2].0);
            if keeps_untouched(m, glo, ghi, k1) || keeps_prefix(m, glo, ghi, k1) {
                if keeps_untouched(m, glo, ghi, k2) || keeps_prefix(m, glo, ghi, k2) {
                    // Both survive under their original keys.
                    assert(c[k1].0 <= m[k1].0 && c[k2].0 <= m[k2].0);
                    assert(overlaps(k1, m[k1].0, k2, m[k2].0));
                } else {
                    assert(k2 == ghi && has_tail(m, glo, ghi));
                    let t = tail_src(m, glo, ghi);
                    assert(m.dom().contains(t) && overlaps(t, m[t].0, glo, ghi) && m[t].0 > ghi);
                    assert(c[k2].0 == m[t].0);
                    assert(t <= ghi <= p < m[t].0);
                    assert(k1 <= p < m[k1].0 || k1 <= p < glo);
                    if keeps_prefix(m, glo, ghi, k1) {
                        // A prefix ends at glo, below the suffix at ghi.
                        assert(p < glo && ghi <= p);
                    } else if k1 == t {
                        assert(!overlaps(t, m[t].0, glo, ghi));
                    } else {
                        assert(overlaps(k1, m[k1].0, t, m[t].0));
                    }
                }
            } else {
                assert(k1 == ghi && has_tail(m, glo, ghi));
                let t = tail_src(m, glo, ghi);
                assert(m.dom().contains(t) && overlaps(t, m[t].0, glo, ghi) && m[t].0 > ghi);
                assert(c[k1].0 == m[t].0);
                assert(t <= ghi <= p < m[t].0);
                if keeps_untouched(m, glo, ghi, k2) {
                    if k2 == t {
                        assert(!overlaps(t, m[t].0, glo, ghi));
                    } else {
                        assert(k2 <= p < m[k2].0);
                        assert(overlaps(k2, m[k2].0, t, m[t].0));
                    }
                } else if keeps_prefix(m, glo, ghi, k2) {
                    assert(p < glo && ghi <= p);
                } else {
                    assert(k2 == ghi && k1 == ghi);
                }
            }
            assert(false);
        }
    }
}

/// The slices assembled from the overlapping regions are exactly those
/// regions clipped to `[glo, ghi)`: each comes from one region, they are
/// disjoint and increasing, and every overlapping region contributes one.
proof fn lemma_slices_describe(
    m: Map<int, (int, State)>,
    raw: Seq<(usize, usize, State)>,
    slices: Seq<MemRegion>,
    glo: int,
    ghi: int,
)
    requires
        entries_disjoint(m),
        glo < ghi,
        raw_overlap_facts(m, raw, glo, ghi),
        slices.len() == raw.len(),
        forall|j: int|
            0 <= j < raw.len() ==> {
                &&& #[trigger] slices[j].range.start as int == max_int(raw[j].0 as int, glo)
                &&& slices[j].range.spec_end() == min_int(raw[j].1 as int, ghi)
                &&& slices[j].state == raw[j].2
            },
    ensures
        forall|i: int|
            0 <= i < slices.len() ==> #[trigger] slice_from(m, glo, ghi, slices[i]),
        forall|i: int, j: int|
            0 <= i < j < slices.len() ==> #[trigger] slices[i].range.spec_end()
                <= #[trigger] slices[j].range.start as int,
        forall|k: int| #[trigger]
            m.dom().contains(k) && overlaps(k, m[k].0, glo, ghi) ==> exists|i: int|
                0 <= i < slices.len() && #[trigger] slices[i].range.start as int == max_int(
                    k,
                    glo,
                ),
{
    assert forall|i: int| 0 <= i < slices.len() implies #[trigger] slice_from(
        m,
        glo,
        ghi,
        slices[i],
    ) by {
        let k = raw[i].0 as int;
        assert(m.dom().contains(k) && overlaps(k, m[k].0, glo, ghi) && slices[i].range.start as int
            == max_int(k, glo) && slices[i].range.spec_end() == min_int(m[k].0, ghi)
            && slices[i].state == m[k].1);
    }
    assert forall|i: int, j: int|
        0 <= i < j < slices.len() implies #[trigger] slices[i].range.spec_end()
        <= #[trigger] slices[j].range.start as int by {
        assert(raw[i].1 <= raw[j].0);
    }
    assert forall|k: int| #[trigger]
        m.dom().contains(k) && overlaps(k, m[k].0, glo, ghi) implies exists|i: int|
        0 <= i < slices.len() && #[trigger] slices[i].range.start as int == max_int(k, glo) by {
        let j = choose|j: int| 0 <= j < raw.len() && #[trigger] raw[j].0 as int == k;
        assert(0 <= j < slices.len() && slices[j].range.start as int == max_int(k, glo));
    }
}

/// Every stored region of a well-formed map is non-empty, begins and ends
/// on a page boundary, and therefore spans a whole number of pages.
pub proof fn lemma_region_shape(map: MemoryMap, k: int)
    requires
        map.wf(),
        map.entries().dom().contains(k),
    ensures
        k < map.entries()[k].0,
        k % 4096 == 0,
        map.entries()[k].0 % 4096 == 0,
        (map.entries()[k].0 - k) % 4096 == 0,
{
    let e = map.entries()[k].0;
    assert((e - k) % 4096 == 0) by (nonlinear_arith)
        requires
            k % 4096 == 0,
            e % 4096 == 0,
    ;
}

/// The set of addresses lying in some stored region.
pub open spec fn covered_set(m: Map<int, (int, State)>) -> Set<int> {
    Set::new(|a: int| covered_at(m, a))
}

/// Adding a region that overlaps nothing extends the covered addresses by
/// exactly that range.
pub proof fn lemma_covered_after_add(m: Map<int, (int, State)>, lo: int, hi: int, st: State)
    requires
        lo < hi,
        forall|k: int| #[trigger] m.dom().contains(k) ==> !overlaps(k, m[k].0, lo, hi),
        forall|k: int| #[trigger] m.dom().contains(k) ==> k < m[k].0,
    ensures
        covered_set(m.insert(lo, (hi, st))) =~= covered_set(m).union(
            crate::region::range_set(lo, hi),
        ),
{
    let mi = m.insert(lo, (hi, st));
    assert(!m.dom().contains(lo));
    assert forall|a: int| covered_at(mi, a) implies covered_at(m, a) || lo <= a < hi by {
        let k = choose|k: int| #[trigger] mi.dom().contains(k) && k <= a && a < mi[k].0;
        if k != lo {
            assert(m.dom().contains(k) && k <= a < m[k].0);
        }
    }
    assert forall|a: int| covered_at(m, a) implies covered_at(mi, a) by {
        let k = choose|k: int| #[trigger] m.dom().contains(k) && k <= a && a < m[k].0;
        assert(k != lo);
        assert(mi.dom().contains(k) && k <= a < mi[k].0);
    }
    assert forall|a: int| lo <= a < hi implies covered_at(mi, a) by {
        assert(mi.dom().contains(lo) && lo <= a < mi[lo].0);
    }
}

/// Splitting a range out removes exactly that range from the covered
/// addresses; together with the previous lemma, the stored ranges are
/// always the union of what was added minus what was split out.
pub proof fn lemma_covered_after_carve(m: Map<int, (int, State)>, lo: int, hi: int)
    requires
        entries_disjoint(m),
        lo < hi,
    ensures
        covered_set(carve(m, lo, hi)) =~= covered_set(m).difference(
            crate::region::range_set(lo, hi),
        ),
{
    let c = carve(m, lo, hi);
    assert forall|a: int| covered_at(c, a) implies covered_at(m, a) && !(lo <= a < hi) by {
        let x = choose|x: int| #[trigger] c.dom().contains(x) && x <= a && a < c[x].0;
        assert(!overlaps(x, c[x].0, lo, hi));
        if keeps_untouched(m, lo, hi, x) {
            assert(m.dom().contains(x) && x <= a < m[x].0);
        } else if keeps_prefix(m, lo, hi, x) {
            assert(m.dom().contains(x) && x <= a < m[x].0);
        } else {
            let k0 = tail_src(m, lo, hi);
            assert(m.dom().contains(k0) && overlaps(k0, m[k0].0, lo, hi) && m[k0].0 > hi);
            assert(m.dom().contains(k0) && k0 <= a < m[k0].0);
        }
    }
    assert forall|a: int| covered_at(m, a) && !(lo <= a < hi) implies covered_at(c, a) by {
        let k = choose|k: int| #[trigger] m.dom().contains(k) && k <= a && a < m[k].0;
        if !overlaps(k, m[k].0, lo, hi) {
            assert(c.dom().contains(k) && c[k] == m[k]);
            assert(c.dom().contains(k) && k <= a < c[k].0);
        } else if a < lo {
            assert(keeps_prefix(m, lo, hi, k));
            assert(c.dom().contains(k) && c[k] == (lo, m[k].1));
            assert(c.dom().contains(k) && k <= a < c[k].0);
        } else {
            assert(a >= hi);
            assert(m[k].0 > a >= hi);
            assert(has_tail(m, lo, hi)) by {
                assert(k < hi && m[k].0 > lo);
            }
            let k0 = tail_src(m, lo, hi);
            assert(m.dom().contains(k0) && overlaps(k0, m[k0].0, lo, hi) && m[k0].0 > hi);
            if k0 != k {
                assert(overlaps(k, m[k].0, k0, m[k0].0)) by {
                    assert(k < hi && m[k].0 > hi);
                    assert(k0 < hi && m[k0].0 > hi);
                }
                assert(false);
            }
            if m.dom().contains(hi) {
                assert(overlaps(k, m[k].0, hi, m[hi].0)) by {
                    assert(k <= a && a < m[k].0 && hi <= a);
                    assert(k < m[hi].0 && hi < m[k].0);
                }
                assert(false);
            }
            assert(c.dom().contains(hi) && c[hi] == (m[k].0, m[k].1));
            assert(c.dom().contains(hi) && hi <= a < c[hi].0);
        }
    }
}

/// Splitting out the full extent of one stored region leaves no remnant of
/// it: the map is simply the map without that region.
pub proof fn lemma_split_full_extent(m: Map<int, (int, State)>, k: int)
    requires
        entries_disjoint(m),
        m.dom().contains(k),
    ensures
        carve(m, k, m[k].0) == m.remove(k),
{
    let lo = k;
    let hi = m[k].0;
    let c = carve(m, lo, hi);
    assert forall|x: int| #[trigger] c.dom().contains(x) implies m.remove(k).dom().contains(x)
        && c[x] == m.remove(k)[x] by {
        if keeps_untouched(m, lo, hi, x) {
            assert(x != k);
        } else if keeps_prefix(m, lo, hi, x) {
            assert(false);
        } else {
            assert(x == hi && has_tail(m, lo, hi));
            let k0 = tail_src(m, lo, hi);
            assert(m.dom().contains(k0) && overlaps(k0, m[k0].0, lo, hi) && m[k0].0 > hi);
            if k0 == k {
                assert(false);
            } else {
                assert(!overlaps(k0, m[k0].0, k, m[k].0));
                assert(false);
            }
        }
    }
    assert forall|x: int| #[trigger] m.remove(k).dom().contains(x) implies c.dom().contains(
        x,
    ) by {
        assert(m.dom().contains(x) && x != k);
        assert(!overlaps(x, m[x].0, k, m[k].0));
        assert(keeps_untouched(m, lo, hi, x));
    }
    assert(c =~= m.remove(k));
}

/// Splitting out a range strictly inside one stored region leaves exactly
/// two remnants: the prefix below the range and the suffix above it.
pub proof fn lemma_split_interior(m: Map<int, (int, State)>, k: int, lo: int, hi: int)
    requires
        entries_disjoint(m),
        m.dom().contains(k),
        k < lo < hi < m[k].0,
    ensures
        carve(m, lo, hi) == m.remove(k).insert(k, (lo, m[k].1)).insert(hi, (m[k].0, m[k].1)),
{
    let c = carve(m, lo, hi);
    let goal = m.remove(k).insert(k, (lo, m[k].1)).insert(hi, (m[k].0, m[k].1));
    assert(overlaps(k, m[k].0, lo, hi));
    assert(has_tail(m, lo, hi)) by {
        assert(m.dom().contains(k) && overlaps(k, m[k].0, lo, hi) && m[k].0 > hi);
    }
    let k0 = tail_src(m, lo, hi);
    assert(m.dom().contains(k0) && overlaps(k0, m[k0].0, lo, hi) && m[k0].0 > hi);
    if k0 != k {
        assert(overlaps(k, m[k].0, k0, m[k0].0)) by {
            assert(k < lo < m[k0].0 && k0 < hi < m[k].0);
        }
        assert(false);
    }
    assert forall|x: int| #[trigger] c.dom().contains(x) implies goal.dom().contains(x) && c[x]
        == goal[x] by {
        if keeps_untouched(m, lo, hi, x) {
            assert(x != k);
            if x == hi {
                assert(overlaps(x, m[x].0, k, m[k].0)) by {
                    assert(k < hi < m[k].0 && hi < m[x].0);
                }
                assert(false);
            }
        } else if keeps_prefix(m, lo, hi, x) {
            if x != k {
                assert(overlaps(x, m[x].0, k, m[k].0)) by {
                    assert(x < lo < m[x].0 && k < lo < m[k].0);
                }
                assert(false);
            }
        }
    }
    assert forall|x: int| #[trigger] goal.dom().contains(x) implies c.dom().contains(x) by {
        if x == hi {
        } else if x == k {
            assert(keeps_prefix(m, lo, hi, k));
        } else {
            assert(m.dom().contains(x) && x != k);
            if overlaps(x, m[x].0, lo, hi) {
                assert(overlaps(x, m[x].0, k, m[k].0)) by {
                    assert(x < hi < m[k].0 && k < lo < m[x].0);
                }
                assert(false);
            }
            assert(keeps_untouched(m, lo, hi, x));
        }
    }
    assert(c =~= goal);
}

/// Whether all stored regions meeting the needle are owned by `pkey`;
/// vacuously true when none does. The needle is not rounded; zero-length
/// needles are disallowed.
pub fn memory_map_all_overlapping_regions_have_pkey(map: &MemoryMap, needle: Range, pkey: u8) -> (r:
    bool)
    requires
        map.wf(),
        needle.len >= 1,
        needle.start + needle.len <= usize::MAX,
    ensures
        r == (forall|k: int| #[trigger]
            map.entries().dom().contains(k) && overlaps(
                k,
                map.entries()[k].0,
                needle.start as int,
                needle.spec_end(),
            ) ==> map.entries()[k].1.owner_pkey == pkey),
{
    let ghost m = map.entries();
    let ghost ns = needle.start as int;
    let ghost ne = needle.spec_end();
    let regs = map.overlapping_regions(needle);
    let mut idx: usize = 0;
    while idx < regs.len()
        invariant
            idx <= regs.len(),
            map.wf(),
            m == map.entries(),
            ns == needle.start as int && ne == needle.spec_end(),
            forall|i: int|
                0 <= i < regs@.len() ==> {
                    &&& m.dom().contains(#[trigger] regs@[i].range.start as int)
                    &&& m[regs@[i].range.start as int] == (
                        regs@[i].range.spec_end(),
                        regs@[i].state,
                    )
                    &&& overlaps(regs@[i].range.start as int, regs@[i].range.spec_end(), ns, ne)
                },
            forall|k: int| #[trigger]
                m.dom().contains(k) && overlaps(k, m[k].0, ns, ne) ==> exists|i: int|
                    0 <= i < regs@.len() && #[trigger] regs@[i].range.start as int == k,
            forall|i: int|
                0 <= i < idx as int ==> (#[trigger] regs@[i].state).owner_pkey == pkey,
        decreases regs.len() - idx,
    {
        if regs[idx].state.owner_pkey != pkey {
            proof {
                let bad = regs@[idx as int].range.start as int;
                assert(m.dom().contains(bad) && overlaps(bad, m[bad].0, ns, ne));
                assert(m[bad].1.owner_pkey != pkey);
            }
            return false;
        }
        idx += 1;
    }
    proof {
        assert forall|k: int| #[trigger]
            m.dom().contains(k) && overlaps(k, m[k].0, ns, ne) implies m[k].1.owner_pkey
            == pkey by {
            let i = choose|i: int|
                0 <= i < regs@.len() && #[trigger] regs@[i].range.start as int == k;
            assert(regs@[i].state == m[k].1);
        }
    }
    true
}

/// Whether all stored regions meeting the needle have the given
/// pkey-protection mark; vacuously true when none does.
pub fn memory_map_all_overlapping_regions_pkey_mprotected(
    map: &MemoryMap,
    needle: Range,
    pkey_mprotected: bool,
) -> (r: bool)
    requires
        map.wf(),
        needle.len >= 1,
        needle.start + needle.len <= usize::MAX,
    ensures
        r == (forall|k: int| #[trigger]
            map.entries().dom().contains(k) && overlaps(
                k,
                map.entries()[k].0,
                needle.start as int,
                needle.spec_end(),
            ) ==> map.entries()[k].1.pkey_mprotected == pkey_mprotected),
{
    let ghost m = map.entries();
    let ghost ns = needle.start as int;
    let ghost ne = needle.spec_end();
    let regs = map.overlapping_regions(needle);
    let mut idx: usize = 0;
    while idx < regs.len()
        invariant
            idx <= regs.len(),
            map.wf(),
            m == map.entries(),
            ns == needle.start as int && ne == needle.spec_end(),
            forall|i: int|
                0 <= i < regs@.len() ==> {
                    &&& m.dom().contains(#[trigger] regs@[i].range.start as int)
                    &&& m[regs@[i].range.start as int] == (
                        regs@[i].range.spec_end(),
                        regs@[i].state,
                    )
                    &&& overlaps(regs@[i].range.start as int, regs@[i].range.spec_end(), ns, ne)
                },
            forall|k: int| #[trigger]
                m.dom().contains(k) && overlaps(k, m[k].0, ns, ne) ==> exists|i: int|
                    0 <= i < regs@.len() && #[trigger] regs@[i].range.start as int == k,
            forall|i: int|
                0 <= i < idx as int ==> (#[trigger] regs@[i].state).pkey_mprotected
                    == pkey_mprotected,
        decreases regs.len() - idx,
    {
        if regs[idx].state.pkey_mprotected != pkey_mprotected {
            proof {
                let bad = regs@[idx as int].range.start as int;
                assert(m.dom().contains(bad) && overlaps(bad, m[bad].0, ns, ne));
                assert(m[bad].1.pkey_mprotected != pkey_mprotected);
            }
            return false;
        }
        idx += 1;
    }
    proof {
        assert forall|k: int| #[trigger]
            m.dom().contains(k) && overlaps(k, m[k].0, ns, ne) implies m[k].1.pkey_mprotected
            == pkey_mprotected by {
            let i = choose|i: int|
                0 <= i < regs@.len() && #[trigger] regs@[i].range.start as int == k;
            assert(regs@[i].state == m[k].1);
        }
    }
    true
}

/// Whether all stored regions meeting the needle have the given
/// mprotection mark; vacuously true when none does.
pub fn memory_map_all_overlapping_regions_mprotected(
    map: &MemoryMap,
    needle: Range,
    mprotected: bool,
) -> (r: bool)
    requires
        map.wf(),
        needle.len >= 1,
        needle.start + needle.len <= usize::MAX,
    ensures
        r == (forall|k: int| #[trigger]
            map.entries().dom().contains(k) && overlaps(
                k,
                map.entries()[k].0,
                needle.start as int,
                needle.spec_end(),
            ) ==> map.entries()[k].1.mprotected == mprotected),
{
    let ghost m = map.entries();
    let ghost ns = needle.start as int;
    let ghost ne = needle.spec_end();
    let regs = map.overlapping_regions(needle);
    let mut idx: usize = 0;
    while idx < regs.len()
        invariant
            idx <= regs.len(),
            map.wf(),
            m == map.entries(),
            ns == needle.start as int && ne == needle.spec_end(),
            forall|i: int|
                0 <= i < regs@.len() ==> {
                    &&& m.dom().contains(#[trigger] regs@[i].range.start as int)
                    &&& m[regs@[i].range.start as int] == (
                        regs@[i].range.spec_end(),
                        regs@[i].state,
                    )
                    &&& overlaps(regs@[i].range.start as int, regs@[i].range.spec_end(), ns, ne)
                },
            forall|k: int| #[trigger]
                m.dom().contains(k) && overlaps(k, m[k].0, ns, ne) ==> exists|i: int|
                    0 <= i < regs@.len() && #[trigger] regs@[i].range.start as int == k,
            forall|i: int|
                0 <= i < idx as int ==> (#[trigger] regs@[i].state).mprotected == mprotected,
        decreases regs.len() - idx,
    {
        if regs[idx].state.mprotected != mprotected {
            proof {
                let bad = regs@[idx as int].range.start as int;
                assert(m.dom().contains(bad) && overlaps(bad, m[bad].0, ns, ne));
                assert(m[bad].1.mprotected != mprotected);
            }
            return false;
        }
        idx += 1;
    }
    proof {
        assert forall|k: int| #[trigger]
            m.dom().contains(k) && overlaps(k, m[k].0, ns, ne) implies m[k].1.mprotected
            == mprotected by {
            let i = choose|i: int|
                0 <= i < regs@.len() && #[trigger] regs@[i].range.start as int == k;
            assert(regs@[i].state == m[k].1);
        }
    }
    true
}

/// The protection bits shared by every stored region meeting the needle,
/// or `PROT_INDETERMINATE` when no region meets it or they disagree.
pub fn memory_map_region_get_prot(map: &MemoryMap, needle: Range) -> (r: u32)
    requires
        map.wf(),
        needle.len >= 1,
        needle.start + needle.len <= usize::MAX,
    ensures
        ({
            let m = map.entries();
            let ns = needle.start as int;
            let ne = needle.spec_end();
            let present = exists|k: int| #[trigger]
                m.dom().contains(k) && overlaps(k, m[k].0, ns, ne);
            let uniform = forall|k1: int, k2: int|
                #[trigger] m.dom().contains(k1) && #[trigger] m.dom().contains(k2) && overlaps(
                    k1,
                    m[k1].0,
                    ns,
                    ne,
                ) && overlaps(k2, m[k2].0, ns, ne) ==> m[k1].1.prot == m[k2].1.prot;
            &&& (present && uniform ==> (forall|k: int| #[trigger]
                m.dom().contains(k) && overlaps(k, m[k].0, ns, ne) ==> r == m[k].1.prot))
            &&& (!(present && uniform) ==> r == PROT_INDETERMINATE)
        }),
{
    let ghost m = map.entries();
    let ghost ns = needle.start as int;
    let ghost ne = needle.spec_end();
    let regs = map.overlapping_regions(needle);
    if regs.len() == 0 {
        proof {
            if exists|k: int| #[trigger] m.dom().contains(k) && overlaps(k, m[k].0, ns, ne) {
                let k = choose|k: int| #[trigger]
                    m.dom().contains(k) && overlaps(k, m[k].0, ns, ne);
                let i = choose|i: int|
                    0 <= i < regs@.len() && #[trigger] regs@[i].range.start as int == k;
                assert(false);
            }
        }
        return PROT_INDETERMINATE;
    }
    let prot = regs[0].state.prot;
    let mut idx: usize = 1;
    while idx < regs.len()
        invariant
            1 <= idx <= regs.len(),
            regs@.len() > 0,
            map.wf(),
            m == map.entries(),
            ns == needle.start as int && ne == needle.spec_end(),
            prot == regs@[0].state.prot,
            forall|i: int|
                0 <= i < regs@.len() ==> {
                    &&& m.dom().contains(#[trigger] regs@[i].range.start as int)
                    &&& m[regs@[i].range.start as int] == (
                        regs@[i].range.spec_end(),
                        regs@[i].state,
                    )
                    &&& overlaps(regs@[i].range.start as int, regs@[i].range.spec_end(), ns, ne)
                },
            forall|k: int| #[trigger]
                m.dom().contains(k) && overlaps(k, m[k].0, ns, ne) ==> exists|i: int|
                    0 <= i < regs@.len() && #[trigger] regs@[i].range.start as int == k,
            forall|i: int| 0 <= i < idx as int ==> (#[trigger] regs@[i].state).prot == prot,
        decreases regs.len() - idx,
    {
        if regs[idx].state.prot != prot {
            proof {
                let k1 = regs@[0].range.start as int;
                let k2 = regs@[idx as int].range.start as int;
                assert(m.dom().contains(k1) && overlaps(k1, m[k1].0, ns, ne));
                assert(m.dom().contains(k2) && overlaps(k2, m[k2].0, ns, ne));
                assert(m[k1].1.prot != m[k2].1.prot);
            }
            return PROT_INDETERMINATE;
        }
        idx += 1;
    }
    proof {
        assert forall|k: int| #[trigger]
            m.dom().contains(k) && overlaps(k, m[k].0, ns, ne) implies m[k].1.prot == prot by {
            let i = choose|i: int|
                0 <= i < regs@.len() && #[trigger] regs@[i].range.start as int == k;
            assert(regs@[i].state == m[k].1);
        }
        assert(m.dom().contains(regs@[0].range.start as int));
    }
    prot
}

/// The owner key shared by every stored region meeting the needle, or
/// `PKEY_NONE` when no region meets it, or `PKEY_MULTIPLE` when the
/// meeting regions are owned by different keys.
pub fn memory_map_region_get_owner_pkey(map: &MemoryMap, needle: Range) -> (r: u8)
    requires
        map.wf(),
        needle.len >= 1,
        needle.start + needle.len <= usize::MAX,
    ensures
        ({
            let m = map.entries();
            let ns = needle.start as int;
            let ne = needle.spec_end();
            let present = exists|k: int| #[trigger]
                m.dom().contains(k) && overlaps(k, m[k].0, ns, ne);
            let uniform = forall|k1: int, k2: int|
                #[trigger] m.dom().contains(k1) && #[trigger] m.dom().contains(k2) && overlaps(
                    k1,
                    m[k1].0,
                    ns,
                    ne,
                ) && overlaps(k2, m[k2].0, ns, ne) ==> m[k1].1.owner_pkey == m[k2].1.owner_pkey;
            &&& (!present ==> r == PKEY_NONE)
            &&& (present && uniform ==> (forall|k: int| #[trigger]
                m.dom().contains(k) && overlaps(k, m[k].0, ns, ne) ==> r == m[k].1.owner_pkey))
            &&& (present && !uniform ==> r == PKEY_MULTIPLE)
        }),
{
    let ghost m = map.entries();
    let ghost ns = needle.start as int;
    let ghost ne = needle.spec_end();
    let regs = map.overlapping_regions(needle);
    if regs.len() == 0 {
        proof {
            if exists|k: int| #[trigger] m.dom().contains(k) && overlaps(k, m[k].0, ns, ne) {
                let k = choose|k: int| #[trigger]
                    m.dom().contains(k) && overlaps(k, m[k].0, ns, ne);
                let i = choose|i: int|
                    0 <= i < regs@.len() && #[trigger] regs@[i].range.start as int == k;
                assert(false);
            }
        }
        return PKEY_NONE;
    }
    let pkey = regs[0].state.owner_pkey;
    let mut idx: usize = 1;
    while idx < regs.len()
        invariant
            1 <= idx <= regs.len(),
            regs@.len() > 0,
            map.wf(),
            m == map.entries(),
            ns == needle.start as int && ne == needle.spec_end(),
            pkey == regs@[0].state.owner_pkey,
            forall|i: int|
                0 <= i < regs@.len() ==> {
                    &&& m.dom().contains(#[trigger] regs@[i].range.start as int)
                    &&& m[regs@[i].range.start as int] == (
                        regs@[i].range.spec_end(),
                        regs@[i].state,
                    )
                    &&& overlaps(regs@[i].range.start as int, regs@[i].range.spec_end(), ns, ne)
                },
            forall|k: int| #[trigger]
                m.dom().contains(k) && overlaps(k, m[k].0, ns, ne) ==> exists|i: int|
                    0 <= i < regs@.len() && #[trigger] regs@[i].range.start as int == k,
            forall|i: int| 0 <= i < idx as int ==> (#[trigger] regs@[i].state).owner_pkey == pkey,
        decreases regs.len() - idx,
    {
        if regs[idx].state.owner_pkey != pkey {
            proof {
                let k1 = regs@[0].range.start as int;
                let k2 = regs@[idx as int].range.start as int;
                assert(m.dom().contains(k1) && overlaps(k1, m[k1].0, ns, ne));
                assert(m.dom().contains(k2) && overlaps(k2, m[k2].0, ns, ne));
                assert(m[k1].1.owner_pkey != m[k2].1.owner_pkey);
            }
            return PKEY_MULTIPLE;
        }
        idx += 1;
    }
    proof {
        assert forall|k: int| #[trigger]
            m.dom().contains(k) && overlaps(k, m[k].0, ns, ne) implies m[k].1.owner_pkey
            == pkey by {
            let i = choose|i: int|
                0 <= i < regs@.len() && #[trigger] regs@[i].range.start as int == k;
            assert(regs@[i].state == m[k].1);
        }
        assert(m.dom().contains(regs@[0].range.start as int));
    }
    pkey
}

/// A fresh, empty shadow map.
pub fn memory_map_new() -> (r: Box<MemoryMap>)
    ensures
        r.wf(),
        r.entries() == no_entries(),
        !r.spec_init_finished(),
{
    Box::new(MemoryMap::new())
}

/// Consumes and drops a shadow map.
pub fn memory_map_destroy(map: Box<MemoryMap>) {
    let _ = map;
}

/// See [`MemoryMap::mark_init_finished`].
pub fn memory_map_mark_init_finished(map: &mut MemoryMap) -> (r: bool)
    ensures
        final(map).entries() == old(map).entries(),
        final(map).spec_init_finished(),
        r == !old(map).spec_init_finished(),
{
    map.mark_init_finished()
}

/// See [`MemoryMap::is_init_finished`].
pub fn memory_map_is_init_finished(map: &MemoryMap) -> (r: bool)
    ensures
        r == map.spec_init_finished(),
{
    map.is_init_finished()
}

/// See [`MemoryMap::unmap_region`].
pub fn memory_map_unmap_region(map: &mut MemoryMap, needle: Range) -> (r: bool)
    requires
        old(map).wf(),
        needle.start + needle.len + 0xFFF <= usize::MAX,
    ensures
        final(map).wf(),
        final(map).spec_init_finished() == old(map).spec_init_finished(),
        r == (needle.len != 0 && spec_fully_covered(
            old(map).entries(),
            page_down(needle.start as int),
            page_up(needle.spec_end()),
        )),
        (r ==> final(map).entries() == carve(
            old(map).entries(),
            page_down(needle.start as int),
            page_up(needle.spec_end()),
        )),
        (!r ==> final(map).entries() == old(map).entries()),
{
    map.unmap_region(needle)
}

/// Records a fresh region with the given owner and protection, not yet
/// pkey- or mprotected. See [`MemoryMap::add_region`].
pub fn memory_map_add_region(map: &mut MemoryMap, range: Range, owner_pkey: u8, prot: u32) -> (r:
    bool)
    requires
        old(map).wf(),
        range.start + range.len + 0xFFF <= usize::MAX,
    ensures
        final(map).wf(),
        final(map).spec_init_finished() == old(map).spec_init_finished(),
        ({
            let lo = page_down(range.start as int);
            let hi = page_up(range.spec_end());
            let st = State { owner_pkey, pkey_mprotected: false, mprotected: false, prot };
            &&& r == (range.len != 0 && (forall|k: int| #[trigger]
                old(map).entries().dom().contains(k) ==> !overlaps(
                    k,
                    old(map).entries()[k].0,
                    lo,
                    hi,
                )))
            &&& (r ==> final(map).entries() == old(map).entries().insert(lo, (hi, st)))
            &&& (!r ==> final(map).entries() == old(map).entries())
        }),
{
    map.add_region(
        range,
        State { owner_pkey, mprotected: false, pkey_mprotected: false, prot },
    )
}

/// See [`MemoryMap::split_region`].
pub fn memory_map_split_region(map: &mut MemoryMap, range: Range, owner_pkey: u8, prot: u32) -> (r:
    bool)
    requires
        old(map).wf(),
        range.len >= 1,
        range.start + range.len + 0xFFF <= usize::MAX,
    ensures
        final(map).wf(),
        r == ((exists|k: int| #[trigger]
            old(map).entries().dom().contains(k) && overlaps(
                k,
                old(map).entries()[k].0,
                page_down(range.start as int),
                page_up(range.spec_end()),
            )) && (forall|k1: int, k2: int|
            #[trigger] old(map).entries().dom().contains(k1)
                && #[trigger] old(map).entries().dom().contains(k2) && overlaps(
                k1,
                old(map).entries()[k1].0,
                page_down(range.start as int),
                page_up(range.spec_end()),
            ) && overlaps(
                k2,
                old(map).entries()[k2].0,
                page_down(range.start as int),
                page_up(range.spec_end()),
            ) ==> k1 == k2)),
        (!r ==> final(map).entries() == old(map).entries()),
{
    map.split_region(range, owner_pkey, prot).is_some()
}

/// See [`MemoryMap::pkey_mprotect_region`].
pub fn memory_map_pkey_mprotect_region(map: &mut MemoryMap, range: Range, pkey: u8) -> (r: bool)
    requires
        old(map).wf(),
        range.start + range.len + 0xFFF <= usize::MAX,
    ensures
        final(map).wf(),
        final(map).spec_init_finished() == old(map).spec_init_finished(),
        ({
            let lo = page_down(range.start as int);
            let hi = page_up(range.spec_end());
            let m = old(map).entries();
            let fin = old(map).spec_init_finished();
            &&& r == (range.len != 0 && spec_fully_covered(m, lo, hi) && (fin
                ==> (forall|k: int| #[trigger]
                    m.dom().contains(k) && overlaps(k, m[k].0, lo, hi)
                        ==> !m[k].1.pkey_mprotected && (m[k].1.owner_pkey == 0
                        || m[k].1.owner_pkey == pkey))))
            &&& (r ==> final(map).entries() == reprotected(
                m,
                lo,
                hi,
                (|st: State| pkey_applied(st, pkey, fin)),
            ))
            &&& (!r ==> final(map).entries() == m)
        }),
{
    map.pkey_mprotect_region(range, pkey)
}

/// See [`MemoryMap::mprotect_region`].
pub fn memory_map_mprotect_region(map: &mut MemoryMap, range: Range, prot: u32) -> (r: bool)
    requires
        old(map).wf(),
        range.start + range.len + 0xFFF <= usize::MAX,
    ensures
        final(map).wf(),
        final(map).spec_init_finished() == old(map).spec_init_finished(),
        ({
            let lo = page_down(range.start as int);
            let hi = page_up(range.spec_end());
            let m = old(map).entries();
            &&& r == (range.len != 0 && spec_fully_covered(m, lo, hi))
            &&& (r ==> final(map).entries() == reprotected(
                m,
                lo,
                hi,
                (|st: State| prot_applied(st, prot)),
            ))
            &&& (!r ==> final(map).entries() == m)
        }),
{
    map.mprotect_region(range, prot)
}

/// See [`MemoryMap::clear`].
pub fn memory_map_clear(map: &mut MemoryMap)
    ensures
        final(map).wf(),
        final(map).entries() == no_entries(),
        !final(map).spec_init_finished(),
{
    map.clear()
}

/// A boxed copy of the map. See the `Clone` implementation.
pub fn memory_map_clone(map: &mut MemoryMap) -> (r: Box<MemoryMap>)
    ensures
        *final(map) == *old(map),
        r.entries() == old(map).entries(),
        r.spec_init_finished() == old(map).spec_init_finished(),
{
    Box::new(map.clone())
}

impl Clone for MemoryMap {
    /// The copy holds the same regions and the same phase flag.
    fn clone(&self) -> (r: Self)
        ensures
            r.entries() == self.entries(),
            r.spec_init_finished() == self.spec_init_finished(),
    {
        MemoryMap { regions: tree_clone(&self.regions), init_finished: self.init_finished }
    }
}

} // verus!
