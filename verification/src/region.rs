//! Address ranges and per-region state for the shadow memory map.
//!
//! A `Range` is a half-open span `[start, start + len)` of addresses; the
//! map stores one `State` per tracked span. All spans the map keeps are
//! rounded to whole 4 KiB pages.

use vstd::prelude::*;

verus! {

/// Bytes in one page; every stored range is a whole number of pages.
pub const PAGE_SIZE: usize = 4096;

/// A half-open span of addresses `[start, start + len)`.
#[derive(Debug, Clone, Copy, PartialEq, Eq, Structural)]
pub struct Range {
    /// First address of the span.
    pub start: usize,
    /// Number of bytes in the span.
    pub len: usize,
}

/// The tracked state of a contiguous region of memory.
#[derive(Debug, Clone, Copy, PartialEq, Eq, Structural)]
pub struct State {
    /// Protection key that claimed the region; 0 means unclaimed.
    pub owner_pkey: u8,
    /// Whether a `pkey_mprotect` has been applied to the region.
    pub pkey_mprotected: bool,
    /// Whether an `mprotect` has been applied to the region.
    pub mprotected: bool,
    /// The `PROT_*` bits last applied to the region.
    pub prot: u32,
}

/// A contiguous region of the memory map together with its state.
#[derive(Debug, Clone, Copy, PartialEq, Eq, Structural)]
pub struct MemRegion {
    /// The span the region covers.
    pub range: Range,
    /// The state of every page in the span.
    pub state: State,
}

/// `a` rounded down to a page boundary.
pub open spec fn page_down(a: int) -> int {
    (a / 4096) * 4096
}

/// `a` rounded up to a page boundary.
pub open spec fn page_up(a: int) -> int {
    ((a + 4095) / 4096) * 4096
}

/// Whether the half-open spans `[s1, e1)` and `[s2, e2)` share an address.
pub open spec fn overlaps(s1: int, e1: int, s2: int, e2: int) -> bool {
    s1 < e2 && s2 < e1
}

/// The set of addresses in the half-open span `[s, e)`.
pub open spec fn range_set(s: int, e: int) -> Set<int> {
    Set::new(|a: int| s <= a < e)
}

/// The larger of two mathematical integers.
pub open spec fn max_int(a: int, b: int) -> int {
    if a < b {
        b
    } else {
        a
    }
}

/// The smaller of two mathematical integers.
pub open spec fn min_int(a: int, b: int) -> int {
    if a < b {
        a
    } else {
        b
    }
}

/// Rounding down lands on a page boundary at or below the input, less than
/// one page away.
pub proof fn lemma_page_down(a: int)
    requires
        0 <= a,
    ensures
        page_down(a) % 4096 == 0,
        page_down(a) <= a < page_down(a) + 4096,
{
    assert(a % 4096 < 4096 && 0 <= a % 4096 && a == (a / 4096) * 4096 + a % 4096) by (nonlinear_arith)
        requires
            0 <= a,
    ;
    assert(((a / 4096) * 4096) % 4096 == 0) by (nonlinear_arith);
}

/// Rounding up lands on a page boundary at or above the input, less than
/// one page away.
pub proof fn lemma_page_up(a: int)
    requires
        0 <= a,
    ensures
        page_up(a) % 4096 == 0,
        a <= page_up(a) < a + 4096,
{
    lemma_page_down(a + 4095);
    assert(page_up(a) == page_down(a + 4095));
    assert(a <= page_up(a)) by {
        assert(page_down(a + 4095) > a + 4095 - 4096);
    }
}

/// A page-aligned value is a fixed point of both roundings.
pub proof fn lemma_page_aligned_fixed(a: int)
    requires
        0 <= a,
        a % 4096 == 0,
    ensures
        page_down(a) == a,
        page_up(a) == a,
{
    assert(a == (a / 4096) * 4096) by (nonlinear_arith)
        requires
            0 <= a,
            a % 4096 == 0,
    ;
    assert((a + 4095) / 4096 == a / 4096) by (nonlinear_arith)
        requires
            0 <= a,
            a % 4096 == 0,
    ;
}

/// Rounding a span to whole pages is idempotent: rounding the already
/// rounded bounds changes nothing.
pub proof fn lemma_round_to_4k_idempotent(s: int, e: int)
    requires
        0 <= s <= e,
    ensures
        page_down(page_down(s)) == page_down(s),
        page_up(page_up(e)) == page_up(e),
        page_up(page_down(s) + (page_up(e) - page_down(s))) == page_up(e),
{
    lemma_page_down(s);
    lemma_page_up(e);
    lemma_page_aligned_fixed(page_down(s));
    lemma_page_aligned_fixed(page_up(e));
}

impl Range {
    /// The address one past the last byte of the span.
    pub open spec fn spec_end(self) -> int {
        self.start + self.len
    }

    /// Builds the span `[start, end)`, or `None` when it would be empty.
    pub fn from_bounds(start: usize, end: usize) -> (r: Option<Range>)
        ensures
            r == (if start < end {
                Some(Range { start, len: (end - start) as usize })
            } else {
                None::<Range>
            }),
    {
        if start < end {
            Some(Range { start, len: end - start })
        } else {
            None
        }
    }

    /// The address one past the last byte of the span.
    pub fn end(&self) -> (r: usize)
        requires
            self.start + self.len <= usize::MAX,
        ensures
            r == self.spec_end(),
    {
        self.start + self.len
    }

    /// The span as a standard half-open range.
    pub fn as_std(&self) -> (r: core::ops::Range<usize>)
        requires
            self.start + self.len <= usize::MAX,
        ensures
            r.start == self.start,
            r.end == self.spec_end(),
    {
        core::ops::Range { start: self.start, end: self.start + self.len }
    }

    /// Whether this span contains every address of `subrange`.
    pub fn subsumes(&self, subrange: Range) -> (r: bool)
        requires
            self.start + self.len <= usize::MAX,
            subrange.start + subrange.len <= usize::MAX,
        ensures
            r == (self.start <= subrange.start && self.spec_end() >= subrange.spec_end()),
    {
        self.start <= subrange.start && self.end() >= subrange.end()
    }

    /// Rounds the span outward to whole pages: the start down, the end up.
    pub fn round_to_4k(&mut self)
        requires
            old(self).start + old(self).len + 0xFFF <= usize::MAX,
        ensures
            final(self).start == page_down(old(self).start as int),
            final(self).spec_end() == page_up(old(self).spec_end()),
    {
        let end = self.start + self.len;
        let end_round_up = (end + 0xFFF) & !0xFFF;
        proof {
            lemma_mask_is_page_down((end + 0xFFF) as usize);
            lemma_mask_is_page_down(self.start as usize);
            assert(page_down(end + 0xFFF) == page_up(end as int)) by {
                assert((end + 0xFFF) / 4096 == (end + 4095) / 4096);
            }
            lemma_page_down(self.start as int);
            lemma_page_up(end as int);
        }
        self.start = self.start & !0xFFF;
        self.len = end_round_up - self.start;
    }

    /// The span shared by this span and `other`, or `None` when they are
    /// disjoint.
    pub fn overlap(&self, other: &Range) -> (r: Option<Range>)
        requires
            self.start + self.len <= usize::MAX,
            other.start + other.len <= usize::MAX,
        ensures
            ({
                let s = max_int(self.start as int, other.start as int);
                let e = min_int(self.spec_end(), other.spec_end());
                r == (if s < e {
                    Some(Range { start: s as usize, len: (e - s) as usize })
                } else {
                    None::<Range>
                })
            }),
    {
        let start = if self.start < other.start {
            other.start
        } else {
            self.start
        };
        let self_end = self.end();
        let other_end = other.end();
        let end = if self_end < other_end {
            self_end
        } else {
            other_end
        };
        Self::from_bounds(start, end)
    }

    /// Removes `other` from this span. `None` when they do not overlap;
    /// otherwise the remaining prefix and suffix of this span, either of
    /// which may be empty.
    pub fn subtract(&self, other: &Range) -> (r: Option<(Option<Range>, Option<Range>)>)
        requires
            self.start + self.len <= usize::MAX,
            other.start + other.len <= usize::MAX,
        ensures
            (r is Some) == (max_int(self.start as int, other.start as int) < min_int(
                self.spec_end(),
                other.spec_end(),
            )),
            (r matches Some(parts) ==> ({
                let os = max_int(self.start as int, other.start as int);
                let oe = min_int(self.spec_end(), other.spec_end());
                &&& parts.0 == (if self.start < os {
                    Some(Range { start: self.start, len: (os - self.start) as usize })
                } else {
                    None::<Range>
                })
                &&& parts.1 == (if oe < self.spec_end() {
                    Some(Range { start: oe as usize, len: (self.spec_end() - oe) as usize })
                } else {
                    None::<Range>
                })
            })),
    {
        match self.overlap(other) {
            None => None,
            Some(ov) => Some(
                (Self::from_bounds(self.start, ov.start), Self::from_bounds(ov.end(), self.end())),
            ),
        }
    }
}

/// Masking off the low twelve bits rounds down to a page boundary.
proof fn lemma_mask_is_page_down(x: usize)
    ensures
        x & !0xFFF == page_down(x as int),
{
    assert(x & !0xFFF == (x / 4096) * 4096) by (bit_vector);
    assert((x / 4096) * 4096 == page_down(x as int)) by {
        assert(x as int / 4096 == (x / 4096) as int);
    }
}

/// Subtraction partitions a span: the prefix, the overlap, and the suffix
/// together hold exactly the addresses of the original span, and the prefix
/// and suffix are disjoint from the subtracted span.
pub proof fn lemma_subtract_partitions(a: Range, b: Range)
    requires
        a.start + a.len <= usize::MAX,
        b.start + b.len <= usize::MAX,
        overlaps(a.start as int, a.spec_end(), b.start as int, b.spec_end()),
    ensures
        ({
            let os = max_int(a.start as int, b.start as int);
            let oe = min_int(a.spec_end(), b.spec_end());
            &&& range_set(a.start as int, a.spec_end()) =~= range_set(a.start as int, os).union(
                range_set(os, oe),
            ).union(range_set(oe, a.spec_end()))
            &&& range_set(a.start as int, os).disjoint(range_set(b.start as int, b.spec_end()))
            &&& range_set(oe, a.spec_end()).disjoint(range_set(b.start as int, b.spec_end()))
        }),
{
}

} // verus!
