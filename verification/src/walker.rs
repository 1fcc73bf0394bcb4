//! Segment walker arithmetic: which ranges to protect for a compartment.
//!
//! At load time the walker inspects a module's program headers, decides
//! whether the module belongs to the compartment being initialized (by
//! probe address), translates each loadable segment's flags to `PROT_*`
//! bits, and subtracts the shared ignore ranges so that shared sections
//! are never tagged with a compartment's exclusive key. Everything here is
//! that arithmetic on plain values; enumerating the headers and issuing the
//! `pkey_mprotect` syscalls is the caller's job.

use vstd::prelude::*;

use crate::region::page_down;
use crate::region::page_up;

verus! {

/// Program header type of a loadable segment.
pub const PT_LOAD: u32 = 1;

/// Program header type of the region made read-only after relocation.
pub const PT_GNU_RELRO: u32 = 0x6474e552;

/// Host protection bits, as the kernel takes them.
pub const PROT_NONE: i32 = 0;

/// Host read-permission bit.
pub const PROT_READ: i32 = 1;

/// Host write-permission bit.
pub const PROT_WRITE: i32 = 2;

/// Host execute-permission bit.
pub const PROT_EXEC: i32 = 4;

/// One program header of a loaded module, reduced to plain values.
#[derive(Clone, Copy, Debug, PartialEq, Eq, Structural)]
pub struct Segment {
    /// The header's type tag.
    pub p_type: u32,
    /// The segment's virtual address, before relocation.
    pub vaddr: usize,
    /// The segment's size in memory.
    pub memsz: usize,
    /// The segment's ELF permission flags: bit 0 execute, bit 1 write,
    /// bit 2 read.
    pub flags: u32,
}

/// A half-open span of addresses `[start, stop)`.
#[derive(Clone, Copy, Debug, PartialEq, Eq, Structural)]
pub struct AddressRange {
    /// First address of the span.
    pub start: usize,
    /// One past the last address of the span.
    pub stop: usize,
}

impl AddressRange {
    /// Whether the two spans share an address.
    pub fn intersects(&self, other: &AddressRange) -> (r: bool)
        ensures
            r == (self.start < other.stop && self.stop > other.start),
    {
        self.start < other.stop && self.stop > other.start
    }

    /// Whether this span contains every address of the other.
    pub fn contains(&self, other: &AddressRange) -> (r: bool)
        ensures
            r == (self.start <= other.start && self.stop >= other.stop),
    {
        self.start <= other.start && self.stop >= other.stop
    }
}

/// Whether a segment's pages are protected at all: loadable segments and
/// the post-relocation read-only region.
pub open spec fn is_protectable(s: Segment) -> bool {
    s.p_type == PT_LOAD || s.p_type == PT_GNU_RELRO
}

/// A segment's span once the module is loaded at `base`.
pub open spec fn seg_range(base: usize, s: Segment) -> AddressRange {
    AddressRange { start: (base + s.vaddr) as usize, stop: (base + s.vaddr + s.memsz) as usize }
}

/// The host protection bits for ELF permission flags.
pub open spec fn spec_prot(flags: u32) -> i32 {
    ((if flags & 1 != 0 {
        4int
    } else {
        0int
    }) + (if flags & 2 != 0 {
        2int
    } else {
        0int
    }) + (if flags & 4 != 0 {
        1int
    } else {
        0int
    })) as i32
}

/// Translates a segment's ELF permission flags to host `PROT_*` bits.
pub fn flags_to_prot(p_flags: u32) -> (r: i32)
    ensures
        r == spec_prot(p_flags),
{
    let exec_bit = if (p_flags & 1) != 0 {
        PROT_EXEC
    } else {
        PROT_NONE
    };
    let write_bit = if (p_flags & 2) != 0 {
        PROT_WRITE
    } else {
        PROT_NONE
    };
    let read_bit = if (p_flags & 4) != 0 {
        PROT_READ
    } else {
        PROT_NONE
    };
    exec_bit + write_bit + read_bit
}

/// What is left of the span `r` once `ig` is taken out: nothing when `ig`
/// covers it, the non-empty parts on either side when they meet, and `r`
/// itself when they do not.
pub open spec fn sub_pieces(r: AddressRange, ig: AddressRange) -> Seq<AddressRange> {
    if !(r.start < ig.stop && ig.start < r.stop) {
        seq![r]
    } else {
        (if r.start < ig.start {
            seq![AddressRange { start: r.start, stop: ig.start }]
        } else {
            Seq::empty()
        }) + (if ig.stop < r.stop {
            seq![AddressRange { start: ig.stop, stop: r.stop }]
        } else {
            Seq::empty()
        })
    }
}

/// `sub_pieces` applied to every span of `rs` from index `i` on.
pub open spec fn sub_all_from(rs: Seq<AddressRange>, ig: AddressRange, i: int) -> Seq<AddressRange>
    decreases rs.len() - i,
{
    if i < 0 || i >= rs.len() {
        Seq::empty()
    } else {
        sub_pieces(rs[i], ig) + sub_all_from(rs, ig, i + 1)
    }
}

/// Takes the ignore span out of every span of the list, keeping order and
/// dropping the parts that become empty.
pub fn subtract_ignore(ranges: &Vec<AddressRange>, ignore: &AddressRange) -> (r: Vec<AddressRange>)
    ensures
        r@ == sub_all_from(ranges@, *ignore, 0),
{
    let mut out: Vec<AddressRange> = Vec::new();
    let mut i: usize = 0;
    while i < ranges.len()
        invariant
            i <= ranges.len(),
            out@ + sub_all_from(ranges@, *ignore, i as int) == sub_all_from(ranges@, *ignore, 0),
        decreases ranges.len() - i,
    {
        let ghost out0 = out@;
        let r0 = ranges[i];
        if r0.start < ignore.stop && ignore.start < r0.stop {
            if r0.start < ignore.start {
                out.push(AddressRange { start: r0.start, stop: ignore.start });
            }
            if ignore.stop < r0.stop {
                out.push(AddressRange { start: ignore.stop, stop: r0.stop });
            }
        } else {
            out.push(r0);
        }
        proof {
            assert(out@ =~= out0 + sub_pieces(r0, *ignore));
            assert(out@ + sub_all_from(ranges@, *ignore, i as int + 1) =~= (out0 + sub_all_from(
                ranges@,
                *ignore,
                i as int,
            )));
        }
        i += 1;
    }
    out
}

/// The spans of `rs` with every ignore span from index `j` on taken out.
pub open spec fn sub_list(
    rs: Seq<AddressRange>,
    igs: Seq<AddressRange>,
    j: int,
) -> Seq<AddressRange>
    decreases igs.len() - j,
{
    if j < 0 || j >= igs.len() {
        rs
    } else {
        sub_list(sub_all_from(rs, igs[j], 0), igs, j + 1)
    }
}

/// The ranges to protect for the segments from index `i` on: for each
/// protectable segment, its span minus every ignore span, each remaining
/// piece paired with the segment's host protection bits.
pub open spec fn plan_from(
    base: usize,
    segs: Seq<Segment>,
    igs: Seq<AddressRange>,
    i: int,
) -> Seq<(AddressRange, i32)>
    decreases segs.len() - i,
{
    if i < 0 || i >= segs.len() {
        Seq::empty()
    } else {
        let rest = plan_from(base, segs, igs, i + 1);
        if is_protectable(segs[i]) {
            sub_list(seq![seg_range(base, segs[i])], igs, 0).map_values(
                |piece: AddressRange| (piece, spec_prot(segs[i].flags)),
            ) + rest
        } else {
            rest
        }
    }
}

/// Whether some loadable segment of the module at `base` contains the
/// probe address — that is, whether the module belongs to the compartment
/// being initialized.
pub fn contains_probe(base: usize, segments: &Vec<Segment>, address: usize) -> (r: bool)
    requires
        forall|i: int|
            0 <= i < segments@.len() ==> base + (#[trigger] segments@[i]).vaddr
                + segments@[i].memsz <= usize::MAX,
    ensures
        r == (exists|i: int|
            0 <= i < segments@.len() && (#[trigger] segments@[i]).p_type == PT_LOAD && seg_range(
                base,
                segments@[i],
            ).start <= address < seg_range(base, segments@[i]).stop),
{
    let mut i: usize = 0;
    while i < segments.len()
        invariant
            i <= segments.len(),
            forall|j: int|
                0 <= j < segments@.len() ==> base + (#[trigger] segments@[j]).vaddr
                    + segments@[j].memsz <= usize::MAX,
            forall|j: int|
                0 <= j < i as int ==> !((#[trigger] segments@[j]).p_type == PT_LOAD && seg_range(
                    base,
                    segments@[j],
                ).start <= address < seg_range(base, segments@[j]).stop),
        decreases segments.len() - i,
    {
        let s = segments[i];
        if s.p_type == PT_LOAD {
            let start = base + s.vaddr;
            let stop = start + s.memsz;
            if start <= address && address < stop {
                return true;
            }
        }
        i += 1;
    }
    false
}

/// Computes the full protection plan for one module: every protectable
/// segment's span, minus the shared ignore spans, each piece with its host
/// protection bits, in segment order.
pub fn compute_protect_ranges(
    base: usize,
    segments: &Vec<Segment>,
    ignore_ranges: &Vec<AddressRange>,
) -> (r: Vec<(AddressRange, i32)>)
    requires
        forall|i: int|
            0 <= i < segments@.len() ==> base + (#[trigger] segments@[i]).vaddr
                + segments@[i].memsz <= usize::MAX,
    ensures
        r@ == plan_from(base, segments@, ignore_ranges@, 0),
{
    let mut out: Vec<(AddressRange, i32)> = Vec::new();
    let mut i: usize = 0;
    while i < segments.len()
        invariant
            i <= segments.len(),
            forall|j: int|
                0 <= j < segments@.len() ==> base + (#[trigger] segments@[j]).vaddr
                    + segments@[j].memsz <= usize::MAX,
            out@ + plan_from(base, segments@, ignore_ranges@, i as int) == plan_from(
                base,
                segments@,
                ignore_ranges@,
                0,
            ),
        decreases segments.len() - i,
    {
        let s = segments[i];
        let ghost out0 = out@;
        if s.p_type == PT_LOAD || s.p_type == PT_GNU_RELRO {
            let prot = flags_to_prot(s.flags);
            let start = base + s.vaddr;
            let stop = start + s.memsz;
            let mut pieces: Vec<AddressRange> = Vec::new();
            pieces.push(AddressRange { start, stop });
            proof {
                assert(pieces@ =~= seq![seg_range(base, segments@[i as int])]);
            }
            let mut j: usize = 0;
            while j < ignore_ranges.len()
                invariant
                    j <= ignore_ranges.len(),
                    sub_list(pieces@, ignore_ranges@, j as int) == sub_list(
                        seq![seg_range(base, segments@[i as int])],
                        ignore_ranges@,
                        0,
                    ),
                decreases ignore_ranges.len() - j,
            {
                pieces = subtract_ignore(&pieces, &ignore_ranges[j]);
                j += 1;
            }
            let mut k: usize = 0;
            while k < pieces.len()
                invariant
                    k <= pieces.len(),
                    prot == spec_prot(segments@[i as int].flags),
                    out@ =~= out0 + pieces@.take(k as int).map_values(
                        (|piece: AddressRange| (piece, spec_prot(segments@[i as int].flags))),
                    ),
                decreases pieces.len() - k,
            {
                let ghost outk = out@;
                out.push((pieces[k], prot));
                proof {
                    assert(pieces@.take(k as int + 1) =~= pieces@.take(k as int).push(
                        pieces@[k as int],
                    ));
                    assert(out@ =~= out0 + pieces@.take(k as int + 1).map_values(
                        (|piece: AddressRange| (piece, spec_prot(segments@[i as int].flags))),
                    ));
                }
                k += 1;
            }
            proof {
                assert(pieces@.take(pieces@.len() as int) =~= pieces@);
                assert(out@ =~= out0 + pieces@.map_values(
                    (|piece: AddressRange| (piece, spec_prot(segments@[i as int].flags))),
                ));
                assert(out@ + plan_from(base, segments@, ignore_ranges@, i as int + 1) =~= (out0
                    + plan_from(base, segments@, ignore_ranges@, i as int)));
            }
        }
        i += 1;
    }
    out
}

/// Decides the whole walk for one module: `None` when no loadable segment
/// contains the probe address — the walk must continue to the next module —
/// and otherwise the protection plan for every segment of this module.
pub fn protect_pages_plan(
    base: usize,
    segments: &Vec<Segment>,
    probe_address: usize,
    ignore_ranges: &Vec<AddressRange>,
) -> (r: Option<Vec<(AddressRange, i32)>>)
    requires
        forall|i: int|
            0 <= i < segments@.len() ==> base + (#[trigger] segments@[i]).vaddr
                + segments@[i].memsz <= usize::MAX,
    ensures
        (r is Some) == (exists|i: int|
            0 <= i < segments@.len() && (#[trigger] segments@[i]).p_type == PT_LOAD && seg_range(
                base,
                segments@[i],
            ).start <= probe_address < seg_range(base, segments@[i]).stop),
        (r matches Some(plan) ==> plan@ == plan_from(base, segments@, ignore_ranges@, 0)),
{
    if contains_probe(base, segments, probe_address) {
        Some(compute_protect_ranges(base, segments, ignore_ranges))
    } else {
        None
    }
}

/// The address and length to hand to `pkey_mprotect` for one planned span:
/// the span rounded outward to whole pages, or `None` for an empty span,
/// which needs no syscall.
pub fn pkey_mprotect_args(r: AddressRange) -> (args: Option<(usize, usize)>)
    requires
        r.start <= r.stop,
        r.stop + 0xFFF <= usize::MAX,
    ensures
        (args is None) == (r.start == r.stop),
        (args matches Some((addr, len)) ==> {
            &&& addr == page_down(r.start as int)
            &&& addr + len == page_up(r.stop as int)
            &&& len > 0
        }),
{
    if r.start == r.stop {
        return None;
    }
    let mut span = crate::region::Range { start: r.start, len: r.stop - r.start };
    span.round_to_4k();
    proof {
        crate::region::lemma_page_down(r.start as int);
        crate::region::lemma_page_up(r.stop as int);
    }
    Some((span.start, span.len))
}

} // verus!
