use ia2::walker::AddressRange;
use ia2::walker::PT_GNU_RELRO;
use ia2::walker::PT_LOAD;
use ia2::walker::Segment;
use ia2::walker::compute_protect_ranges;
use ia2::walker::contains_probe;
use ia2::walker::flags_to_prot;
use ia2::walker::pkey_mprotect_args;
use ia2::walker::protect_pages_plan;
use ia2::walker::subtract_ignore;

fn span(start: usize, stop: usize) -> AddressRange {
    AddressRange { start, stop }
}

fn load(vaddr: usize, memsz: usize, flags: u32) -> Segment {
    Segment { p_type: PT_LOAD, vaddr, memsz, flags }
}

#[test]
fn elf_flags_map_to_host_prot() {
    assert_eq!(flags_to_prot(0), 0);
    assert_eq!(flags_to_prot(1), 4); // execute
    assert_eq!(flags_to_prot(2), 2); // write
    assert_eq!(flags_to_prot(4), 1); // read
    assert_eq!(flags_to_prot(5), 5); // read + execute
    assert_eq!(flags_to_prot(6), 3); // read + write
    assert_eq!(flags_to_prot(7), 7);
}

#[test]
fn intersects_and_contains() {
    let a = span(0x1000, 0x3000);
    assert!(a.intersects(&span(0x2000, 0x4000)));
    assert!(!a.intersects(&span(0x3000, 0x4000)));
    assert!(a.contains(&span(0x1800, 0x2800)));
    assert!(!a.contains(&span(0x800, 0x2800)));
}

#[test]
fn subtract_ignore_subsumed_range_vanishes() {
    // The ignore range covers the whole span: nothing is left, so no
    // syscall would be issued for it.
    let ranges = vec![span(0x2000, 0x3000)];
    let out = subtract_ignore(&ranges, &span(0x1000, 0x4000));
    assert_eq!(out.len(), 0);
}

#[test]
fn subtract_ignore_interior_splits_in_two() {
    // The ignore range sits strictly inside the span: two pieces remain,
    // so two syscalls would be issued.
    let ranges = vec![span(0x1000, 0x4000)];
    let out = subtract_ignore(&ranges, &span(0x2000, 0x3000));
    assert_eq!(out.len(), 2);
    assert_eq!(out[0], span(0x1000, 0x2000));
    assert_eq!(out[1], span(0x3000, 0x4000));
}

#[test]
fn subtract_ignore_edge_overlap_shortens() {
    let ranges = vec![span(0x1000, 0x4000)];
    let out = subtract_ignore(&ranges, &span(0x0, 0x2000));
    assert_eq!(out, vec![span(0x2000, 0x4000)]);
    let out = subtract_ignore(&ranges, &span(0x3000, 0x5000));
    assert_eq!(out, vec![span(0x1000, 0x3000)]);
    let out = subtract_ignore(&ranges, &span(0x5000, 0x6000));
    assert_eq!(out, vec![span(0x1000, 0x4000)]);
}

#[test]
fn probe_is_found_in_loadable_segments_only() {
    let segments = vec![
        Segment { p_type: PT_GNU_RELRO, vaddr: 0x1000, memsz: 0x1000, flags: 4 },
        load(0x4000, 0x2000, 5),
    ];
    assert!(contains_probe(0x10000, &segments, 0x14000));
    assert!(contains_probe(0x10000, &segments, 0x15fff));
    assert!(!contains_probe(0x10000, &segments, 0x16000));
    // The address inside the non-loadable segment does not count.
    assert!(!contains_probe(0x10000, &segments, 0x11000));
}

#[test]
fn plan_covers_loadable_segments_minus_shared() {
    let segments = vec![
        load(0x0, 0x2000, 5),
        Segment { p_type: 0x6474e550, vaddr: 0x1000, memsz: 0x100, flags: 4 },
        load(0x4000, 0x3000, 6),
    ];
    let ignores = vec![span(0x15000, 0x16000)];
    let plan = compute_protect_ranges(0x10000, &segments, &ignores);
    assert_eq!(plan.len(), 3);
    // The first segment is untouched by the ignore range.
    assert_eq!(plan[0], (span(0x10000, 0x12000), 5));
    // The unwind-info segment is skipped entirely.
    // The writable segment is split around the shared section.
    assert_eq!(plan[1], (span(0x14000, 0x15000), 3));
    assert_eq!(plan[2], (span(0x16000, 0x17000), 3));
}

#[test]
fn plan_is_issued_only_for_the_probed_module() {
    let segments = vec![load(0x0, 0x1000, 5)];
    let ignores: Vec<AddressRange> = Vec::new();
    // Probe outside the module: keep iterating.
    assert!(protect_pages_plan(0x10000, &segments, 0x9000, &ignores).is_none());
    // Probe inside: the plan is produced.
    let plan = protect_pages_plan(0x10000, &segments, 0x10800, &ignores).unwrap();
    assert_eq!(plan, vec![(span(0x10000, 0x11000), 5)]);
}

#[test]
fn syscall_args_round_to_pages_and_skip_empty() {
    assert_eq!(pkey_mprotect_args(span(0x1000, 0x1000)), None);
    assert_eq!(pkey_mprotect_args(span(0x1234, 0x2345)), Some((0x1000, 0x2000)));
    assert_eq!(pkey_mprotect_args(span(0x1000, 0x2000)), Some((0x1000, 0x1000)));
}
