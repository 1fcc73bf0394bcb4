use ia2::memmap::MemoryMap;
use ia2::memmap::PKEY_MULTIPLE;
use ia2::memmap::PKEY_NONE;
use ia2::memmap::PROT_INDETERMINATE;
use ia2::memmap::memory_map_add_region;
use ia2::memmap::memory_map_clear;
use ia2::memmap::memory_map_clone;
use ia2::memmap::memory_map_destroy;
use ia2::memmap::memory_map_is_init_finished;
use ia2::memmap::memory_map_mark_init_finished;
use ia2::memmap::memory_map_mprotect_region;
use ia2::memmap::memory_map_new;
use ia2::memmap::memory_map_pkey_mprotect_region;
use ia2::memmap::memory_map_split_region;
use ia2::memmap::memory_map_unmap_region;
use ia2::memmap::memory_map_all_overlapping_regions_have_pkey;
use ia2::memmap::memory_map_all_overlapping_regions_mprotected;
use ia2::memmap::memory_map_all_overlapping_regions_pkey_mprotected;
use ia2::memmap::memory_map_region_get_owner_pkey;
use ia2::memmap::memory_map_region_get_prot;
use ia2::region::MemRegion;
use ia2::region::Range;
use ia2::region::State;

fn range(start: usize, len: usize) -> Range {
    Range { start, len }
}

fn state(owner_pkey: u8, prot: u32) -> State {
    State { owner_pkey, pkey_mprotected: false, mprotected: false, prot }
}

#[test]
fn add_rejects_zero_length() {
    let mut map = MemoryMap::new();
    assert!(!map.add_region(range(0x1000, 0), state(1, 3)));
    assert_eq!(map.find_overlapping_region(range(0, 0x10000)), None);
}

#[test]
fn add_rejects_overlap_and_keeps_map() {
    // One region [0x1000, 0x2000) owned by key 1.
    let mut map = MemoryMap::new();
    assert!(memory_map_add_region(&mut map, range(0x1000, 0x1000), 1, 3));
    // An overlapping addition is refused and changes nothing.
    assert!(!memory_map_add_region(&mut map, range(0x1800, 0x1800), 2, 3));
    let regions = map.overlapping_regions(range(0, 0x10000));
    assert_eq!(regions.len(), 1);
    assert_eq!(regions[0].range, range(0x1000, 0x1000));
    assert_eq!(regions[0].state.owner_pkey, 1);
    // A disjoint addition lands, leaving two disjoint regions.
    assert!(memory_map_add_region(&mut map, range(0x2000, 0x1000), 2, 3));
    let regions = map.overlapping_regions(range(0, 0x10000));
    assert_eq!(regions.len(), 2);
    assert_eq!(regions[0].range, range(0x1000, 0x1000));
    assert_eq!(regions[1].range, range(0x2000, 0x1000));
}

#[test]
fn add_rounds_to_pages() {
    let mut map = MemoryMap::new();
    assert!(map.add_region(range(0x1234, 0x100), state(1, 3)));
    let found = map.find_overlapping_region(range(0x1000, 0x1000)).unwrap();
    assert_eq!(found.range, range(0x1000, 0x1000));
}

#[test]
fn lookups_find_the_right_region() {
    let mut map = MemoryMap::new();
    assert!(map.add_region(range(0x1000, 0x1000), state(1, 3)));
    assert!(map.add_region(range(0x4000, 0x2000), state(2, 5)));
    // The overlapping lookup returns the lowest overlapping region.
    let found = map.find_overlapping_region(range(0x0, 0x10000)).unwrap();
    assert_eq!(found.range, range(0x1000, 0x1000));
    // An exact lookup wants the precise span.
    assert!(map.find_region_exact(range(0x4000, 0x2000)).is_some());
    assert!(map.find_region_exact(range(0x4000, 0x1000)).is_none());
    // A containing-address lookup.
    let holder = map.find_region_containing_addr(0x5abc).unwrap();
    assert_eq!(holder.range, range(0x4000, 0x2000));
    assert!(map.find_region_containing_addr(0x3000).is_none());
}

#[test]
fn remove_region_takes_exact_span() {
    let mut map = MemoryMap::new();
    assert!(map.add_region(range(0x1000, 0x1000), state(1, 3)));
    assert!(map.remove_region(range(0x1000, 0x800)).is_none());
    let removed = map.remove_region(range(0x1000, 0x1000)).unwrap();
    assert_eq!(removed.state.owner_pkey, 1);
    assert!(map.find_overlapping_region(range(0, 0x10000)).is_none());
}

#[test]
fn split_out_full_extent_leaves_no_remnants() {
    let mut map = MemoryMap::new();
    assert!(map.add_region(range(0x1000, 0x1000), state(1, 3)));
    let slices = map.split_out_region(range(0x1000, 0x1000));
    assert_eq!(slices.len(), 1);
    assert_eq!(slices[0].range, range(0x1000, 0x1000));
    assert!(map.find_overlapping_region(range(0, 0x10000)).is_none());
}

#[test]
fn split_out_interior_leaves_two_remnants() {
    let mut map = MemoryMap::new();
    assert!(map.add_region(range(0x1000, 0x3000), state(1, 3)));
    let slices = map.split_out_region(range(0x2000, 0x1000));
    assert_eq!(slices.len(), 1);
    assert_eq!(slices[0].range, range(0x2000, 0x1000));
    let remnants = map.overlapping_regions(range(0, 0x10000));
    assert_eq!(remnants.len(), 2);
    assert_eq!(remnants[0].range, range(0x1000, 0x1000));
    assert_eq!(remnants[1].range, range(0x3000, 0x1000));
    assert_eq!(remnants[0].state.owner_pkey, 1);
    assert_eq!(remnants[1].state.owner_pkey, 1);
}

#[test]
fn split_out_spanning_several_regions() {
    let mut map = MemoryMap::new();
    assert!(map.add_region(range(0x1000, 0x1000), state(1, 1)));
    assert!(map.add_region(range(0x2000, 0x1000), state(2, 2)));
    assert!(map.add_region(range(0x3000, 0x1000), state(3, 4)));
    let slices = map.split_out_region(range(0x1800, 0x2000));
    // Slices come back in increasing order with their own states.
    assert_eq!(slices.len(), 3);
    assert_eq!(slices[0].range, range(0x1000, 0x1000));
    assert_eq!(slices[1].range, range(0x2000, 0x1000));
    assert_eq!(slices[2].range, range(0x3000, 0x1000));
    // Everything was page-rounded away; nothing remains.
    assert!(map.find_overlapping_region(range(0, 0x10000)).is_none());
}

#[test]
fn unmap_requires_full_coverage() {
    let mut map = MemoryMap::new();
    assert!(map.add_region(range(0x1000, 0x1000), state(1, 3)));
    // A range reaching into unmapped space is refused without change.
    assert!(!map.unmap_region(range(0x1000, 0x2000)));
    assert!(map.find_region_exact(range(0x1000, 0x1000)).is_some());
    // The covered range is removed.
    assert!(map.unmap_region(range(0x1000, 0x1000)));
    assert!(map.find_overlapping_region(range(0, 0x10000)).is_none());
}

#[test]
fn contains_holes_sees_gaps() {
    let mut map = MemoryMap::new();
    assert!(map.add_region(range(0x1000, 0x1000), state(1, 3)));
    assert!(map.add_region(range(0x3000, 0x1000), state(1, 3)));
    assert!(!map.contains_holes(range(0x1000, 0x1000)));
    assert!(map.contains_holes(range(0x1000, 0x3000)));
    assert!(map.contains_holes(range(0x8000, 0x1000)));
}

#[test]
fn pkey_mprotect_rewrites_ownership_during_init() {
    let mut map = MemoryMap::new();
    assert!(map.add_region(range(0x1000, 0x1000), state(2, 3)));
    // During initialization the call is allowed and rewrites ownership.
    assert!(map.pkey_mprotect_region(range(0x1000, 0x1000), 3));
    assert_eq!(memory_map_region_get_owner_pkey(&map, range(0x1000, 0x1000)), 3);
    assert!(memory_map_all_overlapping_regions_pkey_mprotected(
        &map,
        range(0x1000, 0x1000),
        true
    ));
}

#[test]
fn pkey_mprotect_is_monotonic_after_init() {
    let mut map = MemoryMap::new();
    assert!(map.add_region(range(0x1000, 0x1000), state(2, 3)));
    assert!(map.mark_init_finished());
    // Once initialization is over, memory owned by key 2 cannot be re-keyed
    // to key 3, and the map is unchanged.
    assert!(!map.pkey_mprotect_region(range(0x1000, 0x1000), 3));
    assert_eq!(memory_map_region_get_owner_pkey(&map, range(0x1000, 0x1000)), 2);
    assert!(memory_map_all_overlapping_regions_pkey_mprotected(
        &map,
        range(0x1000, 0x1000),
        false
    ));
    // The owner itself may still protect unprotected memory once.
    assert!(map.pkey_mprotect_region(range(0x1000, 0x1000), 2));
    assert!(!map.pkey_mprotect_region(range(0x1000, 0x1000), 2));
}

#[test]
fn pkey_mprotect_claims_unowned_memory() {
    let mut map = MemoryMap::new();
    assert!(map.add_region(range(0x1000, 0x2000), state(0, 3)));
    assert!(map.mark_init_finished());
    assert!(map.pkey_mprotect_region(range(0x1000, 0x1000), 5));
    // Only the protected half changes hands.
    assert_eq!(memory_map_region_get_owner_pkey(&map, range(0x1000, 0x1000)), 5);
    assert_eq!(memory_map_region_get_owner_pkey(&map, range(0x2000, 0x1000)), 0);
    assert_eq!(memory_map_region_get_owner_pkey(&map, range(0x1000, 0x2000)), PKEY_MULTIPLE);
}

#[test]
fn pkey_mprotect_rejects_holes() {
    let mut map = MemoryMap::new();
    assert!(map.add_region(range(0x1000, 0x1000), state(0, 3)));
    assert!(!map.pkey_mprotect_region(range(0x1000, 0x2000), 5));
    assert_eq!(memory_map_region_get_owner_pkey(&map, range(0x1000, 0x1000)), 0);
}

#[test]
fn mprotect_updates_prot_and_mark() {
    let mut map = MemoryMap::new();
    assert!(map.add_region(range(0x1000, 0x2000), state(1, 0)));
    assert!(map.mprotect_region(range(0x1000, 0x1000), 5));
    assert_eq!(memory_map_region_get_prot(&map, range(0x1000, 0x1000)), 5);
    assert_eq!(memory_map_region_get_prot(&map, range(0x2000, 0x1000)), 0);
    assert_eq!(memory_map_region_get_prot(&map, range(0x1000, 0x2000)), PROT_INDETERMINATE);
    assert!(memory_map_all_overlapping_regions_mprotected(&map, range(0x1000, 0x1000), true));
    assert!(memory_map_all_overlapping_regions_mprotected(&map, range(0x2000, 0x1000), false));
    // A hole makes the whole call fail.
    assert!(!map.mprotect_region(range(0x2000, 0x4000), 7));
}

#[test]
fn queries_report_sentinels_when_empty() {
    let map = MemoryMap::new();
    assert_eq!(memory_map_region_get_prot(&map, range(0x1000, 0x1000)), PROT_INDETERMINATE);
    assert_eq!(memory_map_region_get_owner_pkey(&map, range(0x1000, 0x1000)), PKEY_NONE);
    // The universal queries hold vacuously.
    assert!(memory_map_all_overlapping_regions_have_pkey(&map, range(0x1000, 0x1000), 9));
}

#[test]
fn have_pkey_checks_every_overlapping_region() {
    let mut map = MemoryMap::new();
    assert!(map.add_region(range(0x1000, 0x1000), state(4, 3)));
    assert!(map.add_region(range(0x2000, 0x1000), state(4, 3)));
    assert!(memory_map_all_overlapping_regions_have_pkey(&map, range(0x1000, 0x2000), 4));
    assert!(!memory_map_all_overlapping_regions_have_pkey(&map, range(0x1000, 0x2000), 5));
    assert!(map.add_region(range(0x3000, 0x1000), state(6, 3)));
    assert!(!memory_map_all_overlapping_regions_have_pkey(&map, range(0x1000, 0x3000), 4));
}

#[test]
fn split_region_rekeys_one_region() {
    let mut map = MemoryMap::new();
    assert!(map.add_region(range(0x1000, 0x3000), state(1, 3)));
    let reg = map.split_region(range(0x2000, 0x1000), 7, 5).unwrap();
    assert_eq!(reg.range, range(0x2000, 0x1000));
    assert_eq!(reg.state.owner_pkey, 7);
    assert_eq!(reg.state.prot, 5);
    assert_eq!(memory_map_region_get_owner_pkey(&map, range(0x2000, 0x1000)), 7);
    assert_eq!(memory_map_region_get_owner_pkey(&map, range(0x1000, 0x1000)), 1);
    // Touching two regions at once is refused.
    assert!(map.split_region(range(0x1800, 0x1000), 8, 5).is_none());
}

#[test]
fn clear_and_clone_and_init_flag() {
    let mut map = MemoryMap::new();
    assert!(!map.is_init_finished());
    assert!(map.mark_init_finished());
    assert!(!map.mark_init_finished());
    assert!(map.is_init_finished());
    assert!(map.add_region(range(0x1000, 0x1000), state(1, 3)));
    let copy = map.clone();
    assert!(copy.is_init_finished());
    assert!(copy.find_region_exact(range(0x1000, 0x1000)).is_some());
    map.clear();
    assert!(!map.is_init_finished());
    assert!(map.find_overlapping_region(range(0, 0x10000)).is_none());
    // The copy is untouched by clearing the original.
    assert!(copy.find_region_exact(range(0x1000, 0x1000)).is_some());
}

#[test]
fn regions_stay_disjoint_and_page_aligned() {
    let mut map = MemoryMap::new();
    assert!(map.add_region(range(0x1100, 0x1800), state(1, 3)));
    assert!(map.add_region(range(0x5000, 0x1000), state(2, 3)));
    let _ = map.split_out_region(range(0x1000, 0x1000));
    assert!(map.add_region(range(0x9010, 0x20), state(3, 3)));
    let regions = map.overlapping_regions(range(0, 0x100000));
    for r in &regions {
        assert_eq!(r.range.start % 4096, 0);
        assert_eq!(r.range.len % 4096, 0);
        assert!(r.range.len > 0);
    }
    for i in 1..regions.len() {
        assert!(regions[i - 1].range.end() <= regions[i].range.start);
    }
}

#[test]
fn memory_map_c_surface_round_trip() {
    let mut map = memory_map_new();
    assert!(memory_map_add_region(&mut map, range(0x1000, 0x2000), 0, 3));
    assert!(memory_map_pkey_mprotect_region(&mut map, range(0x1000, 0x1000), 4));
    assert!(memory_map_mprotect_region(&mut map, range(0x2000, 0x1000), 1));
    assert!(memory_map_split_region(&mut map, range(0x2000, 0x1000), 9, 2));
    assert!(memory_map_mark_init_finished(&mut map));
    assert!(memory_map_is_init_finished(&map));
    let mut copy = memory_map_clone(&mut map);
    assert!(memory_map_unmap_region(&mut copy, range(0x1000, 0x2000)));
    assert!(copy.find_overlapping_region(range(0, 0x10000)).is_none());
    assert!(map.find_overlapping_region(range(0, 0x10000)).is_some());
    memory_map_clear(&mut map);
    assert!(!memory_map_is_init_finished(&map));
    memory_map_destroy(map);
    memory_map_destroy(copy);
}

#[test]
fn overlapping_regions_reports_states_exactly() {
    let mut map = MemoryMap::new();
    let st = State { owner_pkey: 11, pkey_mprotected: true, mprotected: false, prot: 6 };
    assert!(map.add_region(range(0x1000, 0x1000), st));
    let regions = map.overlapping_regions(range(0x800, 0x1000));
    assert_eq!(regions.len(), 1);
    assert_eq!(regions[0], MemRegion { range: range(0x1000, 0x1000), state: st });
}
