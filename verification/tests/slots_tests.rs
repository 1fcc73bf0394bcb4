use ia2::slots::KEY_SLOT_COUNT;
use ia2::slots::KeySlots;
use ia2::slots::UNINITIALIZED;
use ia2::slots::UNSUPPORTED;

#[test]
fn fresh_table_is_unassigned() {
    let slots = KeySlots::new();
    for idx in 0..KEY_SLOT_COUNT {
        assert_eq!(slots.get(idx), UNINITIALIZED);
        assert!(slots.needs_init(idx));
    }
}

#[test]
fn store_key_assigns_one_slot_only() {
    let mut slots = KeySlots::new();
    slots.store_key(3, 7);
    assert_eq!(slots.get(3), 7);
    assert!(!slots.needs_init(3));
    for idx in 0..KEY_SLOT_COUNT {
        if idx != 3 {
            assert_eq!(slots.get(idx), UNINITIALIZED);
        }
    }
}

#[test]
fn unsupported_machines_are_recorded() {
    let mut slots = KeySlots::new();
    slots.mark_unsupported(0);
    assert_eq!(slots.get(0), UNSUPPORTED);
    assert!(!slots.needs_init(0));
}
