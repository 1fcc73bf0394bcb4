//! The process-wide table of compartment protection keys.
//!
//! Slot `i` holds the protection key assigned to compartment `i + 1`, or a
//! sentinel while no key has been assigned. The table lives in its own
//! page-aligned, page-sized section that is writable only while an
//! initialization call is running. Once a slot holds a real key it never
//! changes: the only write allowed targets an unassigned slot.

use vstd::prelude::*;

verus! {

/// Slot value before any initialization attempt.
pub const UNINITIALIZED: i32 = -2;

/// Slot value after an initialization attempt on a machine without
/// protection keys.
pub const UNSUPPORTED: i32 = -1;

/// Slots for compartment keys 1 through 15; key 0 is the default untrusted
/// key and needs no slot.
pub const KEY_SLOT_COUNT: usize = 15;

/// Whether a slot value is one the table can hold: a sentinel or an
/// allocatable protection key.
pub open spec fn valid_slot_value(v: i32) -> bool {
    v == UNINITIALIZED || v == UNSUPPORTED || (1 <= v <= 15)
}

/// The table of per-compartment protection keys.
pub struct KeySlots {
    slots: Vec<i32>,
}

impl KeySlots {
    /// The slot values in order.
    pub closed spec fn view(self) -> Seq<i32> {
        self.slots@
    }

    /// The table has one slot per allocatable key and every slot holds a
    /// sentinel or a key.
    pub open spec fn wf(self) -> bool {
        &&& self@.len() == KEY_SLOT_COUNT
        &&& forall|i: int| 0 <= i < self@.len() ==> valid_slot_value(#[trigger] self@[i])
    }

    /// A table with every slot still unassigned.
    pub fn new() -> (r: KeySlots)
        ensures
            r.wf(),
            forall|i: int| 0 <= i < KEY_SLOT_COUNT ==> #[trigger] r@[i] == UNINITIALIZED,
    {
        let mut slots: Vec<i32> = Vec::new();
        while slots.len() < KEY_SLOT_COUNT
            invariant
                slots@.len() <= KEY_SLOT_COUNT,
                forall|i: int| 0 <= i < slots@.len() ==> #[trigger] slots@[i] == UNINITIALIZED,
            decreases KEY_SLOT_COUNT - slots.len(),
        {
            slots.push(UNINITIALIZED);
        }
        KeySlots { slots }
    }

    /// The value of one slot.
    pub fn get(&self, idx: usize) -> (r: i32)
        requires
            self.wf(),
            idx < KEY_SLOT_COUNT,
        ensures
            r == self@[idx as int],
    {
        self.slots[idx]
    }

    /// Whether an initialization call must still assign this slot.
    pub fn needs_init(&self, idx: usize) -> (r: bool)
        requires
            self.wf(),
            idx < KEY_SLOT_COUNT,
        ensures
            r == (self@[idx as int] == UNINITIALIZED),
    {
        self.slots[idx] == UNINITIALIZED
    }

    /// Assigns a freshly allocated key to an unassigned slot, leaving every
    /// other slot alone. A slot that already holds a key can never be
    /// written again: only unassigned slots are accepted.
    pub fn store_key(&mut self, idx: usize, key: i32)
        requires
            old(self).wf(),
            idx < KEY_SLOT_COUNT,
            old(self)@[idx as int] == UNINITIALIZED,
            1 <= key <= 15,
        ensures
            final(self).wf(),
            final(self)@ == old(self)@.update(idx as int, key),
    {
        self.slots[idx] = key;
    }

    /// Records that key allocation failed on this machine, leaving every
    /// other slot alone. Only unassigned slots are accepted.
    pub fn mark_unsupported(&mut self, idx: usize)
        requires
            old(self).wf(),
            idx < KEY_SLOT_COUNT,
            old(self)@[idx as int] == UNINITIALIZED,
        ensures
            final(self).wf(),
            final(self)@ == old(self)@.update(idx as int, UNSUPPORTED),
    {
        self.slots[idx] = UNSUPPORTED;
    }
}

} // verus!
