//! The PKRU register word and its per-key permission bits.
//!
//! Bits `[2k, 2k+1]` of the 32-bit PKRU word hold the access-disable and
//! write-disable flags for protection key `k`; a bit value of 0 permits and
//! 1 denies. Reading and writing the hardware register itself (`rdpkru` /
//! `wrpkru`) is inline assembly and lives outside this crate; everything
//! here is plain bit arithmetic on the word.

use vstd::prelude::*;

verus! {

/// A copy of the per-thread PKRU register value.
#[derive(Debug, Clone, Copy, PartialEq, Eq, Structural)]
pub struct PKRU(pub i32);

/// The bit of `v` that denies reads for `key`: bit `2 * key`.
pub open spec fn read_mask(key: i32) -> i32 {
    1i32 << ((2 * key) as u32)
}

/// The bit of `v` that denies writes for `key`: bit `2 * key + 1`.
pub open spec fn write_mask(key: i32) -> i32 {
    2i32 << ((2 * key) as u32)
}

/// Whether the word `v` permits reads through `key` (read-deny bit clear).
pub open spec fn permits_read(v: i32, key: i32) -> bool {
    v & read_mask(key) == 0
}

/// Whether the word `v` permits writes through `key` (write-deny bit clear).
pub open spec fn permits_write(v: i32, key: i32) -> bool {
    v & write_mask(key) == 0
}

impl PKRU {
    /// The raw 32-bit register value.
    pub fn bits(self) -> (r: i32)
        ensures
            r == self.0,
    {
        self.0
    }

    /// Wraps a raw register value, as read by `rdpkru`.
    pub fn from_bits(bits: i32) -> (r: PKRU)
        ensures
            r.0 == bits,
    {
        PKRU(bits)
    }

    /// The spec-level view of the word.
    pub open spec fn view(self) -> i32 {
        self.0
    }

    fn read_mask(key: i32) -> (r: i32)
        requires
            0 <= key < 16,
        ensures
            r == read_mask(key),
    {
        1i32 << ((2 * key) as u32)
    }

    fn write_mask(key: i32) -> (r: i32)
        requires
            0 <= key < 16,
        ensures
            r == write_mask(key),
    {
        2i32 << ((2 * key) as u32)
    }

    /// Whether this word permits reads through `key`.
    pub fn can_read(&self, key: i32) -> (r: bool)
        requires
            0 <= key < 16,
        ensures
            r == permits_read(self.0, key),
    {
        let mask = PKRU::read_mask(key);
        (self.0 & mask) == 0
    }

    /// Whether this word permits writes through `key`.
    pub fn can_write(&self, key: i32) -> (r: bool)
        requires
            0 <= key < 16,
        ensures
            r == permits_write(self.0, key),
    {
        let mask = PKRU::write_mask(key);
        (self.0 & mask) == 0
    }

    /// Clears the write-deny bit for `key`, leaving every other bit alone.
    pub fn allow_write(&mut self, key: i32)
        requires
            0 <= key < 16,
        ensures
            final(self).0 == old(self).0 & !write_mask(key),
            permits_write(final(self).0, key),
    {
        let mask = PKRU::write_mask(key);
        self.0 &= !mask;
        proof {
            lemma_clear_write_mask(old(self).0, key);
        }
    }

    /// Sets the write-deny bit for `key`, leaving every other bit alone.
    pub fn forbid_write(&mut self, key: i32)
        requires
            0 <= key < 16,
        ensures
            final(self).0 == old(self).0 | write_mask(key),
            !permits_write(final(self).0, key),
    {
        let mask = PKRU::write_mask(key);
        self.0 |= mask;
        proof {
            lemma_set_write_mask(old(self).0, key);
        }
    }
}

/// Clearing the write-deny bit leaves the word permitting writes for that key.
proof fn lemma_clear_write_mask(v: i32, key: i32)
    requires
        0 <= key < 16,
    ensures
        permits_write(v & !write_mask(key), key),
{
    assert((v & !(2i32 << ((2 * key) as u32))) & (2i32 << ((2 * key) as u32)) == 0) by (bit_vector)
        requires
            0 <= key < 16,
    ;
}

/// Setting the write-deny bit leaves the word denying writes for that key.
proof fn lemma_set_write_mask(v: i32, key: i32)
    requires
        0 <= key < 16,
    ensures
        !permits_write(v | write_mask(key), key),
{
    assert((v | (2i32 << ((2 * key) as u32))) & (2i32 << ((2 * key) as u32)) != 0) by (bit_vector)
        requires
            0 <= key < 16,
    ;
}

/// Toggling the write-deny bit for one key never touches another key's bits:
/// reads for every key, and writes for every other key, are unaffected.
pub proof fn lemma_write_mask_isolated(v: i32, key: i32, other: i32)
    requires
        0 <= key < 16,
        0 <= other < 16,
    ensures
        permits_read(v | write_mask(key), other) == permits_read(v, other),
        permits_read(v & !write_mask(key), other) == permits_read(v, other),
        other != key ==> permits_write(v | write_mask(key), other) == permits_write(v, other),
        other != key ==> permits_write(v & !write_mask(key), other) == permits_write(v, other),
{
    assert(((v | (2i32 << ((2 * key) as u32))) & (1i32 << ((2 * other) as u32)) == 0) == (v & (
    1i32 << ((2 * other) as u32)) == 0)) by (bit_vector)
        requires
            0 <= key < 16,
            0 <= other < 16,
    ;
    assert(((v & !(2i32 << ((2 * key) as u32))) & (1i32 << ((2 * other) as u32)) == 0) == (v & (
    1i32 << ((2 * other) as u32)) == 0)) by (bit_vector)
        requires
            0 <= key < 16,
            0 <= other < 16,
    ;
    assert(other != key ==> ((v | (2i32 << ((2 * key) as u32))) & (2i32 << ((2 * other) as u32))
        == 0) == (v & (2i32 << ((2 * other) as u32)) == 0)) by (bit_vector)
        requires
            0 <= key < 16,
            0 <= other < 16,
    ;
    assert(other != key ==> ((v & !(2i32 << ((2 * key) as u32))) & (2i32 << ((2 * other) as u32))
        == 0) == (v & (2i32 << ((2 * other) as u32)) == 0)) by (bit_vector)
        requires
            0 <= key < 16,
            0 <= other < 16,
    ;
}

} // verus!
