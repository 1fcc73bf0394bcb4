//! The type registry: a map from allocation address to declared type.
//!
//! Call gates defensively verify that a pointer crossing a trust boundary
//! still describes the type declared when the object was constructed.
//! `construct` registers an address, `destruct` unregisters it, and `check`
//! compares; each reports failure to the caller, which fail-stops. The
//! process-wide instance and its lock live outside this crate; the
//! registry itself is plain map logic.

use vstd::prelude::*;

use std::collections::BTreeMap;

verus! {

/// A pointer's address without provenance, used purely as a key.
#[derive(Clone, Copy, PartialEq, Eq, PartialOrd, Ord, Hash, Debug, Structural)]
pub struct PtrAddr(pub usize);

/// A unique ID for a type; anything goes, as long as it is unique for a
/// type within a program.
#[derive(Clone, Copy, PartialEq, Eq, Hash, Debug, Structural)]
pub struct TypeId(pub u32);

/// Whether a check of `p` against `t` succeeds on registry contents `m`:
/// the address is registered and with that very type.
pub open spec fn check_ok(m: Map<usize, u32>, p: usize, t: u32) -> bool {
    m.dom().contains(p) && m[p] == t
}

/// The registered addresses and their declared types.
pub struct TypeRegistry {
    map: BTreeMap<usize, u32>,
}

impl TypeRegistry {
    /// The registered addresses and their declared types.
    pub closed spec fn view(self) -> Map<usize, u32> {
        self.map@
    }

    /// An empty registry.
    pub fn new() -> (r: TypeRegistry)
        ensures
            r@ == Map::<usize, u32>::empty(),
    {
        TypeRegistry { map: BTreeMap::new() }
    }

    /// Registers a just-constructed object's address with its type.
    /// Returns `false` — and changes nothing — when the address is already
    /// registered; the caller must fail-stop.
    pub fn construct(&mut self, ptr: PtrAddr, type_id: TypeId) -> (r: bool)
        ensures
            r == !old(self)@.dom().contains(ptr.0),
            r ==> final(self)@ == old(self)@.insert(ptr.0, type_id.0),
            !r ==> final(self)@ == old(self)@,
    {
        if self.map.contains_key(&ptr.0) {
            false
        } else {
            self.map.insert(ptr.0, type_id.0);
            true
        }
    }

    /// Unregisters a just-destructured object's address. Returns `false` —
    /// and changes nothing — when the address is not registered; the caller
    /// must fail-stop.
    pub fn destruct(&mut self, ptr: PtrAddr, expected_type_id: TypeId) -> (r: bool)
        ensures
            r == old(self)@.dom().contains(ptr.0),
            final(self)@ == old(self)@.remove(ptr.0),
    {
        let _ = expected_type_id;
        self.map.remove(&ptr.0).is_some()
    }

    /// Checks that an address is registered with the expected type.
    /// Returns `false` when it is absent or registered with another type;
    /// the caller must fail-stop.
    pub fn check(&self, ptr: PtrAddr, expected_type_id: TypeId) -> (r: bool)
        ensures
            r == check_ok(self@, ptr.0, expected_type_id.0),
    {
        match self.map.get(&ptr.0) {
            None => false,
            Some(type_id) => *type_id == expected_type_id.0,
        }
    }

    /// How many addresses are registered.
    pub fn len(&self) -> (r: usize)
        ensures
            r == self@.dom().len(),
    {
        self.map.len()
    }
}

/// Registry discipline: after a construct, a check of that address against
/// the constructed type succeeds; after the matching destruct, no check of
/// that address succeeds; and neither call disturbs any other address.
pub proof fn lemma_registry_discipline(m: Map<usize, u32>, p: usize, t: u32, other: u32)
    ensures
        check_ok(m.insert(p, t), p, t),
        !check_ok(m.insert(p, t).remove(p), p, other),
        forall|q: usize|
            q != p ==> #[trigger] check_ok(m.insert(p, t), q, other) == check_ok(m, q, other),
        forall|q: usize|
            q != p ==> #[trigger] check_ok(m.insert(p, t).remove(p), q, other) == check_ok(
                m,
                q,
                other,
            ),
{
}

} // verus!
