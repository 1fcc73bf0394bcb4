//! Call-gate primitives: the per-thread stack of saved PKRU words.
//!
//! Crossing a compartment boundary pushes the caller's PKRU word onto a
//! fixed-capacity stack and forbids writes to the caller's key; returning
//! pops the saved word and restores it. The stack lives in one page of
//! trusted-only memory, so its capacity is the page size divided by the
//! four bytes of a PKRU word. Overflow and underflow are reported to the
//! caller, which must treat them as fatal.

use vstd::prelude::*;

use crate::pkru::PKRU;
use crate::pkru::write_mask;

verus! {

/// Saved PKRU words that fit in the stack's single page.
pub const GATE_STACK_CAPACITY: usize = 1024;

/// A value private to the trusted compartment; reading it from untrusted
/// code must fault once protection is active.
#[derive(Clone, Debug)]
pub struct SecretValue(pub i32);

/// A value placed in the shared section, readable from every compartment.
#[derive(Clone, Debug)]
pub struct SharedValue(pub i32);

/// One thread's stack of saved PKRU words, with the running count of gate
/// entries and exits.
pub struct GateStack {
    saved: Vec<PKRU>,
    pushes: Ghost<nat>,
    pops: Ghost<nat>,
}

impl GateStack {
    /// The saved words, oldest first.
    pub closed spec fn saved_words(self) -> Seq<PKRU> {
        self.saved@
    }

    /// How many gate entries this stack has seen.
    pub closed spec fn spec_pushes(self) -> nat {
        self.pushes@
    }

    /// How many gate exits this stack has seen.
    pub closed spec fn spec_pops(self) -> nat {
        self.pops@
    }

    /// The stack fits its page, and it holds exactly the pushes that have
    /// not been popped — so pops never outnumber pushes.
    pub open spec fn wf(self) -> bool {
        &&& self.saved_words().len() <= GATE_STACK_CAPACITY
        &&& self.spec_pops() <= self.spec_pushes()
        &&& self.saved_words().len() == self.spec_pushes() - self.spec_pops()
    }

    /// An empty stack for a thread entering its first gate.
    pub fn new() -> (r: GateStack)
        ensures
            r.wf(),
            r.saved_words().len() == 0,
            r.spec_pushes() == 0,
            r.spec_pops() == 0,
    {
        GateStack { saved: Vec::new(), pushes: Ghost(0), pops: Ghost(0) }
    }

    /// How many saved words the stack holds.
    pub fn depth(&self) -> (r: usize)
        ensures
            r == self.saved_words().len(),
    {
        self.saved.len()
    }

    /// Enters a gate: saves the current PKRU word and returns the word to
    /// load, which is the current one with writes to the caller's key
    /// forbidden. Returns `None` — and changes nothing — when the stack is
    /// full; the caller must fail-stop.
    pub fn gate_push(&mut self, current: PKRU, caller_key: i32) -> (r: Option<PKRU>)
        requires
            old(self).wf(),
            0 <= caller_key < 16,
        ensures
            final(self).wf(),
            old(self).saved_words().len() < GATE_STACK_CAPACITY ==> {
                &&& r == Some(PKRU(current.0 | write_mask(caller_key)))
                &&& final(self).saved_words() == old(self).saved_words().push(current)
                &&& final(self).spec_pushes() == old(self).spec_pushes() + 1
                &&& final(self).spec_pops() == old(self).spec_pops()
            },
            old(self).saved_words().len() == GATE_STACK_CAPACITY ==> {
                &&& r is None
                &&& final(self).saved_words() == old(self).saved_words()
                &&& final(self).spec_pushes() == old(self).spec_pushes()
                &&& final(self).spec_pops() == old(self).spec_pops()
            },
    {
        if self.saved.len() >= GATE_STACK_CAPACITY {
            return None;
        }
        self.saved.push(current);
        proof {
            self.pushes@ = self.pushes@ + 1;
        }
        let mut next = current;
        next.forbid_write(caller_key);
        Some(next)
    }

    /// Leaves a gate: pops and returns the PKRU word saved by the matching
    /// push, to be loaded back. Returns `None` — and changes nothing — when
    /// the stack is empty; the caller must fail-stop.
    pub fn gate_pop(&mut self) -> (r: Option<PKRU>)
        requires
            old(self).wf(),
        ensures
            final(self).wf(),
            old(self).saved_words().len() > 0 ==> {
                &&& r == Some(old(self).saved_words().last())
                &&& final(self).saved_words() == old(self).saved_words().drop_last()
                &&& final(self).spec_pushes() == old(self).spec_pushes()
                &&& final(self).spec_pops() == old(self).spec_pops() + 1
            },
            old(self).saved_words().len() == 0 ==> {
                &&& r is None
                &&& final(self).saved_words() == old(self).saved_words()
                &&& final(self).spec_pushes() == old(self).spec_pushes()
                &&& final(self).spec_pops() == old(self).spec_pops()
            },
    {
        match self.saved.pop() {
            None => None,
            Some(word) => {
                proof {
                    self.pops@ = self.pops@ + 1;
                }
                Some(word)
            },
        }
    }
}

/// Gate discipline: a well-formed stack has never seen more pops than
/// pushes — the saved words are exactly the pushes not yet popped.
pub proof fn lemma_gate_balance(stack: GateStack)
    requires
        stack.wf(),
    ensures
        stack.spec_pops() <= stack.spec_pushes(),
        stack.spec_pushes() - stack.spec_pops() == stack.saved_words().len(),
{
}

/// A push followed by its matching pop hands back the pushed PKRU word bit
/// for bit and leaves the saved words exactly as they were.
pub proof fn lemma_gate_push_pop_restores(saved: Seq<PKRU>, word: PKRU)
    ensures
        saved.push(word).last() == word,
        saved.push(word).drop_last() == saved,
{
    assert(saved.push(word).drop_last() =~= saved);
}

} // verus!
