use ia2::gate::GATE_STACK_CAPACITY;
use ia2::gate::GateStack;
use ia2::gate::SecretValue;
use ia2::gate::SharedValue;
use ia2::pkru::PKRU;

#[test]
fn fresh_word_permits_everything() {
    let word = PKRU::from_bits(0);
    for key in 0..16 {
        assert!(word.can_read(key));
        assert!(word.can_write(key));
    }
}

#[test]
fn forbid_write_touches_only_its_key() {
    let mut word = PKRU::from_bits(0);
    word.forbid_write(3);
    assert!(!word.can_write(3));
    assert!(word.can_read(3));
    for key in 0..16 {
        if key != 3 {
            assert!(word.can_write(key));
        }
        assert!(word.can_read(key));
    }
    assert_eq!(word.bits(), 2 << 6);
}

#[test]
fn allow_write_clears_the_deny_bit() {
    let mut word = PKRU::from_bits(0);
    word.forbid_write(5);
    word.forbid_write(7);
    word.allow_write(5);
    assert!(word.can_write(5));
    assert!(!word.can_write(7));
    word.allow_write(7);
    assert_eq!(word.bits(), 0);
}

#[test]
fn gate_push_forbids_callers_key() {
    let mut stack = GateStack::new();
    let current = PKRU::from_bits(0);
    let next = stack.gate_push(current, 1).unwrap();
    assert!(!next.can_write(1));
    assert!(next.can_read(1));
    assert!(next.can_write(2));
    assert_eq!(stack.depth(), 1);
}

#[test]
fn gate_pop_restores_pkru_bit_for_bit() {
    let mut stack = GateStack::new();
    let current = PKRU::from_bits(0x0000_00a4);
    let gated = stack.gate_push(current, 1).unwrap();
    assert_ne!(gated, current);
    let restored = stack.gate_pop().unwrap();
    assert_eq!(restored, current);
    assert_eq!(stack.depth(), 0);
}

#[test]
fn double_push_is_legal_and_nests() {
    let mut stack = GateStack::new();
    let outer = PKRU::from_bits(0);
    let inner = stack.gate_push(outer, 1).unwrap();
    let innermost = stack.gate_push(inner, 2).unwrap();
    assert!(!innermost.can_write(1));
    assert!(!innermost.can_write(2));
    assert_eq!(stack.gate_pop().unwrap(), inner);
    assert_eq!(stack.gate_pop().unwrap(), outer);
}

#[test]
fn pop_of_empty_stack_is_reported() {
    let mut stack = GateStack::new();
    assert_eq!(stack.gate_pop(), None);
}

#[test]
fn push_overflow_is_reported() {
    let mut stack = GateStack::new();
    let word = PKRU::from_bits(0);
    for _ in 0..GATE_STACK_CAPACITY {
        assert!(stack.gate_push(word, 1).is_some());
    }
    assert_eq!(stack.gate_push(word, 1), None);
    assert_eq!(stack.depth(), GATE_STACK_CAPACITY);
}

#[test]
fn gated_word_blocks_trusted_memory_only() {
    // Key 1 guards the trusted compartment, key 2 the untrusted one. Gating
    // from trusted into untrusted forbids writes through key 1; the shared
    // key 0 stays accessible both ways.
    let secret = SecretValue(42);
    let shared = SharedValue(7);
    let mut stack = GateStack::new();
    let trusted = PKRU::from_bits(0);
    let untrusted = stack.gate_push(trusted, 1).unwrap();
    assert!(untrusted.can_read(0) && untrusted.can_write(0));
    assert!(untrusted.can_write(2));
    assert!(!untrusted.can_write(1));

    let back = stack.gate_pop().unwrap();
    assert!(back.can_write(1));
    assert_eq!(secret.0, 42);
    assert_eq!(shared.0, 7);
}
