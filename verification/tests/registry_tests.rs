use ia2::registry::PtrAddr;
use ia2::registry::TypeId;
use ia2::registry::TypeRegistry;

fn ptr(addr: usize) -> PtrAddr {
    PtrAddr(addr)
}

#[test]
fn normal() {
    let mut registry = TypeRegistry::new();
    assert!(registry.construct(ptr(0xA), TypeId(1)));
    assert!(registry.check(ptr(0xA), TypeId(1)));
    assert!(registry.construct(ptr(0xB), TypeId(2)));
    assert!(registry.check(ptr(0xA), TypeId(1)));
    assert!(registry.check(ptr(0xB), TypeId(2)));
    assert!(registry.destruct(ptr(0xA), TypeId(1)));
    assert!(registry.check(ptr(0xB), TypeId(2)));
    assert!(registry.destruct(ptr(0xB), TypeId(2)));
}

#[test]
#[should_panic]
fn destruct_non_existent_ptr() {
    let mut registry = TypeRegistry::new();
    assert!(registry.destruct(ptr(0xA), TypeId(1)));
}

#[test]
#[should_panic]
fn check_non_existent_ptr() {
    let registry = TypeRegistry::new();
    assert!(registry.check(ptr(0xA), TypeId(1)));
}

#[test]
#[should_panic]
fn check_freed_ptr() {
    let mut registry = TypeRegistry::new();
    assert!(registry.construct(ptr(0xA), TypeId(1)));
    assert!(registry.check(ptr(0xA), TypeId(1)));
    assert!(registry.destruct(ptr(0xA), TypeId(1)));
    assert!(registry.check(ptr(0xA), TypeId(1)));
}

#[test]
#[should_panic]
fn construct_existing_ptr() {
    let mut registry = TypeRegistry::new();
    assert!(registry.construct(ptr(0xA), TypeId(1)));
    assert!(registry.check(ptr(0xA), TypeId(1)));
    assert!(registry.construct(ptr(0xA), TypeId(1)));
}

#[test]
fn check_distinguishes_types() {
    let mut registry = TypeRegistry::new();
    assert!(registry.construct(ptr(0x10), TypeId(7)));
    assert!(!registry.check(ptr(0x10), TypeId(8)));
    assert!(registry.check(ptr(0x10), TypeId(7)));
    assert_eq!(registry.len(), 1);
}

#[test]
fn destruct_ignores_expected_type() {
    let mut registry = TypeRegistry::new();
    assert!(registry.construct(ptr(0x20), TypeId(1)));
    assert!(registry.destruct(ptr(0x20), TypeId(2)));
    assert!(!registry.check(ptr(0x20), TypeId(1)));
    assert_eq!(registry.len(), 0);
}

#[test]
fn reconstruct_after_destruct() {
    let mut registry = TypeRegistry::new();
    assert!(registry.construct(ptr(0x30), TypeId(1)));
    assert!(registry.destruct(ptr(0x30), TypeId(1)));
    assert!(registry.construct(ptr(0x30), TypeId(2)));
    assert!(registry.check(ptr(0x30), TypeId(2)));
    assert!(!registry.check(ptr(0x30), TypeId(1)));
}
