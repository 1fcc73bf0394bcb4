use ia2::region::Range;

#[test]
fn from_bounds_builds_non_empty_spans() {
    assert_eq!(Range::from_bounds(0x1000, 0x3000), Some(Range { start: 0x1000, len: 0x2000 }));
    assert_eq!(Range::from_bounds(0x1000, 0x1000), None);
    assert_eq!(Range::from_bounds(0x2000, 0x1000), None);
}

#[test]
fn end_and_subsumes() {
    let r = Range { start: 0x1000, len: 0x2000 };
    assert_eq!(r.end(), 0x3000);
    assert_eq!(r.as_std(), 0x1000..0x3000);
    assert!(r.subsumes(Range { start: 0x1000, len: 0x2000 }));
    assert!(r.subsumes(Range { start: 0x1800, len: 0x800 }));
    assert!(!r.subsumes(Range { start: 0x800, len: 0x1000 }));
    assert!(!r.subsumes(Range { start: 0x2800, len: 0x1000 }));
}

#[test]
fn overlap_returns_the_intersection() {
    let a = Range { start: 0x1000, len: 0x2000 };
    let b = Range { start: 0x2000, len: 0x2000 };
    assert_eq!(a.overlap(&b), Some(Range { start: 0x2000, len: 0x1000 }));
    let c = Range { start: 0x3000, len: 0x1000 };
    assert_eq!(a.overlap(&c), None);
}

#[test]
fn subtract_leaves_prefix_and_suffix() {
    let a = Range { start: 0x1000, len: 0x3000 };
    // Interior subtraction leaves both remnants.
    let parts = a.subtract(&Range { start: 0x2000, len: 0x1000 }).unwrap();
    assert_eq!(parts.0, Some(Range { start: 0x1000, len: 0x1000 }));
    assert_eq!(parts.1, Some(Range { start: 0x3000, len: 0x1000 }));
    // Remnants are disjoint from the subtracted span.
    assert_eq!(parts.0.unwrap().overlap(&Range { start: 0x2000, len: 0x1000 }), None);
    assert_eq!(parts.1.unwrap().overlap(&Range { start: 0x2000, len: 0x1000 }), None);
    // The three parts tile the original span.
    assert_eq!(parts.0.unwrap().end(), 0x2000);
    assert_eq!(parts.1.unwrap().start, 0x3000);
    // Subtracting a covering span leaves nothing.
    let parts = a.subtract(&Range { start: 0x0, len: 0x8000 }).unwrap();
    assert_eq!(parts, (None, None));
    // Subtracting a disjoint span changes nothing.
    assert_eq!(a.subtract(&Range { start: 0x8000, len: 0x1000 }), None);
    // Edge overlap shortens one side only.
    let parts = a.subtract(&Range { start: 0x0, len: 0x2000 }).unwrap();
    assert_eq!(parts, (None, Some(Range { start: 0x2000, len: 0x2000 })));
}

#[test]
fn round_to_4k_rounds_outward() {
    let mut r = Range { start: 0x1234, len: 0x100 };
    r.round_to_4k();
    assert_eq!(r, Range { start: 0x1000, len: 0x1000 });
}

#[test]
fn round_to_4k_is_idempotent() {
    let mut r = Range { start: 0x1234, len: 0x2345 };
    r.round_to_4k();
    let once = r;
    r.round_to_4k();
    assert_eq!(r, once);

    let mut aligned = Range { start: 0x4000, len: 0x3000 };
    aligned.round_to_4k();
    assert_eq!(aligned, Range { start: 0x4000, len: 0x3000 });
}
