use alco::builder::ParamBuilder;
use alco::decimal::Decimal;
use alco::error::Error;
use alco::params::{Items, ParamSet, ParamType, UsizeRange};
use alco::sample::Sample;
use alco::text::chars_of_str;

#[test]
fn duplicate_name_is_rejected_and_state_unchanged() {
    let mut b = ParamBuilder::new();
    b.add_usize_range("n", 0, 100, 1).unwrap();
    match b.add_usize_range("n", 5, 50, 1) {
        Err(Error::ArgumentAlreadyExists(name)) => assert_eq!(name, "n"),
        _ => panic!("expected the duplicate-name error"),
    }
    assert_eq!(b.params().len(), 1);
    // The surviving definition is the first one.
    let lb = b.lower_bound().unwrap();
    assert_eq!(lb.get_usize("n"), Some(0));
}

#[test]
fn duplicate_name_across_kinds_is_rejected() {
    let mut b = ParamBuilder::new();
    b.add_items("mode", vec![Sample::Str(chars_of_str("a"))]).unwrap();
    assert!(matches!(
        b.add_float_range(
            "mode",
            Decimal { num: 0, scale: 0 },
            Decimal { num: 5, scale: 0 },
            Decimal { num: 1, scale: 0 },
        ),
        Err(Error::ArgumentAlreadyExists(_))
    ));
    assert_eq!(b.params().len(), 1);
}

#[test]
fn lower_bound_is_deterministic() {
    let mut b = ParamBuilder::new();
    b.add_usize_range("n", 3, 10, 2).unwrap();
    b.add_items("mode", vec![Sample::Str(chars_of_str("x")), Sample::Str(chars_of_str("y"))])
        .unwrap();
    let first = b.lower_bound().unwrap();
    let second = b.lower_bound().unwrap();
    assert_eq!(first.entries.len(), second.entries.len());
    for (a, c) in first.entries.iter().zip(second.entries.iter()) {
        assert_eq!(a.name, c.name);
        assert_eq!(a.sample.to_string(), c.sample.to_string());
    }
    assert_eq!(first.get_usize("n"), Some(3));
}

#[test]
fn lower_bound_fails_only_on_an_empty_parameter() {
    let mut b = ParamBuilder::new();
    b.add_usize_range("n", 0, 10, 1).unwrap();
    assert!(b.lower_bound().is_some());
    b.add_items("empty", vec![]).unwrap();
    assert!(b.lower_bound().is_none());

    let mut c = ParamBuilder::new();
    c.add_usize_range("hollow", 5, 5, 1).unwrap();
    assert!(c.lower_bound().is_none());
}

#[test]
fn step_samples_follow_the_arithmetic() {
    let r = UsizeRange { lo: 16, hi: 16384, step: 16 };
    for k in [0usize, 1, 2, 100, 1022] {
        match r.for_step(k) {
            Some(Sample::Usize(v)) => assert_eq!(v, 16 + 16 * k),
            _ => panic!("step {} should exist", k),
        }
    }
    // 16 + 1023 * 16 == 16384 is past the half-open end.
    assert!(r.for_step(1023).is_none());
    assert!(r.for_step(usize::MAX).is_none());
}

#[test]
fn float_steps_share_the_scale() {
    let r = alco::params::FloatRange {
        lo: Decimal { num: 10, scale: 1 },
        hi: Decimal { num: 30, scale: 1 },
        step: Decimal { num: 5, scale: 1 },
    };
    match r.for_step(2) {
        Some(Sample::Float(d)) => assert_eq!((d.num, d.scale), (20, 1)),
        _ => panic!("step 2 should exist"),
    }
    assert!(r.for_step(4).is_none());
}

#[test]
fn from_range_dispatches_on_the_kinds() {
    match ParamType::from_range(Sample::Usize(1), Sample::Usize(9), Sample::Usize(2)) {
        Ok(ParamType::Usize(r)) => assert_eq!((r.lo, r.hi, r.step), (1, 9, 2)),
        _ => panic!("expected an integer range"),
    }
    assert!(matches!(
        ParamType::from_range(
            Sample::Str(chars_of_str("a")),
            Sample::Str(chars_of_str("b")),
            Sample::Str(chars_of_str("c")),
        ),
        Err(Error::StringRange)
    ));
    assert!(matches!(
        ParamType::from_range(Sample::Usize(1), Sample::Str(chars_of_str("b")), Sample::Usize(1)),
        Err(Error::InvalidType(_))
    ));
}

#[test]
fn items_are_indexed_in_order() {
    let it = Items { items: vec![Sample::Usize(4), Sample::Usize(9)] };
    assert_eq!(it.num_items(), 2);
    assert!(matches!(it.for_step(0), Some(Sample::Usize(4))));
    assert!(matches!(it.for_step(1), Some(Sample::Usize(9))));
    assert!(it.for_step(2).is_none());
}

#[test]
fn from_indices_respects_step_bounds() {
    let mut b = ParamBuilder::new();
    b.add_usize_range("n", 0, 10, 3).unwrap();
    b.add_usize_range("m", 1, 5, 1).unwrap();
    let ok = b
        .from_indices(&vec![("n".to_owned(), 2), ("m".to_owned(), 3)])
        .unwrap();
    assert_eq!(ok.get_usize("n"), Some(6));
    assert_eq!(ok.get_usize("m"), Some(4));
    // Step 4 of `m` would be 5, which is past the half-open end.
    assert!(b
        .from_indices(&vec![("n".to_owned(), 0), ("m".to_owned(), 4)])
        .is_none());
}

#[test]
fn from_indices_accepts_any_pair_order() {
    let mut b = ParamBuilder::new();
    b.add_usize_range("n", 0, 10, 3).unwrap();
    b.add_usize_range("m", 1, 5, 1).unwrap();
    // The pairs name the parameters in the reverse of registry order; the
    // assignment still comes out in registry order.
    let ok = b
        .from_indices(&vec![("m".to_owned(), 3), ("n".to_owned(), 2)])
        .unwrap();
    assert_eq!(ok.entries[0].name, "n");
    assert_eq!(ok.entries[1].name, "m");
    assert_eq!(ok.get_usize("n"), Some(6));
    assert_eq!(ok.get_usize("m"), Some(4));
}

#[test]
fn update_step_moves_one_parameter_only() {
    let mut b = ParamBuilder::new();
    b.add_usize_range("n", 0, 100, 1).unwrap();
    b.add_usize_range("m", 10, 20, 1).unwrap();
    let lb = b.lower_bound().unwrap();
    let moved = b.update_step(lb, "n", 42);
    assert_eq!(moved.get_usize("n"), Some(42));
    assert_eq!(moved.get_usize("m"), Some(10));
    assert!(!moved.setup_only);
}

#[test]
fn param_set_lower_bound() {
    let range: ParamSet<usize> = ParamSet::Range(5, 9);
    assert_eq!(range.lower_bound(), 5);
    let items: ParamSet<usize> = ParamSet::Items(vec![7, 3]);
    assert_eq!(items.lower_bound(), 7);
}
