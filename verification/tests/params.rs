use ingot::params::{BoolParam, IntParam, RangedParam};

#[test]
fn bool_param_roundtrip() {
    let mut p = BoolParam::new(false);
    assert_eq!(p.get(), false);
    p.set(true);
    assert_eq!(p.get(), true);
    p.set(false);
    assert_eq!(p.get(), false);
}

#[test]
fn int_param_set_and_swap() {
    let mut p = IntParam::new(7);
    assert_eq!(p.get(), 7);
    p.set(-3);
    assert_eq!(p.get(), -3);
    let prev = p.swap(42);
    assert_eq!(prev, -3);
    assert_eq!(p.get(), 42);
}

#[test]
fn int_param_swap_same_value_is_noop() {
    let mut p = IntParam::new(5);
    let prev = p.swap(5);
    assert_eq!(prev, 5);
    assert_eq!(p.get(), 5);
}

// The ranged clamp scenario, held in thousandths: a parameter defaulting
// to one half of the unit range, hard-clamped to the range.
#[test]
fn ranged_clamp_scenario() {
    let mut p: RangedParam<i32> = RangedParam::new(500, 0, 1000, Some(0), Some(1000));
    assert_eq!(p.get(), 500);
    p.set(2000);
    assert_eq!(p.get(), 1000);
    let prev = p.swap(500);
    assert_eq!(prev, 1000);
    assert_eq!(p.get(), 500);
    p.set(-1000);
    assert_eq!(p.get(), 0);
}

#[test]
fn ranged_hints_are_informational_only() {
    // UI hints do not clamp: only the hard bounds do.
    let mut p: RangedParam<i32> = RangedParam::new(5, 0, 10, None, None);
    p.set(99);
    assert_eq!(p.get(), 99);
    assert_eq!(p.min(), 0);
    assert_eq!(p.max(), 10);
}

#[test]
fn ranged_hard_min_only() {
    let mut p: RangedParam<i32> = RangedParam::new(3, 0, 20, Some(0), None);
    p.set(-7);
    assert_eq!(p.get(), 0);
    p.set(1000);
    assert_eq!(p.get(), 1000);
}

// Swap idempotence: a swap handing back the stored value means the
// visible value did not change, so no rerender is needed.
#[test]
fn ranged_swap_same_value_keeps_visible_value() {
    let mut p: RangedParam<i32> = RangedParam::new(2, 0, 10, Some(0), Some(10));
    p.set(15);
    assert_eq!(p.get(), 10);
    let prev = p.swap(10);
    assert_eq!(prev, 10);
    assert_eq!(p.get(), 10);
}

#[test]
fn ranged_i64_scalar() {
    let mut p: RangedParam<i64> = RangedParam::new(1, -5, 5, Some(-5), Some(5));
    p.set(-50);
    assert_eq!(p.get(), -5);
    p.set(4);
    assert_eq!(p.get(), 4);
}
