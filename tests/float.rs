use std::cmp::Ordering;
use vecmap::resolve_float_order;

fn order_f64(a: f64, b: f64) -> Ordering {
    resolve_float_order(a.partial_cmp(&b), a.is_nan(), b.is_nan())
}

#[test]
fn float_order_is_reflexive_on_ordinary_values() {
    for x in [0.0, -0.0, 1.5, -3.25, f64::INFINITY, f64::NEG_INFINITY, f64::MIN_POSITIVE] {
        assert_eq!(order_f64(x, x), Ordering::Equal);
    }
}

#[test]
fn float_order_nan_with_itself_is_less() {
    assert_eq!(order_f64(f64::NAN, f64::NAN), Ordering::Less);
    assert_ne!(order_f64(f64::NAN, f64::NAN), Ordering::Equal);
}

#[test]
fn float_order_nan_after_ordinary_values() {
    assert_eq!(order_f64(f64::NAN, 1.0), Ordering::Greater);
    assert_eq!(order_f64(1.0, f64::NAN), Ordering::Less);
    assert_eq!(order_f64(f64::NAN, f64::INFINITY), Ordering::Greater);
}

#[test]
fn float_order_follows_natural_order() {
    assert_eq!(order_f64(1.0, 2.0), Ordering::Less);
    assert_eq!(order_f64(2.0, 1.0), Ordering::Greater);
    assert_eq!(order_f64(-0.0, 0.0), Ordering::Equal);
}

fn total_order_f64(a: f64, b: f64) -> Ordering {
    vecmap::resolve_float_total_order(a.partial_cmp(&b), a.is_nan(), b.is_nan())
}

#[test]
fn float_total_order_is_reflexive_everywhere() {
    for x in [f64::NAN, 0.0, -1.5, f64::INFINITY] {
        assert_eq!(total_order_f64(x, x), Ordering::Equal);
    }
    assert_eq!(total_order_f64(f64::NAN, 1.0), Ordering::Greater);
    assert_eq!(total_order_f64(1.0, f64::NAN), Ordering::Less);
    assert_eq!(total_order_f64(1.0, 2.0), Ordering::Less);
}

#[test]
fn float_orders_differ_only_on_nan_pair() {
    assert_ne!(order_f64(f64::NAN, f64::NAN), total_order_f64(f64::NAN, f64::NAN));
    for (a, b) in [(1.0, 2.0), (2.0, 1.0), (f64::NAN, 3.0), (3.0, f64::NAN), (0.0, -0.0)] {
        assert_eq!(order_f64(a, b), total_order_f64(a, b));
    }
}
