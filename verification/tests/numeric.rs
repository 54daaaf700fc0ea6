use napparent_tabular::{bin_index, map_numerical_bins, numerical_bounds, ValueKey};

fn b(x: f32) -> u32 {
    x.to_bits()
}

fn num(x: f32) -> ValueKey {
    ValueKey::Num(x.to_bits())
}

#[test]
fn bounds_are_sorted_and_widened() {
    let keys = vec![num(5.0), ValueKey::Str("x".into()), num(1.0), num(3.0)];
    let r = numerical_bounds(&keys, b(-2.0), b(9.0));
    assert_eq!(r, vec![b(-2.0), b(1.0), b(3.0), b(9.0)]);
}

#[test]
fn bounds_not_widened_inside_range() {
    let keys = vec![num(5.0), num(1.0)];
    let r = numerical_bounds(&keys, b(1.0), b(5.0));
    assert_eq!(r, vec![b(1.0), b(5.0)]);
    let r2 = numerical_bounds(&keys, b(2.0), b(4.0));
    assert_eq!(r2, vec![b(1.0), b(5.0)]);
}

#[test]
fn bounds_handle_negative_values() {
    let keys = vec![num(-1.0), num(-3.0), num(0.0)];
    let r = numerical_bounds(&keys, b(-3.0), b(0.0));
    assert_eq!(r, vec![b(-3.0), b(-1.0), b(0.0)]);
}

#[test]
fn no_numeric_keys_no_bounds() {
    let keys = vec![ValueKey::Str("x".into())];
    assert!(numerical_bounds(&keys, b(0.0), b(1.0)).is_empty());
}

#[test]
fn bins_hold_lower_bound_not_upper() {
    let bounds = vec![b(0.0), b(1.0), b(2.0)];
    assert_eq!(bin_index(&bounds, b(0.0)), Some(0));
    assert_eq!(bin_index(&bounds, b(0.5)), Some(0));
    assert_eq!(bin_index(&bounds, b(1.0)), Some(1));
    assert_eq!(bin_index(&bounds, b(2.0)), None);
    assert_eq!(bin_index(&bounds, b(-0.5)), None);
    assert_eq!(bin_index(&bounds, b(f32::NAN)), None);
    assert_eq!(bin_index(&bounds, b(-0.0)), Some(0));
}

#[test]
fn labels_per_value() {
    let bounds = vec![b(0.0), b(1.0), b(2.0)];
    let labels = vec!["low".to_string(), "high".to_string()];
    let r = map_numerical_bins(&bounds, &labels, &vec![b(0.2), b(1.5), b(7.0)]);
    assert_eq!(r, vec!["low".to_string(), "high".into(), "other".into()]);
    let none = map_numerical_bins(&vec![b(1.0)], &vec![], &vec![b(1.0)]);
    assert_eq!(none, vec!["other".to_string()]);
}
