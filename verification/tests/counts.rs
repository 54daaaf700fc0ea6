use napparent_tabular::counts::{counts_from_items, KeyCounts};
use napparent_tabular::pairs::PairCounts;
use napparent_tabular::ValueKey;

#[test]
fn key_counts_add_remove() {
    let mut c = KeyCounts::new();
    let a = ValueKey::Str("a".into());
    let b = ValueKey::Num(7);
    c.add(&a, 2);
    c.add(&b, 1);
    c.add(&a, 3);
    assert_eq!(c.get(&a), Some(5));
    assert!(c.contains_key(&b));
    assert_eq!(c.len(), 2);
    c.remove(&a);
    assert_eq!(c.get(&a), None);
    assert_eq!(c.len(), 1);
    let e = c.entries();
    assert_eq!(e.len(), 1);
    assert!(e[0].0.same_key(&b));
}

#[test]
fn key_counts_from_items_keep_order() {
    let items = vec![(ValueKey::Str("x".into()), 1), (ValueKey::Str("y".into()), 2), (ValueKey::Num(4), 4)];
    let c = counts_from_items(&items);
    assert_eq!(c.get(&ValueKey::Str("x".into())), Some(1));
    assert_eq!(c.get(&ValueKey::Num(4)), Some(4));
    let e = c.entries();
    assert!(e[0].0.same_key(&ValueKey::Str("x".into())));
    assert!(e[1].0.same_key(&ValueKey::Str("y".into())));
}

#[test]
fn pair_counts_accumulate() {
    let mut p = PairCounts::new();
    p.add((1, 2), 1);
    p.add((3, 4), 0);
    p.add((1, 2), 2);
    assert_eq!(p.get((1, 2)), Some(3));
    assert_eq!(p.get((3, 4)), Some(0));
    assert_eq!(p.get((2, 1)), None);
    assert_eq!(p.len(), 2);
    let (k, v) = p.entries();
    assert_eq!(k, vec![(1, 2), (3, 4)]);
    assert_eq!(v, vec![3, 0]);
}
