use napparent_tabular::table::validate_lengths;
use napparent_tabular::{ChunkTable, ColGraph, ColumnVec, NamedColumns};
use std::collections::HashSet;

#[test]
fn active_indices_skip_dropped() {
    let cg = ColGraph {
        names: vec!["a".into(), "b".into(), "c".into(), "d".into()],
        dropped: [1usize, 3].into_iter().collect::<HashSet<usize>>(),
    };
    assert_eq!(cg.active_indices(), vec![0, 2]);
}

#[test]
fn same_graph() {
    let a = ColGraph { names: vec!["a".into()], dropped: HashSet::new() };
    let b = a.clone();
    assert!(a.same_as(&b));
    let c = ColGraph { names: vec!["a".into()], dropped: [0usize].into_iter().collect() };
    assert!(!a.same_as(&c));
}

#[test]
fn nrows_and_validate() {
    let t = ChunkTable {
        names: vec!["a".into(), "b".into()],
        cols: vec![ColumnVec::Utf8(vec!["x".into(), "y".into()]), ColumnVec::F32Bits(vec![1, 2])],
    };
    assert_eq!(t.nrows(), 2);
    assert!(t.validate().is_ok());
    let bad = ChunkTable {
        names: vec!["a".into(), "b".into()],
        cols: vec![ColumnVec::Utf8(vec!["x".into(), "y".into()]), ColumnVec::F32Bits(vec![1])],
    };
    assert_eq!(bad.validate().err().unwrap(), "column length mismatch: column 1 len 1 vs 2");
    let empty = ChunkTable { names: vec![], cols: vec![] };
    assert_eq!(empty.nrows(), 0);
}

#[test]
fn column_kinds() {
    let c = ColumnVec::F32Bits(vec![]);
    assert!(c.is_numeric());
    assert!(c.is_empty());
    let t = ColumnVec::Utf8(vec!["a".into()]);
    assert!(!t.is_numeric());
    assert_eq!(t.len(), 1);
}

#[test]
fn named_columns_replace() {
    let mut m = NamedColumns::new();
    m.insert("a".into(), ColumnVec::F32Bits(vec![1]));
    m.insert("b".into(), ColumnVec::F32Bits(vec![2]));
    m.insert("a".into(), ColumnVec::F32Bits(vec![3]));
    assert_eq!(m.len(), 2);
    match m.get(&"a".to_string()).unwrap() {
        ColumnVec::F32Bits(v) => assert_eq!(v, &vec![3]),
        _ => panic!("numeric expected"),
    }
    assert!(m.get(&"z".to_string()).is_none());
    let e = m.into_entries();
    assert_eq!(e.len(), 2);
    assert_eq!(e[0].0, "a");
}

#[test]
fn lengths_validation() {
    assert!(validate_lengths(&vec![]).is_ok());
    assert!(validate_lengths(&vec![3, 3, 3]).is_ok());
    assert_eq!(validate_lengths(&vec![3, 3, 2, 1]).err().unwrap(), "column length mismatch: column 2 len 2 vs 3");
}
