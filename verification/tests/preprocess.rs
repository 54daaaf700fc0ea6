use napparent_tabular::counts::KeyCounts;
use napparent_tabular::preprocess::{
    map_categorical_bins, merge_uniques_categorical, merge_uniques_numerical, replace_nan_texts,
    sorted_keys,
};
use napparent_tabular::{
    return_accounted_bins, BinDepth, BinType, ChunkTable, ColGraph, ColumnPreprocess, ColumnVec,
    PreprocessStream, ValueKey,
};
use napparent_tabular::stream::{NumericBinning, ValueForm};
use std::collections::HashSet;

fn s(v: &str) -> ValueKey {
    ValueKey::Str(v.into())
}

#[test]
fn accounted_bins_ties_keep_extending() {
    let items = vec![
        (ValueKey::Str("a".into()), 10),
        (ValueKey::Str("b".into()), 8),
        (ValueKey::Str("c".into()), 8),
        (ValueKey::Str("d".into()), 8),
        (ValueKey::Str("e".into()), 3),
    ];
    let r = return_accounted_bins(&items, 2);
    assert!(r.len() >= 2);
}

#[test]
fn accounted_bins_keep_whole_tie_run() {
    let items = vec![(s("a"), 10), (s("b"), 8), (s("c"), 8), (s("d"), 8), (s("e"), 3)];
    let r = return_accounted_bins(&items, 2);
    // every item tied with the cut-off count 8 is kept
    assert_eq!(r.len(), 4);
    assert!(r[0].0.same_key(&s("a")));
    assert_eq!(r[0].1, 10);
    assert!(r[1].0.same_key(&s("b")));
    assert!(r[2].0.same_key(&s("c")));
    assert!(r[3].0.same_key(&s("d")));
}

#[test]
fn accounted_bins_single_extra_tie_is_kept() {
    let items = vec![(s("x"), 1), (s("y"), 1)];
    let r = return_accounted_bins(&items, 1);
    assert_eq!(r.len(), 2);
    assert!(r[0].0.same_key(&s("x")));
    assert!(r[1].0.same_key(&s("y")));
}

#[test]
fn accounted_bins_tie_at_last_position() {
    let items = vec![(s("x"), 5), (s("y"), 3), (s("z"), 3)];
    let r = return_accounted_bins(&items, 3);
    assert_eq!(r.len(), 3);
}

#[test]
fn accounted_bins_sorts_descending() {
    let items = vec![(s("x"), 1), (s("y"), 5), (s("z"), 3)];
    let r = return_accounted_bins(&items, 2);
    assert_eq!(r.len(), 2);
    assert!(r[0].0.same_key(&s("y")));
    assert!(r[1].0.same_key(&s("z")));
}

#[test]
fn accounted_bins_depth_beyond_items() {
    let items = vec![(s("x"), 1), (s("y"), 5)];
    let r = return_accounted_bins(&items, 10);
    assert_eq!(r.len(), 2);
}

#[test]
fn float_keys_merge_signed_zeros() {
    assert!(ValueKey::from_f32_bits((-0.0_f32).to_bits()).same_key(&ValueKey::from_f32_bits(0.0_f32.to_bits())));
    assert_eq!(ValueKey::from_f32_bits(1.5_f32.to_bits()).as_num_bits(), Some(1.5_f32.to_bits()));
    assert_eq!(s("a").as_num_bits(), None);
}

#[test]
fn bin_depth_overrides() {
    let mut d = BinDepth::new(4);
    d.per_column.insert(2, 7);
    assert_eq!(d.depth_for(2), 7);
    assert_eq!(d.depth_for(1), 4);
}

#[test]
fn categorical_counting() {
    let mut acc = KeyCounts::new();
    merge_uniques_categorical(&mut acc, &vec!["a".into(), "b".into(), "a".into()]);
    assert_eq!(acc.get(&s("a")), Some(2));
    assert_eq!(acc.get(&s("b")), Some(1));
    assert_eq!(acc.get(&s("c")), None);
    assert_eq!(acc.len(), 2);
}

#[test]
fn numerical_counting() {
    let mut acc = KeyCounts::new();
    let v = vec![1.0_f32.to_bits(), (-0.0_f32).to_bits(), 0.0_f32.to_bits(), 1.0_f32.to_bits()];
    merge_uniques_numerical(&mut acc, &v);
    assert_eq!(acc.get(&ValueKey::Num(1.0_f32.to_bits())), Some(2));
    assert_eq!(acc.get(&ValueKey::Num(0)), Some(2));
    assert_eq!(acc.len(), 2);
}

#[test]
fn nan_texts_become_empty() {
    let r = replace_nan_texts(&vec!["NaN".into(), "x".into(), "nan".into(), "nana".into()]);
    assert_eq!(r, vec!["empty".to_string(), "x".into(), "empty".into(), "nana".into()]);
}

#[test]
fn sorted_keys_numbers_before_texts() {
    let v = vec![s("b"), ValueKey::Num(2.0_f32.to_bits()), s("a"), ValueKey::Num(1.0_f32.to_bits())];
    let r = sorted_keys(&v);
    assert_eq!(r[0].as_num_bits(), Some(1.0_f32.to_bits()));
    assert_eq!(r[1].as_num_bits(), Some(2.0_f32.to_bits()));
    assert!(r[2].same_key(&s("a")));
    assert!(r[3].same_key(&s("b")));
}

#[test]
fn categorical_labels() {
    let mut cp = ColumnPreprocess::new_categorical();
    cp.values.add(&s("red"), 3);
    assert_eq!(map_categorical_bins(&cp, &"red".to_string()), "red");
    assert_eq!(map_categorical_bins(&cp, &"blue".to_string()), "other");
}

fn graph() -> ColGraph {
    ColGraph {
        names: vec!["id".into(), "color".into(), "size".into()],
        dropped: [0usize].into_iter().collect::<HashSet<usize>>(),
    }
}

fn chunk() -> ChunkTable {
    ChunkTable {
        names: vec!["id".into(), "color".into(), "size".into()],
        cols: vec![
            ColumnVec::Utf8(vec!["r1".into(), "r2".into(), "r3".into()]),
            ColumnVec::Utf8(vec!["red".into(), "blue".into(), "red".into()]),
            ColumnVec::F32Bits(vec![1.0_f32.to_bits(), 2.0_f32.to_bits(), 1.0_f32.to_bits()]),
        ],
    }
}

#[test]
fn stream_counts_and_labels() {
    let mut pst = PreprocessStream::new(graph());
    assert_eq!(pst.cols(), &vec![1, 2]);
    pst.preprocess(&chunk()).unwrap();
    assert_eq!(pst.num_chunks(), 1);
    assert_eq!(pst.rows_seen(), 3);
    assert_eq!(pst.preprocess_map()[0].bin_type, BinType::Categorical);
    assert_eq!(pst.preprocess_map()[1].bin_type, BinType::Numerical);
    assert_eq!(pst.preprocess_map()[0].values.get(&s("red")), Some(2));
    pst.finish_map(&BinDepth::new(1)).unwrap();
    assert!(pst.is_finished());
    assert_eq!(pst.preprocess_map()[0].bin_labels, vec!["red".to_string()]);
    let numeric = vec![
        NumericBinning { min_bits: 0, max_bits: 0, labels: vec![] },
        NumericBinning { min_bits: 0.5_f32.to_bits(), max_bits: 2.0_f32.to_bits(), labels: vec!["a".to_string()] },
    ];
    let out = pst.use_map(&chunk(), &numeric).unwrap();
    assert_eq!(out.len(), 3);
    match out.get(&"color".to_string()).unwrap() {
        ColumnVec::Utf8(v) => assert_eq!(v, &vec!["red".to_string(), "blue".into(), "red".into()]),
        _ => panic!("color should be text"),
    }
    match out.get(&"size".to_string()).unwrap() {
        ColumnVec::Utf8(v) => assert_eq!(v, &vec!["a".to_string(), "other".into(), "a".into()]),
        _ => panic!("size should be labels"),
    }
}

#[test]
fn stream_refuses_after_finish() {
    let mut pst = PreprocessStream::new(graph());
    pst.preprocess(&chunk()).unwrap();
    pst.finish_map(&BinDepth::new(1)).unwrap();
    assert_eq!(pst.preprocess(&chunk()).err().unwrap(), "preprocess called after finish_map");
}

#[test]
fn stream_use_before_finish() {
    let mut pst = PreprocessStream::new(graph());
    pst.preprocess(&chunk()).unwrap();
    // the binnings are not looked at before the bins are fixed
    assert_eq!(pst.use_map(&chunk(), &vec![]).err().unwrap(), "finish_map must be called before use_map");
}

#[test]
fn stream_kind_mismatch() {
    let mut pst = PreprocessStream::new(graph());
    pst.preprocess(&chunk()).unwrap();
    let mut c = chunk();
    c.cols[1] = ColumnVec::F32Bits(vec![0, 0, 0]);
    assert_eq!(pst.preprocess(&c).err().unwrap(), "expected text column");
    let mut c2 = chunk();
    c2.cols[2] = ColumnVec::Utf8(vec!["a".into(), "b".into(), "c".into()]);
    assert_eq!(pst.preprocess(&c2).err().unwrap(), "expected numeric column");
}

#[test]
fn stream_missing_column_index() {
    let mut pst = PreprocessStream::new(graph());
    let c = ChunkTable { names: vec!["id".into(), "color".into()], cols: vec![ColumnVec::Utf8(vec![]), ColumnVec::Utf8(vec![])] };
    assert_eq!(pst.preprocess(&c).err().unwrap(), "missing column index 2");
}

#[test]
fn stream_ragged_chunk() {
    let mut pst = PreprocessStream::new(graph());
    let mut c = chunk();
    c.cols[2] = ColumnVec::F32Bits(vec![0]);
    assert_eq!(pst.preprocess(&c).err().unwrap(), "column length mismatch: column 2 len 1 vs 3");
}

#[test]
fn stream_clone_keeps_state() {
    let mut pst = PreprocessStream::new(graph());
    pst.preprocess(&chunk()).unwrap();
    let copy = pst.clone();
    assert_eq!(copy.num_chunks(), 1);
    assert_eq!(copy.rows_seen(), 3);
    assert_eq!(copy.cols(), pst.cols());
    assert_eq!(copy.preprocess_map()[0].values.get(&s("red")), Some(2));
    assert!(copy.col_graph().same_as(pst.col_graph()));
}

#[test]
fn value_forms_follow_bin_types() {
    let mut pst = PreprocessStream::new(graph());
    // before the first chunk every numeric active column is counted rounded
    assert_eq!(pst.count_form_of(1, true), (Some(0), ValueForm::Rounded));
    assert_eq!(pst.count_form_of(0, true), (None, ValueForm::AsIs));
    assert_eq!(pst.count_form_of(1, false), (Some(0), ValueForm::AsIs));
    pst.preprocess(&chunk()).unwrap();
    // column 1 became categorical, column 2 numerical
    assert_eq!(pst.count_form_of(1, true), (Some(0), ValueForm::Text));
    assert_eq!(pst.count_form_of(2, true), (Some(1), ValueForm::Rounded));
    assert_eq!(pst.label_form_of(1, true), (Some(0), ValueForm::Text));
    assert_eq!(pst.label_form_of(2, true), (Some(1), ValueForm::Labelled));
    assert_eq!(pst.label_form_of(0, true), (None, ValueForm::AsIs));
}

#[test]
fn numerical_labels_follow_bins() {
    let mut pst = PreprocessStream::new(graph());
    pst.preprocess(&chunk()).unwrap();
    pst.finish_map(&BinDepth::new(1)).unwrap();
    // the kept value 1.0 widened by the range [1.0, 2.0] leaves a single bound: no bins
    let numeric = vec![
        NumericBinning { min_bits: 0, max_bits: 0, labels: vec![] },
        NumericBinning { min_bits: 1.0_f32.to_bits(), max_bits: 2.0_f32.to_bits(), labels: vec![] },
    ];
    let mut c = chunk();
    c.cols[2] = ColumnVec::F32Bits(vec![f32::NAN.to_bits(), 1.0_f32.to_bits(), 3.0_f32.to_bits()]);
    let out = pst.use_map(&c, &numeric).unwrap();
    match out.get(&"size".to_string()).unwrap() {
        ColumnVec::Utf8(v) => assert_eq!(v, &vec!["other".to_string(), "other".into(), "other".into()]),
        _ => panic!("size should be labels"),
    }
    // with a range starting at -1.0 there is one bin [-1.0, 2.0); NaN reads as 0.0 and falls in it
    let numeric = vec![
        NumericBinning { min_bits: 0, max_bits: 0, labels: vec![] },
        NumericBinning { min_bits: (-1.0_f32).to_bits(), max_bits: 2.0_f32.to_bits(), labels: vec!["lo".into()] },
    ];
    let out = pst.use_map(&c, &numeric).unwrap();
    match out.get(&"size".to_string()).unwrap() {
        ColumnVec::Utf8(v) => assert_eq!(v, &vec!["lo".to_string(), "lo".into(), "other".into()]),
        _ => panic!("size should be labels"),
    }
}

#[test]
fn invalid_chunk_error_comes_first() {
    let mut pst = PreprocessStream::new(graph());
    pst.preprocess(&chunk()).unwrap();
    pst.finish_map(&BinDepth::new(1)).unwrap();
    let mut c = chunk();
    c.cols[2] = ColumnVec::F32Bits(vec![0]);
    assert_eq!(pst.use_map(&c, &vec![]).err().unwrap(), "column length mismatch: column 2 len 1 vs 3");
}

#[test]
fn counts_accumulate_over_chunks() {
    let mut pst = PreprocessStream::new(graph());
    pst.preprocess(&chunk()).unwrap();
    let mut second = chunk();
    second.cols[1] = ColumnVec::Utf8(vec!["blue".into(), "nan".into(), "red".into()]);
    pst.preprocess(&second).unwrap();
    assert_eq!(pst.num_chunks(), 2);
    assert_eq!(pst.rows_seen(), 6);
    assert_eq!(pst.preprocess_map()[0].values.get(&s("red")), Some(3));
    assert_eq!(pst.preprocess_map()[0].values.get(&s("blue")), Some(2));
    assert_eq!(pst.preprocess_map()[0].values.get(&s("empty")), Some(1));
    assert_eq!(pst.preprocess_map()[1].values.get(&ValueKey::Num(1.0_f32.to_bits())), Some(4));
}
