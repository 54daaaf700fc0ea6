use napparent_tabular::{canonical_val_pair, ColGraph, ColumnVec, NamedColumns, PairAggregator};
use std::collections::HashSet;

fn two_col_aggregator() -> PairAggregator {
    let cg = ColGraph {
        names: vec!["a".into(), "b".into()],
        dropped: HashSet::new(),
    };
    let mut agg = PairAggregator::new();
    agg.initialize_inputs(&cg, "target", &["a".to_string(), "b".to_string()])
        .unwrap();
    agg.make_col_combos();
    agg
}

fn oriented_pair_data() -> NamedColumns {
    let mut x = NamedColumns::new();
    x.insert("a".into(), ColumnVec::Utf8(vec!["5".into(), "7".into()]));
    x.insert("b".into(), ColumnVec::Utf8(vec!["7".into(), "5".into()]));
    x
}

#[test]
fn canonical_val_pair_commutes() {
    assert_eq!(canonical_val_pair(5, 7), canonical_val_pair(7, 5));
    assert_eq!(canonical_val_pair(5, 7), (5, 7));
}

#[test]
fn vals_map_merges_orientations() {
    let mut agg = two_col_aggregator();
    let x = oriented_pair_data();
    let outcomes = [1.0_f32, 2.0];
    let tallies = agg.vals_map_updating(&x, outcomes.len(), 0).unwrap();

    let id5 = agg.value_id("5").unwrap();
    let id7 = agg.value_id("7").unwrap();
    let key = canonical_val_pair(id5, id7);

    assert_eq!(agg.tally_len(), 1);
    let mut sum = 0.0_f32;
    for t in &tallies {
        for i in 0..t.keys.len() {
            if t.counted[i] && t.keys[i] == key {
                sum += outcomes[i];
            }
        }
    }
    assert!((sum - 3.0).abs() < 1e-5);
    assert!((agg.tally(key).unwrap() as f32 - 2.0).abs() < 1e-5);
}

#[test]
fn finish_map_no_duplicate_keys() {
    let mut agg = two_col_aggregator();
    let x = oriented_pair_data();
    agg.vals_map_updating(&x, 2, 0).unwrap();
    let (keys, counts) = agg.tallies();
    assert_eq!(keys.len(), counts.len());
    assert_eq!(keys.len(), agg.tally_len());
    let distinct: HashSet<(i32, i32)> = keys.iter().copied().collect();
    assert_eq!(distinct.len(), keys.len());
}

#[test]
fn lookup_symmetric() {
    let mut agg = two_col_aggregator();
    let x = oriented_pair_data();
    agg.vals_map_updating(&x, 2, 0).unwrap();

    let keys = agg.make_cvto_inner(&x).unwrap();
    assert_eq!(keys[0].len(), 2);
    assert_eq!(keys[0][0], keys[0][1]);
}

#[test]
fn ids_follow_columns_then_values() {
    let agg = {
        let mut agg = two_col_aggregator();
        agg.vals_map_updating(&oriented_pair_data(), 2, 0).unwrap();
        agg
    };
    // column names take ids 0 and 1, then "no data" and "None", then the values per column
    // in text order.
    assert_eq!(agg.column_id("a"), Some(0));
    assert_eq!(agg.column_id("b"), Some(1));
    assert_eq!(agg.value_id("no data"), Some(2));
    assert_eq!(agg.value_id("None"), Some(3));
    assert_eq!(agg.value_id("5"), Some(4));
    assert_eq!(agg.value_id("7"), Some(5));
    assert_eq!(agg.value_id("9"), None);
    assert_eq!(agg.num_chunks(), 1);
    assert_eq!(agg.avg_count(), 2);
}

#[test]
fn rare_pairs_are_recorded_but_not_counted() {
    let mut agg = two_col_aggregator();
    let mut x = NamedColumns::new();
    x.insert("a".into(), ColumnVec::Utf8(vec!["1".into(), "1".into(), "2".into()]));
    x.insert("b".into(), ColumnVec::Utf8(vec!["x".into(), "x".into(), "y".into()]));
    let tallies = agg.vals_map_updating(&x, 3, 1).unwrap();
    assert_eq!(tallies.len(), 1);
    assert_eq!(tallies[0].counted, vec![true, true, false]);
    let k1 = canonical_val_pair(agg.value_id("1").unwrap(), agg.value_id("x").unwrap());
    let k2 = canonical_val_pair(agg.value_id("2").unwrap(), agg.value_id("y").unwrap());
    assert_eq!(agg.tally(k1), Some(2));
    assert_eq!(agg.tally(k2), Some(0));
    assert_eq!(agg.tally_len(), 2);
}

#[test]
fn empty_cells_read_no_data() {
    let mut agg = two_col_aggregator();
    let mut x = NamedColumns::new();
    x.insert("a".into(), ColumnVec::Utf8(vec!["".into()]));
    x.insert("b".into(), ColumnVec::Utf8(vec!["q".into()]));
    let tallies = agg.vals_map_updating(&x, 1, 0).unwrap();
    let nd = agg.value_id("no data").unwrap();
    let q = agg.value_id("q").unwrap();
    assert_eq!(tallies[0].keys, vec![canonical_val_pair(nd, q)]);
}

#[test]
fn missing_first_column_is_an_error() {
    let mut agg = two_col_aggregator();
    let mut x = NamedColumns::new();
    x.insert("b".into(), ColumnVec::Utf8(vec!["7".into()]));
    let e = agg.vals_map_updating(&x, 1, 0).err().unwrap();
    assert_eq!(e, "missing first col");
}

#[test]
fn missing_column_is_an_error() {
    let mut agg = two_col_aggregator();
    let mut x = NamedColumns::new();
    x.insert("a".into(), ColumnVec::Utf8(vec!["7".into()]));
    let e = agg.vals_map_updating(&x, 1, 0).err().unwrap();
    assert_eq!(e, "missing col b");
    assert_eq!(agg.num_chunks(), 0);
}

#[test]
fn column_length_mismatch_is_an_error() {
    let mut agg = two_col_aggregator();
    let mut x = NamedColumns::new();
    x.insert("a".into(), ColumnVec::Utf8(vec!["7".into()]));
    x.insert("b".into(), ColumnVec::Utf8(vec!["7".into(), "8".into()]));
    let e = agg.vals_map_updating(&x, 2, 0).err().unwrap();
    assert_eq!(e, "column length mismatch in convert_ff");
}

#[test]
fn numeric_active_column_is_an_error() {
    let mut agg = two_col_aggregator();
    let mut x = NamedColumns::new();
    x.insert("a".into(), ColumnVec::F32Bits(vec![1.0_f32.to_bits()]));
    x.insert("b".into(), ColumnVec::Utf8(vec!["7".into()]));
    let e = agg.vals_map_updating(&x, 1, 0).err().unwrap();
    assert_eq!(e, "numeric column a must be given as text");
}

#[test]
fn pairs_of_three_columns() {
    let cg = ColGraph {
        names: vec!["id".into(), "p".into(), "q".into(), "r".into()],
        dropped: [0usize].into_iter().collect(),
    };
    let mut agg = PairAggregator::new();
    agg.initialize_inputs(&cg, "t", &cg.names).unwrap();
    agg.make_col_combos();
    assert_eq!(agg.cols(), &vec![1, 2, 3]);
    assert_eq!(agg.combos(), &vec![(1, 2), (1, 3), (2, 3)]);
    assert_eq!(agg.col_array(), &vec![0, 1, 2]);
    assert_eq!(agg.divisor(), 2);
}

#[test]
fn single_active_column_has_no_pairs() {
    let cg = ColGraph {
        names: vec!["id".into(), "p".into()],
        dropped: [0usize].into_iter().collect(),
    };
    let mut agg = PairAggregator::new();
    agg.initialize_inputs(&cg, "t", &cg.names).unwrap();
    agg.make_col_combos();
    assert!(agg.combos().is_empty());
    assert_eq!(agg.divisor(), 1);
}

#[test]
fn use_map_plans_effect_columns() {
    let cg = ColGraph {
        names: vec!["id".into(), "p".into(), "q".into(), "r".into()],
        dropped: [0usize].into_iter().collect(),
    };
    let mut agg = PairAggregator::new();
    agg.initialize_inputs(&cg, "t", &cg.names).unwrap();
    agg.make_col_combos();
    let mut x = NamedColumns::new();
    x.insert("id".into(), ColumnVec::Utf8(vec!["r1".into(), "r2".into()]));
    x.insert("p".into(), ColumnVec::Utf8(vec!["a".into(), "b".into()]));
    x.insert("q".into(), ColumnVec::Utf8(vec!["c".into(), "c".into()]));
    x.insert("r".into(), ColumnVec::Utf8(vec!["d".into(), "".into()]));
    agg.vals_map_updating(&x, 2, 0).unwrap();
    let plan = agg.use_map(&x).unwrap();
    assert_eq!(plan.keys.len(), 3);
    assert_eq!(plan.divisor, 2);
    let names: Vec<&str> = plan.effects.iter().map(|e| e.name.as_str()).collect();
    assert_eq!(names, vec!["p_effect", "q_effect", "r_effect"]);
    assert_eq!(plan.effects[0].combos, vec![0, 1]);
    assert_eq!(plan.effects[1].combos, vec![0, 2]);
    assert_eq!(plan.effects[2].combos, vec![1, 2]);
    assert_eq!(plan.columns.len(), 4);
    let id = plan.columns.get(&"id".to_string()).unwrap();
    match id {
        ColumnVec::Utf8(v) => assert_eq!(v, &vec!["r1".to_string(), "r2".to_string()]),
        _ => panic!("id column should be text"),
    }
}

#[test]
fn initialize_interns_column_names_once() {
    let cg = ColGraph {
        names: vec!["a".into(), "b".into()],
        dropped: HashSet::new(),
    };
    let mut agg = PairAggregator::new();
    let order = vec!["a".to_string(), "b".to_string(), "a".to_string()];
    agg.initialize_inputs(&cg, "target", &order).unwrap();
    assert_eq!(agg.column_id("a"), Some(0));
    assert_eq!(agg.column_id("b"), Some(1));
    assert_eq!(agg.target(), "target");
}

#[test]
fn later_chunks_keep_ids_and_add_new_values() {
    let mut agg = two_col_aggregator();
    agg.vals_map_updating(&oriented_pair_data(), 2, 0).unwrap();
    let id5 = agg.value_id("5").unwrap();
    let id7 = agg.value_id("7").unwrap();
    let mut x = NamedColumns::new();
    x.insert("a".into(), ColumnVec::Utf8(vec!["9".into(), "5".into()]));
    x.insert("b".into(), ColumnVec::Utf8(vec!["1".into(), "7".into()]));
    agg.vals_map_updating(&x, 2, 0).unwrap();
    assert_eq!(agg.value_id("5"), Some(id5));
    assert_eq!(agg.value_id("7"), Some(id7));
    // no seeds on later chunks; new values per column in text order
    assert_eq!(agg.value_id("9"), Some(6));
    assert_eq!(agg.value_id("1"), Some(7));
    assert_eq!(agg.num_chunks(), 2);
    assert_eq!(agg.tally(canonical_val_pair(id5, id7)), Some(3));
}

#[test]
fn tallied_keys_are_canonical() {
    let mut agg = two_col_aggregator();
    let mut x = NamedColumns::new();
    x.insert("a".into(), ColumnVec::Utf8(vec!["z".into(), "a".into(), "m".into()]));
    x.insert("b".into(), ColumnVec::Utf8(vec!["a".into(), "z".into(), "b".into()]));
    agg.vals_map_updating(&x, 3, 0).unwrap();
    let (keys, _) = agg.tallies();
    assert!(!keys.is_empty());
    for k in keys {
        assert!(k.0 <= k.1);
    }
}
