use napparent_tabular::layout::{check_output_field, output_row_count};
use napparent_tabular::{build_output_fields, plan_split};

fn names(v: &[&str]) -> Vec<String> {
    v.iter().map(|s| s.to_string()).collect()
}

#[test]
fn split_finds_target_and_dropped() {
    let fields = names(&["id", "target", "feat", "id2"]);
    let plan = plan_split(&fields, "target", &names(&["target", "id2"])).unwrap();
    assert_eq!(plan.target_index, 1);
    assert_eq!(plan.features, vec![0, 2, 3]);
    assert_eq!(plan.col_graph.names, names(&["id", "feat", "id2"]));
    assert!(plan.col_graph.dropped.contains(&2));
    assert_eq!(plan.col_graph.dropped.len(), 1);
}

#[test]
fn split_missing_target() {
    let fields = names(&["id", "feat"]);
    let e = plan_split(&fields, "target", &names(&["target"])).err().unwrap();
    assert_eq!(e, "target column `target` not in batch schema");
}

#[test]
fn split_target_not_dropped() {
    let fields = names(&["id", "target"]);
    let e = plan_split(&fields, "target", &names(&["id"])).err().unwrap();
    assert_eq!(e, "`cols_to_drop` must include target `target` (see Python `load_numpy`)");
}

#[test]
fn output_fields_in_order() {
    let present = vec![
        ("Actuals".to_string(), false),
        ("b_effect".to_string(), false),
        ("a".to_string(), true),
        ("b".to_string(), false),
        ("outcomes_effect".to_string(), false),
    ];
    let f = build_output_fields(&present, &names(&["a", "b"])).unwrap();
    let got: Vec<(&str, bool)> = f.iter().map(|(n, k)| (n.as_str(), *k)).collect();
    assert_eq!(
        got,
        vec![("a", true), ("b", false), ("b_effect", false), ("Actuals", false), ("outcomes_effect", false)]
    );
}

#[test]
fn output_fields_missing_column() {
    let present = vec![("a".to_string(), true)];
    let e = build_output_fields(&present, &names(&["a", "c"])).err().unwrap();
    assert_eq!(e, "missing column c in output");
}

#[test]
fn run_checks() {
    use_run_checks();
}

fn use_run_checks() {
    assert_eq!(napparent_tabular::require_batches(0).err().unwrap(), "no record batches");
    assert!(napparent_tabular::require_batches(1).is_ok());
    let a = napparent_tabular::ColGraph { names: names(&["a"]), dropped: Default::default() };
    let b = napparent_tabular::ColGraph { names: names(&["b"]), dropped: Default::default() };
    assert!(napparent_tabular::require_same_schema(&a, &a.clone()).is_ok());
    assert_eq!(napparent_tabular::require_same_schema(&a, &b).err().unwrap(), "inconsistent schema across chunks");
}

#[test]
fn output_columns_rows_from_first_field() {
    let fields = names(&["a", "b"]);
    let cols = vec![("b".to_string(), 3usize), ("a".to_string(), 5usize)];
    assert_eq!(output_row_count(&fields, &cols), 5);
    assert_eq!(output_row_count(&names(&[]), &cols), 0);
    assert_eq!(output_row_count(&names(&["z"]), &cols), 0);
}

#[test]
fn output_columns_checks() {
    let fields = names(&["a", "b", "c", "a"]);
    let cols = vec![("a".to_string(), 4usize), ("b".to_string(), 3usize)];
    assert_eq!(check_output_field(&fields, &cols, 4, 0), Ok(()));
    assert_eq!(check_output_field(&fields, &cols, 4, 1), Err("column b length 3".to_string()));
    assert_eq!(
        check_output_field(&fields, &cols, 4, 2),
        Err("missing column `c` building RecordBatch".to_string())
    );
    assert_eq!(
        check_output_field(&fields, &cols, 4, 3),
        Err("missing column `a` building RecordBatch".to_string())
    );
}
