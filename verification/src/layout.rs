//! How a batch's fields split into target and features, and the field order of the output.

use crate::table::{texts, ColGraph};
use crate::text::{cat, decimal, decimal_text, same_text};
use std::collections::HashSet;
use vstd::prelude::*;
use vstd::string::StringExecFns;

verus! {

broadcast use vstd::std_specs::hash::group_hash_axioms;

/// Index of the first occurrence of `t` among `names`, if any.
pub open spec fn first_index(names: Seq<Seq<char>>, t: Seq<char>, j: int) -> Option<int>
    decreases names.len() - j,
{
    if j < 0 || j >= names.len() {
        None
    } else if names[j] == t {
        Some(j)
    } else {
        first_index(names, t, j + 1)
    }
}

/// The field indices other than `ti`, ascending.
pub open spec fn other_indices(n: nat, ti: int) -> Seq<usize>
    decreases n,
{
    if n == 0 {
        Seq::empty()
    } else if n - 1 == ti {
        other_indices((n - 1) as nat, ti)
    } else {
        other_indices((n - 1) as nat, ti).push((n - 1) as usize)
    }
}

/// Law: the field indices other than `ti` are every index below `n` except `ti`, each once and
/// in ascending order; so one index fewer when `ti` is a field index, else all of them.
pub proof fn law_other_indices(n: nat, ti: int)
    requires
        n <= usize::MAX,
    ensures
        other_indices(n, ti).len() == if 0 <= ti < n { n - 1 } else { n as int },
        forall|k: int| 0 <= k < other_indices(n, ti).len() ==> #[trigger] other_indices(n, ti)[k] < n
            && other_indices(n, ti)[k] != ti,
        forall|i: usize| i < n ==> (#[trigger] other_indices(n, ti).contains(i) <==> i != ti),
        forall|a: int, b: int| 0 <= a < b < other_indices(n, ti).len() ==> other_indices(n, ti)[a] < other_indices(n, ti)[b],
    decreases n,
{
    if n > 0 {
        law_other_indices((n - 1) as nat, ti);
        let p = other_indices((n - 1) as nat, ti);
        let r = other_indices(n, ti);
        if n - 1 == ti {
            assert(r == p);
            assert forall|i: usize| i < n implies (#[trigger] r.contains(i) <==> i != ti) by {
                if i < n - 1 {
                } else {
                    if r.contains(i) {
                        let k = choose|k: int| 0 <= k < r.len() && r[k] == i;
                        assert(r[k] < n - 1);
                    }
                }
            }
        } else {
            assert(r == p.push((n - 1) as usize));
            assert(r[r.len() - 1] == n - 1);
            assert forall|i: usize| i < n implies (#[trigger] r.contains(i) <==> i != ti) by {
                if i < n - 1 {
                    if r.contains(i) {
                        let k = choose|k: int| 0 <= k < r.len() && r[k] == i;
                        if k < p.len() {
                            assert(p[k] == r[k]);
                            assert(p.contains(i));
                        }
                    }
                    if p.contains(i) {
                        let k = choose|k: int| 0 <= k < p.len() && p[k] == i;
                        assert(r[k] == p[k]);
                    }
                } else {
                    assert(r[r.len() - 1] == (n - 1) as usize);
                }
            }
        }
    }
}

/// The message for a target that is not a field.
pub open spec fn missing_target_text(target: Seq<char>) -> Seq<char> {
    "target column `"@ + target + "` not in batch schema"@
}

/// The message for a target that is not among the dropped columns.
pub open spec fn target_not_dropped_text(target: Seq<char>) -> Seq<char> {
    "`cols_to_drop` must include target `"@ + target + "` (see Python `load_numpy`)"@
}

proof fn lemma_first_index(names: Seq<Seq<char>>, t: Seq<char>, j: int)
    requires
        0 <= j,
    ensures
        first_index(names, t, j) matches Some(i) ==> j <= i < names.len() && names[i] == t,
    decreases names.len() - j,
{
    if j < names.len() && names[j] != t {
        lemma_first_index(names, t, j + 1);
    }
}

/// The first position of `t` among `names`.
fn find_first(names: &Vec<String>, t: &str) -> (r: Option<usize>)
    ensures
        match r {
            Some(i) => first_index(texts(names@), t@, 0) == Some(i as int),
            None => first_index(texts(names@), t@, 0) is None,
        },
{
    let mut i: usize = 0;
    while i < names.len()
        invariant
            i <= names@.len(),
            first_index(texts(names@), t@, 0) == first_index(texts(names@), t@, i as int),
        decreases names.len() - i,
    {
        if same_text(names[i].as_str(), t) {
            return Some(i);
        }
        i = i + 1;
    }
    None
}

/// Whether `t` is among `v`.
fn holds_text(v: &[String], t: &str) -> (b: bool)
    ensures
        b == texts(v@).contains(t@),
{
    let mut i: usize = 0;
    while i < v.len()
        invariant
            i <= v@.len(),
            forall|q: int| 0 <= q < i ==> v@[q]@ != t@,
        decreases v.len() - i,
    {
        if same_text(v[i].as_str(), t) {
            assert(texts(v@)[i as int] == t@);
            return true;
        }
        i = i + 1;
    }
    assert forall|q: int| 0 <= q < texts(v@).len() implies texts(v@)[q] != t@ by {}
    false
}

/// Where the target and the feature columns of a batch are.
#[derive(Debug)]
pub struct SplitPlan {
    /// The target's field index.
    pub target_index: usize,
    /// The field index of each feature column, ascending.
    pub features: Vec<usize>,
    /// The feature names, and the positions among the features of those to drop.
    pub col_graph: ColGraph,
}

/// The fields of a batch split into the target and the feature columns: the target is the
/// first field named `target`, which must be among `cols_to_drop`; every other field is a
/// feature, dropped from binning and pairing when its name is among `cols_to_drop`.
pub fn plan_split(field_names: &Vec<String>, target: &str, cols_to_drop: &[String]) -> (r: Result<SplitPlan, String>)
    ensures
        match first_index(texts(field_names@), target@, 0) {
            None => r matches Err(e) && e@ == missing_target_text(target@),
            Some(ti) => if !texts(cols_to_drop@).contains(target@) {
                r matches Err(e) && e@ == target_not_dropped_text(target@)
            } else {
                r matches Ok(p) && {
                    &&& p.target_index == ti
                    &&& p.features@ == other_indices(field_names@.len(), ti)
                    &&& p.features@.len() == field_names@.len() - 1
                    &&& forall|i: usize| i < field_names@.len() ==> (#[trigger] p.features@.contains(i) <==> i != ti)
                    &&& texts(p.col_graph.names@) == p.features@.map_values(|i: usize| field_names@[i as int]@)
                    &&& forall|q: usize| #[trigger] p.col_graph.dropped@.contains(q) <==> (q < p.features@.len() && texts(cols_to_drop@).contains(field_names@[p.features@[q as int] as int]@))
                }
            },
        },
{
    let ti = match find_first(field_names, target) {
        Some(ti) => ti,
        None => {
            let m = cat(&cat("target column `", target), "` not in batch schema");
            return Err(m);
        },
    };
    proof {
        lemma_first_index(texts(field_names@), target@, 0);
        assert(field_names@.len() == field_names.len());
        law_other_indices(field_names@.len(), ti as int);
    }
    if !holds_text(cols_to_drop, target) {
        let m = cat(&cat("`cols_to_drop` must include target `", target), "` (see Python `load_numpy`)");
        return Err(m);
    }
    let mut features: Vec<usize> = Vec::new();
    let mut feat_names: Vec<String> = Vec::new();
    let mut dropped: HashSet<usize> = HashSet::new();
    let mut i: usize = 0;
    while i < field_names.len()
        invariant
            i <= field_names@.len(),
            ti < field_names@.len(),
            features@ == other_indices(i as nat, ti as int),
            features@.len() == feat_names@.len(),
            forall|q: int| 0 <= q < features@.len() ==> features@[q] < i,
            texts(feat_names@) == features@.map_values(|f: usize| field_names@[f as int]@),
            forall|q: usize| #[trigger] dropped@.contains(q) <==> (q < features@.len() && texts(cols_to_drop@).contains(field_names@[features@[q as int] as int]@)),
        decreases field_names.len() - i,
    {
        if i != ti {
            let idx = features.len();
            let hit = holds_text(cols_to_drop, field_names[i].as_str());
            if hit {
                dropped.insert(idx);
            }
            let ghost fb = features@;
            let ghost nb = feat_names@;
            features.push(i);
            feat_names.push(field_names[i].clone());
            proof {
                assert(texts(feat_names@) =~= texts(nb).push(field_names@[i as int]@));
                assert(features@.map_values(|f: usize| field_names@[f as int]@) =~= fb.map_values(|f: usize| field_names@[f as int]@).push(field_names@[i as int]@));
                assert forall|q: usize| #[trigger] dropped@.contains(q) <==> (q < features@.len() && texts(cols_to_drop@).contains(field_names@[features@[q as int] as int]@)) by {
                    if q == idx {
                        assert(features@[q as int] == i);
                    } else if q < idx {
                        assert(features@[q as int] == fb[q as int]);
                    }
                }
            }
        }
        i = i + 1;
    }
    Ok(SplitPlan { target_index: ti, features, col_graph: ColGraph { names: feat_names, dropped } })
}

/// The kind of the first column named `name` among `present` (`true` for text), if any.
pub open spec fn kind_of(present: Seq<(Seq<char>, bool)>, name: Seq<char>, j: int) -> Option<bool>
    decreases present.len() - j,
{
    if j < 0 || j >= present.len() {
        None
    } else if present[j].0 == name {
        Some(present[j].1)
    } else {
        kind_of(present, name, j + 1)
    }
}

/// The message for an output column that is missing.
pub open spec fn missing_output_text(name: Seq<char>) -> Seq<char> {
    "missing column "@ + name + " in output"@
}

/// The fields for the first `j` names of `order`, or the message for the first one missing.
pub open spec fn base_fields(present: Seq<(Seq<char>, bool)>, order: Seq<Seq<char>>, j: nat) -> Result<Seq<(Seq<char>, bool)>, Seq<char>>
    decreases j,
{
    if j == 0 {
        Ok(Seq::empty())
    } else {
        match base_fields(present, order, (j - 1) as nat) {
            Err(e) => Err(e),
            Ok(f) => match kind_of(present, order[j - 1], 0) {
                None => Err(missing_output_text(order[j - 1])),
                Some(k) => Ok(f.push((order[j - 1], k))),
            },
        }
    }
}

/// The effect fields for the first `j` names of `order` that have one.
pub open spec fn effect_fields(present: Seq<(Seq<char>, bool)>, order: Seq<Seq<char>>, j: nat) -> Seq<(Seq<char>, bool)>
    decreases j,
{
    if j == 0 {
        Seq::empty()
    } else {
        let name = order[j - 1] + "_effect"@;
        effect_fields(present, order, (j - 1) as nat) + match kind_of(present, name, 0) {
            Some(k) => seq![(name, k)],
            None => Seq::empty(),
        }
    }
}

/// A numeric field named `name` when a column of that name is present.
pub open spec fn numeric_field_if(present: Seq<(Seq<char>, bool)>, name: Seq<char>) -> Seq<(Seq<char>, bool)> {
    if kind_of(present, name, 0) is Some {
        seq![(name, false)]
    } else {
        Seq::empty()
    }
}

/// The output fields: the columns of `order`, then their effect columns that are present,
/// then `Actuals` and `outcomes_effect` (numeric) when present.
pub open spec fn output_fields(present: Seq<(Seq<char>, bool)>, order: Seq<Seq<char>>) -> Result<Seq<(Seq<char>, bool)>, Seq<char>> {
    match base_fields(present, order, order.len()) {
        Err(e) => Err(e),
        Ok(b) => Ok(b + effect_fields(present, order, order.len()) + numeric_field_if(present, "Actuals"@)
            + numeric_field_if(present, "outcomes_effect"@)),
    }
}

/// The views of named kinds.
pub open spec fn kind_views(v: Seq<(String, bool)>) -> Seq<(Seq<char>, bool)> {
    v.map_values(|e: (String, bool)| (e.0@, e.1))
}

/// The kind of the first column named `name`.
fn find_kind(present: &Vec<(String, bool)>, name: &str) -> (r: Option<bool>)
    ensures
        r == kind_of(kind_views(present@), name@, 0),
{
    let ghost pv = kind_views(present@);
    let mut j: usize = 0;
    while j < present.len()
        invariant
            j <= present@.len(),
            pv == kind_views(present@),
            kind_of(pv, name@, 0) == kind_of(pv, name@, j as int),
        decreases present.len() - j,
    {
        if same_text(present[j].0.as_str(), name) {
            return Some(present[j].1);
        }
        j = j + 1;
    }
    None
}

/// Appends a field.
fn push_field(fields: &mut Vec<(String, bool)>, name: String, kind: bool)
    ensures
        kind_views(final(fields)@) == kind_views(old(fields)@).push((name@, kind)),
{
    let ghost before = fields@;
    fields.push((name, kind));
    assert(kind_views(fields@) =~= kind_views(before).push((name@, kind)));
}

/// The output field list, in order, from the names and kinds (`true` for text) of the columns
/// present.
pub fn build_output_fields(present: &Vec<(String, bool)>, column_order: &[String]) -> (r: Result<Vec<(String, bool)>, String>)
    ensures
        match output_fields(kind_views(present@), texts(column_order@)) {
            Ok(f) => r matches Ok(v) && kind_views(v@) == f,
            Err(e) => r matches Err(m) && m@ == e,
        },
{
    let ghost pv = kind_views(present@);
    let ghost order = texts(column_order@);
    let mut fields: Vec<(String, bool)> = Vec::new();
    assert(kind_views(fields@) =~= Seq::<(Seq<char>, bool)>::empty());
    let mut j: usize = 0;
    while j < column_order.len()
        invariant
            j <= column_order@.len(),
            pv == kind_views(present@),
            order == texts(column_order@),
            base_fields(pv, order, j as nat) == Ok::<Seq<(Seq<char>, bool)>, Seq<char>>(kind_views(fields@)),
        decreases column_order.len() - j,
    {
        match find_kind(present, column_order[j].as_str()) {
            None => {
                let m = cat(&cat("missing column ", column_order[j].as_str()), " in output");
                proof {
                    assert(order[j as int] == column_order@[j as int]@);
                    let mut q: nat = (j + 1) as nat;
                    assert(base_fields(pv, order, q) == Err::<Seq<(Seq<char>, bool)>, Seq<char>>(m@));
                    lemma_base_fields_err(pv, order, q, order.len(), m@);
                }
                return Err(m);
            },
            Some(k) => {
                push_field(&mut fields, column_order[j].clone(), k);
            },
        }
        j = j + 1;
    }
    let mut e: usize = 0;
    while e < column_order.len()
        invariant
            e <= column_order@.len(),
            pv == kind_views(present@),
            order == texts(column_order@),
            base_fields(pv, order, order.len()) matches Ok(b) && kind_views(fields@) == b + effect_fields(pv, order, e as nat),
        decreases column_order.len() - e,
    {
        let name = cat(column_order[e].as_str(), "_effect");
        assert(name@ == order[e as int] + "_effect"@);
        match find_kind(present, name.as_str()) {
            Some(k) => {
                push_field(&mut fields, name, k);
            },
            None => {},
        }
        e = e + 1;
    }
    match find_kind(present, "Actuals") {
        Some(_) => push_field(&mut fields, String::from_str("Actuals"), false),
        None => {},
    }
    match find_kind(present, "outcomes_effect") {
        Some(_) => push_field(&mut fields, String::from_str("outcomes_effect"), false),
        None => {},
    }
    Ok(fields)
}

proof fn lemma_base_fields_err(present: Seq<(Seq<char>, bool)>, order: Seq<Seq<char>>, j: nat, m: nat, e: Seq<char>)
    requires
        j <= m,
        base_fields(present, order, j) == Err::<Seq<(Seq<char>, bool)>, Seq<char>>(e),
    ensures
        base_fields(present, order, m) == Err::<Seq<(Seq<char>, bool)>, Seq<char>>(e),
    decreases m - j,
{
    if j < m {
        lemma_base_fields_err(present, order, j, (m - 1) as nat, e);
    }
}


/// A run needs at least one batch.
pub fn require_batches(n: usize) -> (r: Result<(), String>)
    ensures
        n == 0 ==> (r matches Err(e) && e@ == "no record batches"@),
        n > 0 ==> r is Ok,
{
    if n == 0 {
        Err(String::from_str("no record batches"))
    } else {
        Ok(())
    }
}

/// Every batch of a run has the column graph of the first.
pub fn require_same_schema(expected: &ColGraph, got: &ColGraph) -> (r: Result<(), String>)
    ensures
        (texts(expected.names@) == texts(got.names@) && expected.dropped@ == got.dropped@) ==> r is Ok,
        !(texts(expected.names@) == texts(got.names@) && expected.dropped@ == got.dropped@) ==> (r matches Err(e)
            && e@ == "inconsistent schema across chunks"@),
{
    if got.same_as(expected) {
        Ok(())
    } else {
        Err(String::from_str("inconsistent schema across chunks"))
    }
}


/// The length recorded for the first column named `name` among `cols`, from index `j` on.
pub open spec fn length_of(cols: Seq<(Seq<char>, usize)>, name: Seq<char>, j: int) -> Option<usize>
    decreases cols.len() - j,
{
    if j < 0 || j >= cols.len() {
        None
    } else if cols[j].0 == name {
        Some(cols[j].1)
    } else {
        length_of(cols, name, j + 1)
    }
}

/// The views of (name, length) pairs.
pub open spec fn length_views(v: Seq<(String, usize)>) -> Seq<(Seq<char>, usize)> {
    v.map_values(|p: (String, usize)| (p.0@, p.1))
}

/// The row count of an output batch: the length of the column of its first field, or 0 when
/// there is no field or no such column.
pub open spec fn output_rows(fields: Seq<Seq<char>>, cols: Seq<(Seq<char>, usize)>) -> usize {
    if fields.len() > 0 && length_of(cols, fields[0], 0) is Some {
        length_of(cols, fields[0], 0)->0
    } else {
        0
    }
}

/// Field `j` carries a name that an earlier field already took (its column is used up).
pub open spec fn named_before(fields: Seq<Seq<char>>, j: int) -> bool {
    exists|i: int| 0 <= i < j && fields[i] == fields[j]
}

pub open spec fn missing_column_text(name: Seq<char>) -> Seq<char> {
    "missing column `"@ + name + "` building RecordBatch"@
}

pub open spec fn column_length_text(name: Seq<char>, len: nat) -> Seq<char> {
    "column "@ + name + " length "@ + decimal_text(len)
}

/// What is wrong with output field `j`, if anything: its column is absent (or was taken by an
/// earlier field of the same name), or its length is not `n`.
pub open spec fn field_problem(fields: Seq<Seq<char>>, cols: Seq<(Seq<char>, usize)>, n: usize, j: int) -> Option<Seq<char>> {
    if named_before(fields, j) {
        Some(missing_column_text(fields[j]))
    } else {
        match length_of(cols, fields[j], 0) {
            None => Some(missing_column_text(fields[j])),
            Some(l) => if l != n {
                Some(column_length_text(fields[j], l as nat))
            } else {
                None
            },
        }
    }
}

/// The length of the first column named `name`, if any.
fn find_length(columns: &Vec<(String, usize)>, name: &str) -> (r: Option<usize>)
    ensures
        r == length_of(length_views(columns@), name@, 0),
{
    let ghost cv = length_views(columns@);
    let mut i: usize = 0;
    while i < columns.len()
        invariant
            i <= columns.len(),
            cv == length_views(columns@),
            length_of(cv, name@, 0) == length_of(cv, name@, i as int),
        decreases columns.len() - i,
    {
        if same_text(columns[i].0.as_str(), name) {
            return Some(columns[i].1);
        }
        i = i + 1;
    }
    None
}

/// The row count of an output batch with fields `field_names` built from `columns` (name and
/// length of each column at hand).
pub fn output_row_count(field_names: &Vec<String>, columns: &Vec<(String, usize)>) -> (r: usize)
    ensures
        r == output_rows(texts(field_names@), length_views(columns@)),
{
    if field_names.len() == 0 {
        return 0;
    }
    match find_length(columns, field_names[0].as_str()) {
        Some(l) => l,
        None => 0,
    }
}

/// Checks output field `j` before its column is built: the column must be at hand, not taken
/// by an earlier field of the same name, and `n` long.
pub fn check_output_field(field_names: &Vec<String>, columns: &Vec<(String, usize)>, n: usize, j: usize) -> (r: Result<(), String>)
    requires
        j < field_names@.len(),
    ensures
        match field_problem(texts(field_names@), length_views(columns@), n, j as int) {
            Some(e) => r matches Err(m) && m@ == e,
            None => r is Ok,
        },
{
    let ghost fv = texts(field_names@);
    let name = field_names[j].as_str();
    let mut i: usize = 0;
    while i < j
        invariant
            i <= j < field_names@.len(),
            fv == texts(field_names@),
            name@ == fv[j as int],
            forall|k: int| 0 <= k < i ==> fv[k] != fv[j as int],
        decreases j - i,
    {
        if same_text(field_names[i].as_str(), name) {
            assert(named_before(fv, j as int)) by {
                assert(fv[i as int] == fv[j as int]);
            }
            return Err(cat(&cat("missing column `", name), "` building RecordBatch"));
        }
        i = i + 1;
    }
    match find_length(columns, name) {
        None => Err(cat(&cat("missing column `", name), "` building RecordBatch")),
        Some(l) => {
            if l != n {
                Err(cat(&cat(&cat("column ", name), " length "), &decimal(l)))
            } else {
                Ok(())
            }
        },
    }
}

}
