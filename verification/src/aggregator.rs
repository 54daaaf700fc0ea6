//! Column-pair aggregation: interning of column names and values, the column pairs, and the
//! per-pair tallies that the edge weights are computed from.

use crate::activation::{default_activation, ActivationConfig};
use crate::pairs::{canonical, canonical_val_pair, pair_count, PairCounts};
use crate::preprocess::{key_texts, lemma_sort_keys_permutes, lemma_str_texts_contains, sort_keys, sorted_keys, str_texts, KeyView, ValueKey};
use crate::table::{active_prefix, texts, ColGraph, ColumnVec, ColumnView, NamedColumns};
use crate::table::{clone_strings, copy_index_set};
use crate::text::{cat, same_text};
use std::collections::HashSet;
use vstd::prelude::*;
use vstd::string::StringExecFns;

verus! {

broadcast use vstd::std_specs::hash::group_hash_axioms;

/// `names` followed by those values of `vals` that are not yet there, each once, in order.
pub open spec fn with_new(names: Seq<Seq<char>>, vals: Seq<Seq<char>>) -> Seq<Seq<char>>
    decreases vals.len(),
{
    if vals.len() == 0 {
        names
    } else {
        let p = with_new(names, vals.drop_last());
        if p.contains(vals.last()) {
            p
        } else {
            p.push(vals.last())
        }
    }
}

/// The texts of `s` are pairwise different.
pub open spec fn distinct_texts(s: Seq<Seq<char>>) -> bool {
    forall|i: int, j: int| 0 <= i < j < s.len() ==> s[i] != s[j]
}

/// The pairs `(cols[r], cols[j])` for `j > r`, in order.
pub open spec fn pair_row(cols: Seq<usize>, r: int) -> Seq<(usize, usize)> {
    Seq::new((cols.len() - r - 1) as nat, |j: int| (cols[r], cols[r + 1 + j]))
}

/// The rows `0..r` of pairs, concatenated.
pub open spec fn pair_rows(cols: Seq<usize>, r: nat) -> Seq<(usize, usize)>
    decreases r,
{
    if r == 0 {
        Seq::empty()
    } else {
        pair_rows(cols, (r - 1) as nat) + pair_row(cols, r - 1)
    }
}

/// Every pair `(cols[i], cols[j])` with `i < j`, ordered by `i` then `j`.
pub open spec fn all_pairs(cols: Seq<usize>) -> Seq<(usize, usize)> {
    pair_rows(cols, cols.len())
}

/// The columns that occur in some pair.
pub open spec fn pair_column_set(pairs: Seq<(usize, usize)>) -> Set<usize> {
    Set::new(|c: usize| exists|i: int| 0 <= i < pairs.len() && (pairs[i].0 == c || pairs[i].1 == c))
}

/// How many partner columns an effect column is averaged over: one less than the number of
/// columns in pairs, and at least one.
pub open spec fn partner_divisor(pairs: Seq<(usize, usize)>) -> nat {
    if pair_column_set(pairs).len() >= 2 {
        (pair_column_set(pairs).len() - 1) as nat
    } else {
        1
    }
}

/// Index of the first occurrence of `t` in `v`, if any.
pub fn text_position(v: &Vec<String>, t: &str) -> (r: Option<usize>)
    ensures
        match r {
            Some(i) => i < v@.len() && v@[i as int]@ == t@ && forall|j: int| 0 <= j < i ==> v@[j]@ != t@,
            None => !texts(v@).contains(t@),
        },
{
    let mut i: usize = 0;
    while i < v.len()
        invariant
            i <= v@.len(),
            forall|j: int| 0 <= j < i ==> v@[j]@ != t@,
        decreases v.len() - i,
    {
        if same_text(v[i].as_str(), t) {
            return Some(i);
        }
        i = i + 1;
    }
    proof {
        if texts(v@).contains(t@) {
            let j = choose|j: int| 0 <= j < texts(v@).len() && texts(v@)[j] == t@;
            assert(v@[j]@ == t@);
        }
    }
    None
}

/// Appends to `names` the values of `vals` that it does not hold yet, in order.
fn append_new(names: &mut Vec<String>, vals: &Vec<String>)
    ensures
        texts(final(names)@) == with_new(texts(old(names)@), texts(vals@)),
{
    let ghost start = texts(names@);
    let mut i: usize = 0;
    while i < vals.len()
        invariant
            i <= vals@.len(),
            texts(names@) == with_new(start, texts(vals@.take(i as int))),
        decreases vals.len() - i,
    {
        let ghost pre = texts(vals@.take(i + 1));
        proof {
            assert(pre.drop_last() =~= texts(vals@.take(i as int)));
            assert(pre.last() == vals@[i as int]@);
        }
        match text_position(names, vals[i].as_str()) {
            Some(j) => {
                assert(texts(names@)[j as int] == vals@[i as int]@);
            },
            None => {
                let ghost before = names@;
                names.push(vals[i].clone());
                assert(texts(names@) =~= texts(before).push(vals@[i as int]@));
            },
        }
        i = i + 1;
    }
    assert(vals@.take(vals.len() as int) =~= vals@);
}

/// Adding the values not yet present keeps what was there, keeps texts distinct, and
/// adds at most as many texts as were offered.
pub proof fn lemma_with_new(names: Seq<Seq<char>>, vals: Seq<Seq<char>>)
    ensures
        with_new(names, vals).len() <= names.len() + vals.len(),
        with_new(names, vals).len() >= names.len(),
        with_new(names, vals).take(names.len() as int) == names,
        distinct_texts(names) ==> distinct_texts(with_new(names, vals)),
        forall|t: Seq<char>| #[trigger] names.contains(t) ==> with_new(names, vals).contains(t),
        forall|t: Seq<char>| #[trigger] vals.contains(t) ==> with_new(names, vals).contains(t),
    decreases vals.len(),
{
    if vals.len() > 0 {
        let d = vals.drop_last();
        lemma_with_new(names, d);
        let p = with_new(names, d);
        let x = vals.last();
        let r = with_new(names, vals);
        if !p.contains(x) {
            assert(r == p.push(x));
            assert(r.take(names.len() as int) =~= p.take(names.len() as int));
            if distinct_texts(names) {
                assert forall|i: int, j: int| 0 <= i < j < r.len() implies r[i] != r[j] by {
                    if j == p.len() {
                        assert(p.contains(p[i]));
                    }
                }
            }
            assert forall|t: Seq<char>| names.contains(t) implies r.contains(t) by {
                assert(p.contains(t));
                let i = choose|i: int| 0 <= i < p.len() && p[i] == t;
                assert(r[i] == t);
            }
        }
        assert forall|t: Seq<char>| vals.contains(t) implies r.contains(t) by {
            let i = choose|i: int| 0 <= i < vals.len() && vals[i] == t;
            if i < d.len() {
                assert(d[i] == t);
                assert(d.contains(t));
                assert(p.contains(t));
                if !p.contains(x) {
                    let q = choose|q: int| 0 <= q < p.len() && p[q] == t;
                    assert(r[q] == t);
                }
            } else {
                assert(t == x);
                if !p.contains(x) {
                    assert(r[p.len() as int] == t);
                }
            }
        }
    }
}


proof fn lemma_push_contains(s: Seq<usize>, x: usize)
    requires
        s.no_duplicates(),
        !s.contains(x),
    ensures
        s.push(x).no_duplicates(),
        forall|c: usize| s.push(x).contains(c) <==> (s.contains(c) || c == x),
{
    let t = s.push(x);
    assert forall|c: usize| t.contains(c) <==> (s.contains(c) || c == x) by {
        if s.contains(c) {
            let i = choose|i: int| 0 <= i < s.len() && s[i] == c;
            assert(t[i] == c);
        }
        if c == x {
            assert(t[s.len() as int] == c);
        }
        if t.contains(c) {
            let i = choose|i: int| 0 <= i < t.len() && t[i] == c;
            if i < s.len() {
                assert(s[i] == c);
            }
        }
    }
    assert forall|i: int, j: int| 0 <= i < t.len() && 0 <= j < t.len() && i != j implies t[i] != t[j] by {
        if i < s.len() && j < s.len() {
        } else if i < s.len() {
            assert(s.contains(s[i]));
        } else if j < s.len() {
            assert(s.contains(s[j]));
        }
    }
}

/// Whether `x` is among `v`.
fn holds_index(v: &Vec<usize>, x: usize) -> (b: bool)
    ensures
        b == v@.contains(x),
{
    let mut i: usize = 0;
    while i < v.len()
        invariant
            i <= v@.len(),
            forall|j: int| 0 <= j < i ==> v@[j] != x,
        decreases v.len() - i,
    {
        if v[i] == x {
            return true;
        }
        i = i + 1;
    }
    false
}

/// Every pair of `cols` taken in order (`i < j`), ordered by `i` then `j`.
pub fn column_pairs(cols: &Vec<usize>) -> (r: Vec<(usize, usize)>)
    ensures
        r@ == all_pairs(cols@),
        2 * r@.len() == cols@.len() * (cols@.len() - 1),
        forall|i: int, j: int| #![trigger cols@[i], cols@[j]] 0 <= i < j < cols@.len() ==> r@.contains((cols@[i], cols@[j])),
{
    let mut r: Vec<(usize, usize)> = Vec::new();
    let n = cols.len();
    let mut i: usize = 0;
    while i < n
        invariant
            i <= n,
            n == cols@.len(),
            r@ == pair_rows(cols@, i as nat),
        decreases n - i,
    {
        let mut j: usize = i + 1;
        while j < n
            invariant
                i < n,
                i + 1 <= j <= n,
                n == cols@.len(),
                r@ == pair_rows(cols@, i as nat) + pair_row(cols@, i as int).take(j - i - 1),
            decreases n - j,
        {
            let ghost before = r@;
            r.push((cols[i], cols[j]));
            proof {
                let row = pair_row(cols@, i as int);
                assert(row[j - i - 1] == (cols@[i as int], cols@[j as int]));
                assert(row.take(j - i) =~= row.take(j - i - 1).push(row[j - i - 1]));
                assert(r@ =~= pair_rows(cols@, i as nat) + row.take(j - i));
            }
            j = j + 1;
        }
        proof {
            let row = pair_row(cols@, i as int);
            assert(row.take(n - i - 1) =~= row);
            assert(pair_rows(cols@, (i + 1) as nat) == pair_rows(cols@, i as nat) + row);
        }
        i = i + 1;
    }
    proof {
        law_column_pairs_complete(cols@);
    }
    r
}

/// The distinct columns occurring in `pairs`, in order of first occurrence.
fn columns_in_pairs(pairs: &Vec<(usize, usize)>) -> (r: Vec<usize>)
    ensures
        r@.no_duplicates(),
        r@.to_set() == pair_column_set(pairs@),
{
    let mut r: Vec<usize> = Vec::new();
    let mut k: usize = 0;
    while k < pairs.len()
        invariant
            k <= pairs@.len(),
            r@.no_duplicates(),
            forall|c: usize| #[trigger] r@.contains(c) <==> exists|i: int| 0 <= i < k && (pairs@[i].0 == c || pairs@[i].1 == c),
        decreases pairs.len() - k,
    {
        let (a, b) = pairs[k];
        let ghost r0 = r@;
        if !holds_index(&r, a) {
            r.push(a);
            proof { lemma_push_contains(r0, a); }
        }
        let ghost r1 = r@;
        if !holds_index(&r, b) {
            r.push(b);
            proof { lemma_push_contains(r1, b); }
        }
        proof {
            assert(forall|c: usize| r1.contains(c) <==> (r0.contains(c) || c == a));
            assert(forall|c: usize| r@.contains(c) <==> (r1.contains(c) || c == b));
            assert forall|c: usize| #[trigger] r@.contains(c) <==> exists|i: int| 0 <= i < k + 1 && (pairs@[i].0 == c || pairs@[i].1 == c) by {
                if c == a || c == b {
                    assert(0 <= k < k + 1 && (pairs@[k as int].0 == c || pairs@[k as int].1 == c));
                }
                if exists|i: int| 0 <= i < k + 1 && (pairs@[i].0 == c || pairs@[i].1 == c) {
                    let i = choose|i: int| 0 <= i < k + 1 && (pairs@[i].0 == c || pairs@[i].1 == c);
                    if i < k {
                        assert(r0.contains(c));
                    }
                }
                if r0.contains(c) {
                    let i = choose|i: int| 0 <= i < k && (pairs@[i].0 == c || pairs@[i].1 == c);
                    assert(0 <= i < k + 1);
                }
            }
        }
        k = k + 1;
    }
    assert(r@.to_set() =~= pair_column_set(pairs@));
    r
}

/// Column-pair aggregator for effect features: interns column names and values as integer
/// ids, forms every pair of active columns, and tallies how often each pair of value ids
/// occurs in a column pair.
#[derive(Debug)]
pub struct PairAggregator {
    target: String,
    num_chunks: u64,
    avg_count: u64,
    k: i32,
    col_ids: Vec<String>,
    val_ids: Vec<String>,
    col_graph_names: Vec<String>,
    cols_dropped: HashSet<usize>,
    cols: Vec<usize>,
    col_names_ordered: Vec<String>,
    vals_map: PairCounts,
    tallied: u64,
    col_array: Vec<usize>,
    tup_combos: Vec<(usize, usize)>,
    pair_columns: Vec<usize>,
    partner_divisor: u64,
    combos_initialized: bool,
    activation: ActivationConfig,
}

impl PairAggregator {
    /// The aggregator's internal consistency: ids fit in `i32` and are given once, the active
    /// columns are those of the column graph, the pairs are those of the active columns, and
    /// every tallied key is canonical with a count bounded by the number of tallied cells.
    pub closed spec fn wf(&self) -> bool {
        &&& self.k >= 0
        &&& self.k as int == self.col_ids@.len() + self.val_ids@.len()
        &&& distinct_texts(texts(self.col_ids@))
        &&& distinct_texts(texts(self.val_ids@))
        &&& self.cols@ == active_prefix(self.cols_dropped@, self.col_graph_names@.len())
        &&& self.combos_initialized ==> self.tup_combos@ == all_pairs(self.cols@)
            && self.partner_divisor as nat == partner_divisor(self.tup_combos@)
            && self.pair_columns@.to_set() == pair_column_set(self.tup_combos@)
        &&& !self.combos_initialized ==> self.tup_combos@.len() == 0
        &&& self.col_array@ == Seq::new(self.tup_combos@.len(), |i: int| i as usize)
        &&& self.partner_divisor >= 1
        &&& forall|key: (i32, i32)| #[trigger] self.vals_map@.contains_key(key)
            ==> self.vals_map@[key] <= self.tallied && key.0 <= key.1
    }

    /// The target column's name.
    pub closed spec fn spec_target(&self) -> Seq<char> {
        self.target@
    }

    /// How many chunks were tallied.
    pub closed spec fn spec_num_chunks(&self) -> nat {
        self.num_chunks as nat
    }

    /// How many outcomes were tallied.
    pub closed spec fn spec_avg_count(&self) -> nat {
        self.avg_count as nat
    }

    /// The interned column names; a name's id is its position.
    pub closed spec fn spec_col_ids(&self) -> Seq<Seq<char>> {
        texts(self.col_ids@)
    }

    /// The interned values; a value's id is the number of column names plus its position.
    pub closed spec fn spec_val_ids(&self) -> Seq<Seq<char>> {
        texts(self.val_ids@)
    }

    /// The column names of the column graph.
    pub closed spec fn spec_graph_names(&self) -> Seq<Seq<char>> {
        texts(self.col_graph_names@)
    }

    /// The column indices dropped from pairing.
    pub closed spec fn spec_dropped(&self) -> Set<usize> {
        self.cols_dropped@
    }

    /// The active columns, ascending.
    pub closed spec fn spec_cols(&self) -> Seq<usize> {
        self.cols@
    }

    /// The column order given at initialization.
    pub closed spec fn spec_column_order(&self) -> Seq<Seq<char>> {
        texts(self.col_names_ordered@)
    }

    /// The column pairs; a pair's id is its position.
    pub closed spec fn spec_combos(&self) -> Seq<(usize, usize)> {
        self.tup_combos@
    }

    /// Whether the column pairs are formed.
    pub closed spec fn spec_initialized(&self) -> bool {
        self.combos_initialized
    }

    /// Per canonical pair of value ids, the number of rows tallied for it.
    pub closed spec fn spec_vals(&self) -> Map<(i32, i32), u64> {
        self.vals_map@
    }

    /// The number of (row, column pair) cells tallied since the pairs were formed.
    pub closed spec fn spec_tallied(&self) -> nat {
        self.tallied as nat
    }

    /// The number of partner columns an effect sum is divided by.
    pub closed spec fn spec_divisor(&self) -> nat {
        self.partner_divisor as nat
    }

    /// The activation settings.
    pub closed spec fn spec_activation(&self) -> ActivationConfig {
        self.activation
    }

    /// An empty aggregator with the default activations.
    pub fn new() -> (r: Self)
        ensures
            r.wf(),
            r.spec_target().len() == 0,
            r.spec_num_chunks() == 0,
            r.spec_avg_count() == 0,
            r.spec_col_ids().len() == 0,
            r.spec_val_ids().len() == 0,
            r.spec_graph_names().len() == 0,
            r.spec_cols().len() == 0,
            r.spec_combos().len() == 0,
            !r.spec_initialized(),
            r.spec_vals() == Map::<(i32, i32), u64>::empty(),
            r.spec_tallied() == 0,
            r.spec_divisor() == 1,
            r.spec_activation() == default_activation(),
    {
        let r = PairAggregator {
            target: String::new(),
            num_chunks: 0,
            avg_count: 0,
            k: 0,
            col_ids: Vec::new(),
            val_ids: Vec::new(),
            col_graph_names: Vec::new(),
            cols_dropped: HashSet::new(),
            cols: Vec::new(),
            col_names_ordered: Vec::new(),
            vals_map: PairCounts::new(),
            tallied: 0,
            col_array: Vec::new(),
            tup_combos: Vec::new(),
            pair_columns: Vec::new(),
            partner_divisor: 1,
            combos_initialized: false,
            activation: ActivationConfig::default(),
        };
        assert(r.col_array@ =~= Seq::new(0, |i: int| i as usize));
        assert(texts(r.col_ids@) =~= Seq::<Seq<char>>::empty());
        assert(texts(r.val_ids@) =~= Seq::<Seq<char>>::empty());
        assert(texts(r.col_graph_names@) =~= Seq::<Seq<char>>::empty());
        r
    }

    /// An empty aggregator with the given activations.
    pub fn with_activation(activation: ActivationConfig) -> (r: Self)
        ensures
            r.wf(),
            r.spec_target().len() == 0,
            r.spec_num_chunks() == 0,
            r.spec_avg_count() == 0,
            r.spec_col_ids().len() == 0,
            r.spec_val_ids().len() == 0,
            r.spec_graph_names().len() == 0,
            r.spec_cols().len() == 0,
            r.spec_combos().len() == 0,
            !r.spec_initialized(),
            r.spec_vals() == Map::<(i32, i32), u64>::empty(),
            r.spec_tallied() == 0,
            r.spec_divisor() == 1,
            r.spec_activation() == activation,
    {
        let mut r = Self::new();
        r.activation = activation;
        r
    }

    /// Starts a new aggregation over the columns of `col_info`: records the target, the
    /// column graph and the column order, interns the column names of `column_order` (first
    /// occurrence wins), and forgets the interned values and the column pairs. The tallies
    /// are kept until the pairs are formed again.
    pub fn initialize_inputs(&mut self, col_info: &ColGraph, target: &str, column_order: &[String]) -> (r: Result<(), String>)
        requires
            old(self).wf(),
            column_order@.len() <= i32::MAX,
        ensures
            r is Ok,
            final(self).wf(),
            final(self).spec_target() == target@,
            final(self).spec_num_chunks() == 0,
            final(self).spec_avg_count() == 0,
            final(self).spec_col_ids() == with_new(Seq::empty(), texts(column_order@)),
            final(self).spec_val_ids().len() == 0,
            final(self).spec_graph_names() == texts(col_info.names@),
            final(self).spec_dropped() == col_info.dropped@,
            final(self).spec_cols() == col_info.spec_active(),
            final(self).spec_column_order() == texts(column_order@),
            final(self).spec_combos().len() == 0,
            !final(self).spec_initialized(),
            final(self).spec_vals() == old(self).spec_vals(),
            final(self).spec_tallied() == old(self).spec_tallied(),
            final(self).spec_divisor() == old(self).spec_divisor(),
            final(self).spec_activation() == old(self).spec_activation(),
    {
        let mut order: Vec<String> = Vec::new();
        let mut i: usize = 0;
        while i < column_order.len()
            invariant
                i <= column_order@.len(),
                texts(order@) == texts(column_order@.take(i as int)),
            decreases column_order.len() - i,
        {
            let ghost before = order@;
            let c = column_order[i].clone();
            order.push(c);
            proof {
                assert(column_order@.take(i + 1) =~= column_order@.take(i as int).push(column_order@[i as int]));
                assert(texts(order@) =~= texts(before).push(c@));
                assert(texts(column_order@.take(i + 1)) =~= texts(column_order@.take(i as int)).push(column_order@[i as int]@));
            }
            i = i + 1;
        }
        assert(column_order@.take(column_order@.len() as int) =~= column_order@);
        let mut ids: Vec<String> = Vec::new();
        append_new(&mut ids, &order);
        proof {
            assert(texts(ids@) == with_new(texts(Seq::<String>::empty()), texts(order@)));
            assert(texts(Seq::<String>::empty()) =~= Seq::<Seq<char>>::empty());
            lemma_with_new(Seq::empty(), texts(order@));
            assert(distinct_texts(Seq::<Seq<char>>::empty()));
        }
        let k = ids.len() as i32;
        self.target = target.to_string();
        self.num_chunks = 0;
        self.avg_count = 0;
        self.k = k;
        self.col_ids = ids;
        self.val_ids = Vec::new();
        self.col_graph_names = clone_strings(&col_info.names);
        self.cols_dropped = copy_index_set(&col_info.dropped);
        self.cols = col_info.active_indices();
        self.col_names_ordered = order;
        self.combos_initialized = false;
        self.col_array = Vec::new();
        self.tup_combos = Vec::new();
        self.pair_columns = Vec::new();
        proof {
            assert(texts(self.val_ids@) =~= Seq::<Seq<char>>::empty());
            assert(self.col_array@ =~= Seq::new(0, |i: int| i as usize));
            assert(texts(self.col_graph_names@).len() == col_info.names@.len());
        }
        Ok(())
    }

    /// Forms the column pairs once: every pair of active columns `(i < j)` gets the next id,
    /// the tallies start empty, and the partner divisor is fixed. Does nothing when the pairs
    /// are already formed.
    pub fn make_col_combos(&mut self)
        requires
            old(self).wf(),
        ensures
            final(self).wf(),
            final(self).spec_initialized(),
            old(self).spec_initialized() ==> *final(self) == *old(self),
            !old(self).spec_initialized() ==> {
                &&& final(self).spec_combos() == all_pairs(old(self).spec_cols())
                &&& final(self).spec_vals() == Map::<(i32, i32), u64>::empty()
                &&& final(self).spec_tallied() == 0
                &&& final(self).spec_divisor() == partner_divisor(all_pairs(old(self).spec_cols()))
                &&& final(self).spec_target() == old(self).spec_target()
                &&& final(self).spec_num_chunks() == old(self).spec_num_chunks()
                &&& final(self).spec_avg_count() == old(self).spec_avg_count()
                &&& final(self).spec_col_ids() == old(self).spec_col_ids()
                &&& final(self).spec_val_ids() == old(self).spec_val_ids()
                &&& final(self).spec_graph_names() == old(self).spec_graph_names()
                &&& final(self).spec_dropped() == old(self).spec_dropped()
                &&& final(self).spec_cols() == old(self).spec_cols()
                &&& final(self).spec_column_order() == old(self).spec_column_order()
                &&& final(self).spec_activation() == old(self).spec_activation()
            },
    {
        if self.combos_initialized {
            return;
        }
        let pairs = column_pairs(&self.cols);
        let in_pairs = columns_in_pairs(&pairs);
        proof {
            in_pairs@.unique_seq_to_set();
        }
        let m = in_pairs.len();
        let divisor: u64 = if m >= 2 { (m - 1) as u64 } else { 1 };
        let mut ids: Vec<usize> = Vec::new();
        let mut c: usize = 0;
        while c < pairs.len()
            invariant
                c <= pairs@.len(),
                ids@ == Seq::new(c as nat, |i: int| i as usize),
            decreases pairs.len() - c,
        {
            ids.push(c);
            assert(ids@ =~= Seq::new((c + 1) as nat, |i: int| i as usize));
            c = c + 1;
        }
        self.vals_map = PairCounts::new();
        self.tallied = 0;
        self.col_array = ids;
        self.tup_combos = pairs;
        self.pair_columns = in_pairs;
        self.partner_divisor = divisor;
        self.combos_initialized = true;
    }
}


impl Default for PairAggregator {
    /// An empty aggregator with the default activations.
    fn default() -> (r: Self)
        ensures
            r.wf(),
            r.spec_num_chunks() == 0,
            r.spec_col_ids().len() == 0,
            r.spec_val_ids().len() == 0,
            r.spec_combos().len() == 0,
            !r.spec_initialized(),
            r.spec_vals() == Map::<(i32, i32), u64>::empty(),
            r.spec_activation() == default_activation(),
    {
        Self::new()
    }
}

/// The text that stands for an empty cell.
pub open spec fn no_data_word() -> Seq<char> {
    "no data"@
}

/// The text interned on the first chunk beside `no data`.
pub open spec fn none_word() -> Seq<char> {
    "None"@
}

/// The text a cell is paired under: an empty text reads `no data`.
pub open spec fn cell_text(t: Seq<char>) -> Seq<char> {
    if t.len() == 0 {
        no_data_word()
    } else {
        t
    }
}

/// The pairing texts of a text column (none for a numeric column).
pub open spec fn utf8_cells(col: ColumnView) -> Seq<Seq<char>> {
    match col {
        ColumnView::Utf8(v) => v.map_values(|t: Seq<char>| cell_text(t)),
        ColumnView::F32Bits(_) => Seq::empty(),
    }
}

/// The message when the first graph column is missing.
pub open spec fn missing_first_text() -> Seq<char> {
    "missing first col"@
}

/// The message when a graph column is missing.
pub open spec fn missing_col_text(name: Seq<char>) -> Seq<char> {
    "missing col "@ + name
}

/// The message when a graph column has another length than the first.
pub open spec fn convert_mismatch_text() -> Seq<char> {
    "column length mismatch in convert_ff"@
}

/// The message for an active column that holds numbers: pairing reads values as text, and
/// writing numbers as text is left to the caller.
pub open spec fn numeric_pair_column_text(name: Seq<char>) -> Seq<char> {
    "numeric column "@ + name + " must be given as text"@
}

/// The message when the values would need more ids than `i32` holds.
pub open spec fn id_overflow_text() -> Seq<char> {
    "too many distinct values for i32 ids"@
}

/// The first column of `names`, from `j` on, that is missing from `x` or whose length is not
/// `n`, as its message.
pub open spec fn scan_columns(names: Seq<Seq<char>>, x: Map<Seq<char>, ColumnView>, n: nat, j: int) -> Option<Seq<char>>
    decreases names.len() - j,
{
    if j < 0 || j >= names.len() {
        None
    } else if !x.contains_key(names[j]) {
        Some(missing_col_text(names[j]))
    } else if x[names[j]].len() != n {
        Some(convert_mismatch_text())
    } else {
        scan_columns(names, x, n, j + 1)
    }
}

/// The first active column, from position `p` on, that holds numbers, as its message.
pub open spec fn scan_numeric(names: Seq<Seq<char>>, cols: Seq<usize>, x: Map<Seq<char>, ColumnView>, p: int) -> Option<Seq<char>>
    decreases cols.len() - p,
{
    if p < 0 || p >= cols.len() {
        None
    } else if x[names[cols[p] as int]] is F32Bits {
        Some(numeric_pair_column_text(names[cols[p] as int]))
    } else {
        scan_numeric(names, cols, x, p + 1)
    }
}

/// Why a chunk cannot be paired, if it cannot: the first graph column is missing, some graph
/// column is missing or of another length, or an active column holds numbers.
pub open spec fn chunk_problem(names: Seq<Seq<char>>, cols: Seq<usize>, x: Map<Seq<char>, ColumnView>) -> Option<Seq<char>> {
    if !x.contains_key(names[0]) {
        Some(missing_first_text())
    } else {
        match scan_columns(names, x, x[names[0]].len(), 0) {
            Some(e) => Some(e),
            None => scan_numeric(names, cols, x, 0),
        }
    }
}

/// The pairing texts of every active column, by position.
pub open spec fn active_cells(names: Seq<Seq<char>>, cols: Seq<usize>, x: Map<Seq<char>, ColumnView>) -> Seq<Seq<Seq<char>>> {
    cols.map_values(|c: usize| utf8_cells(x[names[c as int]]))
}

proof fn lemma_scan_columns(names: Seq<Seq<char>>, x: Map<Seq<char>, ColumnView>, n: nat, j: int)
    requires
        0 <= j,
        scan_columns(names, x, n, j) is None,
    ensures
        forall|q: int| j <= q < names.len() ==> #[trigger] x.contains_key(names[q]) && x[names[q]].len() == n,
    decreases names.len() - j,
{
    if j < names.len() {
        lemma_scan_columns(names, x, n, j + 1);
    }
}

proof fn lemma_scan_numeric(names: Seq<Seq<char>>, cols: Seq<usize>, x: Map<Seq<char>, ColumnView>, p: int)
    requires
        0 <= p,
        scan_numeric(names, cols, x, p) is None,
    ensures
        forall|q: int| p <= q < cols.len() ==> #[trigger] x[names[cols[q] as int]] is Utf8,
    decreases cols.len() - p,
{
    if p < cols.len() {
        lemma_scan_numeric(names, cols, x, p + 1);
    }
}

/// The pairing texts of a text column.
fn cell_texts(v: &Vec<String>) -> (r: Vec<String>)
    ensures
        texts(r@) == texts(v@).map_values(|t: Seq<char>| cell_text(t)),
{
    let mut r: Vec<String> = Vec::new();
    let mut i: usize = 0;
    while i < v.len()
        invariant
            i <= v@.len(),
            texts(r@) == texts(v@.take(i as int)).map_values(|t: Seq<char>| cell_text(t)),
        decreases v.len() - i,
    {
        let t = if v[i].as_str().unicode_len() == 0 {
            String::from_str("no data")
        } else {
            v[i].clone()
        };
        let ghost before = r@;
        r.push(t);
        proof {
            assert(texts(r@) =~= texts(before).push(t@));
            assert(texts(v@.take(i + 1)).map_values(|t: Seq<char>| cell_text(t)) =~= texts(v@.take(i as int)).map_values(|t: Seq<char>| cell_text(t)).push(cell_text(v@[i as int]@)));
        }
        i = i + 1;
    }
    assert(v@.take(v.len() as int) =~= v@);
    r
}

impl PairAggregator {
    /// The number of rows of a chunk that can be paired, or why it cannot.
    fn check_chunk(&self, x: &NamedColumns) -> (r: Result<usize, String>)
        requires
            self.wf(),
            self.spec_graph_names().len() > 0,
        ensures
            match chunk_problem(self.spec_graph_names(), self.spec_cols(), x@) {
                Some(e) => r matches Err(m) && m@ == e,
                None => r matches Ok(n) && n == x@[self.spec_graph_names()[0]].len(),
            },
    {
        let ghost names = self.spec_graph_names();
        let n = match x.get(&self.col_graph_names[0]) {
            Some(c) => c.len(),
            None => {
                return Err(String::from_str("missing first col"));
            },
        };
        let mut j: usize = 0;
        while j < self.col_graph_names.len()
            invariant
                self.wf(),
                names == self.spec_graph_names(),
                j <= names.len(),
                x@.contains_key(names[0]),
                n == x@[names[0]].len(),
                scan_columns(names, x@, n as nat, 0) == scan_columns(names, x@, n as nat, j as int),
            decreases self.col_graph_names.len() - j,
        {
            match x.get(&self.col_graph_names[j]) {
                Some(c) => {
                    if c.len() != n {
                        return Err(String::from_str("column length mismatch in convert_ff"));
                    }
                },
                None => {
                    return Err(cat("missing col ", self.col_graph_names[j].as_str()));
                },
            }
            j = j + 1;
        }
        let mut p: usize = 0;
        proof {
            lemma_active_bounds(self.cols_dropped@, self.col_graph_names@.len() as nat);
        }
        while p < self.cols.len()
            invariant
                self.wf(),
                names == self.spec_graph_names(),
                p <= self.cols@.len(),
                forall|q: int| 0 <= q < self.cols@.len() ==> self.cols@[q] < names.len(),
                scan_columns(names, x@, n as nat, 0) is None,
                scan_numeric(names, self.cols@, x@, 0) == scan_numeric(names, self.cols@, x@, p as int),
            decreases self.cols.len() - p,
        {
            proof {
                lemma_scan_columns(names, x@, n as nat, 0);
            }
            let c = self.cols[p];
            match x.get(&self.col_graph_names[c]) {
                Some(col) => {
                    if col.is_numeric() {
                        return Err(cat(&cat("numeric column ", self.col_graph_names[c].as_str()), " must be given as text"));
                    }
                },
                None => {
                    assert(x@.contains_key(names[c as int]));
                },
            }
            p = p + 1;
        }
        Ok(n)
    }
}

/// The active indices lie below the number of columns and are strictly ascending.
proof fn lemma_active_bounds(dropped: Set<usize>, k: nat)
    requires
        k <= usize::MAX,
    ensures
        forall|q: int| 0 <= q < active_prefix(dropped, k).len() ==> active_prefix(dropped, k)[q] < k,
        forall|i: int, j: int| 0 <= i < j < active_prefix(dropped, k).len() ==> active_prefix(dropped, k)[i] < active_prefix(dropped, k)[j],
{
    crate::table::law_active_indices_ascending(dropped, k);
}


/// The distinct texts of `s`, sorted in text order.
pub open spec fn sorted_distinct(s: Seq<Seq<char>>) -> Seq<Seq<char>> {
    str_texts(sort_keys(with_new(Seq::empty(), s).map_values(|t: Seq<char>| KeyView::Str(t))))
}

/// The sequences of `s`, one after another.
pub open spec fn concat_all(s: Seq<Seq<Seq<char>>>) -> Seq<Seq<char>>
    decreases s.len(),
{
    if s.len() == 0 {
        Seq::empty()
    } else {
        concat_all(s.drop_last()) + s.last()
    }
}

/// The texts interned before a chunk's values: `no data` and `None` on the first chunk only.
pub open spec fn first_seeds(first: bool) -> Seq<Seq<char>> {
    if first {
        seq![no_data_word(), none_word()]
    } else {
        Seq::empty()
    }
}

/// The texts a chunk offers for interning, in order: the first-chunk texts, then for each
/// active column its distinct texts in text order.
pub open spec fn chunk_seeds(first: bool, cells: Seq<Seq<Seq<char>>>) -> Seq<Seq<char>> {
    first_seeds(first) + concat_all(cells.map_values(|c: Seq<Seq<char>>| sorted_distinct(c)))
}

/// Position of `t` in `s` (meaningful when `t` occurs).
pub open spec fn text_index(s: Seq<Seq<char>>, t: Seq<char>) -> int {
    choose|i: int| 0 <= i < s.len() && s[i] == t
}

/// The id of value `t`: the number of column ids plus its position among the values.
pub open spec fn value_id(vals: Seq<Seq<char>>, base: nat, t: Seq<char>) -> int {
    base + text_index(vals, t)
}

/// The value ids of the cells of graph column `c`.
pub open spec fn column_value_ids(names: Seq<Seq<char>>, x: Map<Seq<char>, ColumnView>, vals: Seq<Seq<char>>, base: nat, c: int) -> Seq<i32> {
    utf8_cells(x[names[c]]).map_values(|t: Seq<char>| value_id(vals, base, t) as i32)
}

/// The canonical value-id pair of each row of the column pair `pair`.
pub open spec fn combo_keys(names: Seq<Seq<char>>, x: Map<Seq<char>, ColumnView>, vals: Seq<Seq<char>>, base: nat, pair: (usize, usize), n: nat) -> Seq<(i32, i32)> {
    Seq::new(n, |i: int| canonical(
        column_value_ids(names, x, vals, base, pair.0 as int)[i],
        column_value_ids(names, x, vals, base, pair.1 as int)[i],
    ))
}

proof fn lemma_concat_contains(s: Seq<Seq<Seq<char>>>, p: int, t: Seq<char>)
    requires
        0 <= p < s.len(),
        s[p].contains(t),
    ensures
        concat_all(s).contains(t),
    decreases s.len(),
{
    let d = s.drop_last();
    let r = concat_all(d) + s.last();
    assert(concat_all(s) == r);
    if p == s.len() - 1 {
        let i = choose|i: int| 0 <= i < s.last().len() && s.last()[i] == t;
        assert(r[concat_all(d).len() + i] == t);
    } else {
        assert(d[p] == s[p]);
        lemma_concat_contains(d, p, t);
        let i = choose|i: int| 0 <= i < concat_all(d).len() && concat_all(d)[i] == t;
        assert(r[i] == t);
    }
}

proof fn lemma_text_index(s: Seq<Seq<char>>, q: int)
    requires
        distinct_texts(s),
        0 <= q < s.len(),
    ensures
        text_index(s, s[q]) == q,
{
    let i = text_index(s, s[q]);
    assert(0 <= q < s.len() && s[q] == s[q]);
    if i < q {
        assert(s[i] != s[q]);
    } else if i > q {
        assert(s[q] != s[i]);
    }
}

/// Every text of `s` is among its sorted distinct texts.
proof fn lemma_sorted_distinct_contains(s: Seq<Seq<char>>, t: Seq<char>)
    requires
        s.contains(t),
    ensures
        sorted_distinct(s).contains(t),
{
    broadcast use vstd::seq_lib::group_to_multiset_ensures;
    let u = with_new(Seq::empty(), s);
    lemma_with_new(Seq::empty(), s);
    let keys = u.map_values(|t: Seq<char>| KeyView::Str(t));
    let i = choose|i: int| 0 <= i < u.len() && u[i] == t;
    assert(keys[i] == KeyView::Str(t));
    assert(keys.contains(KeyView::Str(t)));
    lemma_sort_keys_permutes(keys);
    assert(keys.to_multiset().count(KeyView::Str(t)) > 0);
    assert(sort_keys(keys).to_multiset().count(KeyView::Str(t)) > 0);
    assert(sort_keys(keys).contains(KeyView::Str(t)));
    lemma_str_texts_contains(sort_keys(keys), t);
}

/// The pairs are made of active columns.
proof fn lemma_pairs_in_cols(cols: Seq<usize>, r: nat)
    requires
        r <= cols.len(),
    ensures
        forall|q: int| 0 <= q < pair_rows(cols, r).len() ==> cols.contains(#[trigger] pair_rows(cols, r)[q].0) && cols.contains(pair_rows(cols, r)[q].1),
    decreases r,
{
    if r > 0 {
        lemma_pairs_in_cols(cols, (r - 1) as nat);
        let a = pair_rows(cols, (r - 1) as nat);
        let b = pair_row(cols, r - 1);
        assert(pair_rows(cols, r) == a + b);
        assert forall|q: int| 0 <= q < pair_rows(cols, r).len() implies cols.contains(#[trigger] pair_rows(cols, r)[q].0) && cols.contains(pair_rows(cols, r)[q].1) by {
            if q < a.len() {
                assert(pair_rows(cols, r)[q] == a[q]);
            } else {
                let j = q - a.len();
                assert(pair_rows(cols, r)[q] == b[j]);
                assert(b[j] == (cols[r - 1], cols[r + j]));
                assert(cols[r - 1] == cols[r - 1]);
            }
        }
    }
}

/// `p` is `(cols[i], cols[j])` for some positions `i < j`, with `i` below `r`.
pub open spec fn pair_of_positions(cols: Seq<usize>, p: (usize, usize), r: int) -> bool {
    exists|i: int, j: int| #![trigger cols[i], cols[j]] 0 <= i < r && i < j < cols.len() && p == (cols[i], cols[j])
}

/// `a` comes before `b` ordering by first column, then second.
pub open spec fn pair_lex_less(a: (usize, usize), b: (usize, usize)) -> bool {
    a.0 < b.0 || (a.0 == b.0 && a.1 < b.1)
}

proof fn lemma_pair_rows_len(cols: Seq<usize>, r: nat)
    requires
        r <= cols.len(),
    ensures
        2 * pair_rows(cols, r).len() == r * (2 * cols.len() - r - 1),
    decreases r,
{
    if r > 0 {
        lemma_pair_rows_len(cols, (r - 1) as nat);
        let n = cols.len() as int;
        let q = r as int;
        assert(pair_rows(cols, r) == pair_rows(cols, (r - 1) as nat) + pair_row(cols, r - 1));
        assert(pair_row(cols, r - 1).len() == n - q);
        let prev = pair_rows(cols, (r - 1) as nat).len() as int;
        assert(2 * prev == (q - 1) * (2 * n - (q - 1) - 1));
        assert(pair_rows(cols, r).len() == prev + (n - q));
        assert((q - 1) * (2 * n - (q - 1) - 1) + 2 * (n - q) == q * (2 * n - q - 1)) by (nonlinear_arith);
        assert(2 * pair_rows(cols, r).len() == q * (2 * n - q - 1));
    } else {
        assert(r * (2 * cols.len() - r - 1) == 0) by (nonlinear_arith)
            requires
                r == 0,
        ;
    }
}

proof fn lemma_pair_rows_positions(cols: Seq<usize>, r: nat)
    requires
        r <= cols.len(),
    ensures
        forall|k: int| 0 <= k < pair_rows(cols, r).len() ==> pair_of_positions(cols, #[trigger] pair_rows(cols, r)[k], r as int),
    decreases r,
{
    if r > 0 {
        lemma_pair_rows_positions(cols, (r - 1) as nat);
        let a = pair_rows(cols, (r - 1) as nat);
        let b = pair_row(cols, r - 1);
        assert(pair_rows(cols, r) == a + b);
        assert forall|k: int| 0 <= k < pair_rows(cols, r).len() implies pair_of_positions(cols, #[trigger] pair_rows(cols, r)[k], r as int) by {
            if k < a.len() {
                assert(pair_rows(cols, r)[k] == a[k]);
                assert(pair_of_positions(cols, a[k], r - 1));
                let (i, j) = choose|i: int, j: int| #![trigger cols[i], cols[j]] 0 <= i < r - 1 && i < j < cols.len() && a[k] == (cols[i], cols[j]);
                assert(0 <= i < r && i < j < cols.len() && a[k] == (cols[i], cols[j]));
            } else {
                let j = k - a.len();
                assert(pair_rows(cols, r)[k] == b[j]);
                assert(b[j] == (cols[r - 1], cols[r + j]));
                assert(0 <= r - 1 < r && r - 1 < r + j < cols.len());
            }
        }
    }
}

proof fn lemma_pair_rows_ordered(cols: Seq<usize>, r: nat)
    requires
        r <= cols.len(),
        forall|i: int, j: int| 0 <= i < j < cols.len() ==> cols[i] < cols[j],
    ensures
        forall|k1: int, k2: int| 0 <= k1 < k2 < pair_rows(cols, r).len() ==> pair_lex_less(
            #[trigger] pair_rows(cols, r)[k1],
            #[trigger] pair_rows(cols, r)[k2],
        ),
    decreases r,
{
    if r > 0 {
        lemma_pair_rows_ordered(cols, (r - 1) as nat);
        lemma_pair_rows_positions(cols, (r - 1) as nat);
        let a = pair_rows(cols, (r - 1) as nat);
        let b = pair_row(cols, r - 1);
        let c = pair_rows(cols, r);
        assert(c == a + b);
        assert forall|k1: int, k2: int| 0 <= k1 < k2 < c.len() implies pair_lex_less(#[trigger] c[k1], #[trigger] c[k2]) by {
            if k2 < a.len() {
                assert(c[k1] == a[k1] && c[k2] == a[k2]);
            } else if k1 < a.len() {
                assert(c[k1] == a[k1]);
                assert(pair_of_positions(cols, a[k1], r - 1));
                let (i, j) = choose|i: int, j: int| #![trigger cols[i], cols[j]] 0 <= i < r - 1 && i < j < cols.len() && a[k1] == (cols[i], cols[j]);
                assert(c[k2] == b[k2 - a.len()]);
                assert(b[k2 - a.len()].0 == cols[r - 1]);
                assert(cols[i] < cols[r - 1]);
            } else {
                assert(c[k1] == b[k1 - a.len()] && c[k2] == b[k2 - a.len()]);
                assert(b[k1 - a.len()] == (cols[r - 1], cols[r + k1 - a.len()]));
                assert(b[k2 - a.len()] == (cols[r - 1], cols[r + k2 - a.len()]));
            }
        }
    }
}

/// Law: the column pairs are exactly the pairs of active columns taken in order: every
/// `(cols[i], cols[j])` with `i < j` is among them, each of them is such a pair, there are
/// `n * (n - 1) / 2` of them for `n` columns, and with ascending columns they come in
/// ascending order of first, then second column (so none twice).
pub proof fn law_column_pairs_complete(cols: Seq<usize>)
    ensures
        2 * all_pairs(cols).len() == cols.len() * (cols.len() - 1),
        forall|i: int, j: int| #![trigger cols[i], cols[j]] 0 <= i < j < cols.len() ==> all_pairs(cols).contains((cols[i], cols[j])),
        forall|k: int| 0 <= k < all_pairs(cols).len() ==> pair_of_positions(cols, #[trigger] all_pairs(cols)[k], cols.len() as int),
        (forall|i: int, j: int| 0 <= i < j < cols.len() ==> cols[i] < cols[j]) ==> forall|k1: int, k2: int|
            0 <= k1 < k2 < all_pairs(cols).len() ==> pair_lex_less(#[trigger] all_pairs(cols)[k1], #[trigger] all_pairs(cols)[k2]),
{
    let n = cols.len();
    lemma_pair_rows_len(cols, n);
    lemma_pair_rows_positions(cols, n);
    if forall|i: int, j: int| 0 <= i < j < cols.len() ==> cols[i] < cols[j] {
        lemma_pair_rows_ordered(cols, n);
    }
    assert forall|i: int, j: int| #![trigger cols[i], cols[j]] 0 <= i < j < cols.len() implies all_pairs(cols).contains((cols[i], cols[j])) by {
        lemma_pair_rows_prefix(cols, (i + 1) as nat, n);
        let pre = pair_rows(cols, i as nat);
        let row = pair_row(cols, i);
        assert(pair_rows(cols, (i + 1) as nat) == pre + row);
        assert(row[j - i - 1] == (cols[i], cols[j]));
        assert(pair_rows(cols, (i + 1) as nat)[pre.len() + j - i - 1] == (cols[i], cols[j]));
        assert(all_pairs(cols)[pre.len() + j - i - 1] == (cols[i], cols[j]));
    }
}

/// Keys standing for a sequence of texts.
fn texts_as_keys(v: &Vec<String>) -> (r: Vec<ValueKey>)
    ensures
        r@.map_values(|k: ValueKey| k@) == texts(v@).map_values(|t: Seq<char>| KeyView::Str(t)),
{
    let mut r: Vec<ValueKey> = Vec::new();
    let mut i: usize = 0;
    while i < v.len()
        invariant
            i <= v@.len(),
            r@.map_values(|k: ValueKey| k@) == texts(v@.take(i as int)).map_values(|t: Seq<char>| KeyView::Str(t)),
        decreases v.len() - i,
    {
        let ghost before = r@;
        let k = ValueKey::Str(v[i].clone());
        r.push(k);
        proof {
            assert(r@.map_values(|k: ValueKey| k@) =~= before.map_values(|k: ValueKey| k@).push(KeyView::Str(v@[i as int]@)));
            assert(texts(v@.take(i + 1)).map_values(|t: Seq<char>| KeyView::Str(t)) =~= texts(v@.take(i as int)).map_values(|t: Seq<char>| KeyView::Str(t)).push(KeyView::Str(v@[i as int]@)));
        }
        i = i + 1;
    }
    assert(v@.take(v.len() as int) =~= v@);
    r
}

/// The distinct texts of `v`, in text order.
pub fn sorted_distinct_texts(v: &Vec<String>) -> (r: Vec<String>)
    ensures
        texts(r@) == sorted_distinct(texts(v@)),
{
    let mut u: Vec<String> = Vec::new();
    append_new(&mut u, v);
    assert(texts(Seq::<String>::empty()) =~= Seq::<Seq<char>>::empty());
    let keys = texts_as_keys(&u);
    let sorted = sorted_keys(&keys);
    key_texts(&sorted)
}

/// The texts a chunk offers for interning.
fn seed_texts(first: bool, cells: &Vec<Vec<String>>) -> (r: Vec<String>)
    ensures
        texts(r@) == chunk_seeds(first, cells@.map_values(|c: Vec<String>| texts(c@))),
{
    let ghost cv = cells@.map_values(|c: Vec<String>| texts(c@));
    let ghost parts = cv.map_values(|c: Seq<Seq<char>>| sorted_distinct(c));
    let mut r: Vec<String> = Vec::new();
    if first {
        r.push(String::from_str("no data"));
        r.push(String::from_str("None"));
    }
    assert(texts(r@) =~= first_seeds(first));
    let mut p: usize = 0;
    while p < cells.len()
        invariant
            p <= cells@.len(),
            cv == cells@.map_values(|c: Vec<String>| texts(c@)),
            parts == cv.map_values(|c: Seq<Seq<char>>| sorted_distinct(c)),
            texts(r@) == first_seeds(first) + concat_all(parts.take(p as int)),
        decreases cells.len() - p,
    {
        let part = sorted_distinct_texts(&cells[p]);
        assert(texts(part@) == parts[p as int]);
        let ghost before = r@;
        let mut q: usize = 0;
        while q < part.len()
            invariant
                q <= part@.len(),
                texts(r@) == texts(before) + texts(part@).take(q as int),
            decreases part.len() - q,
        {
            let ghost mid = r@;
            r.push(part[q].clone());
            proof {
                assert(texts(r@) =~= texts(mid).push(part@[q as int]@));
                assert(texts(part@).take(q + 1) =~= texts(part@).take(q as int).push(part@[q as int]@));
                assert(texts(r@) =~= texts(before) + texts(part@).take(q + 1));
            }
            q = q + 1;
        }
        proof {
            assert(texts(part@).take(part@.len() as int) =~= texts(part@));
            assert(parts.take(p + 1).drop_last() =~= parts.take(p as int));
            assert(parts.take(p + 1).last() == parts[p as int]);
            assert(concat_all(parts.take(p + 1)) == concat_all(parts.take(p as int)) + parts[p as int]);
            assert(texts(r@) =~= first_seeds(first) + concat_all(parts.take(p + 1)));
        }
        p = p + 1;
    }
    assert(parts.take(cells@.len() as int) =~= parts);
    r
}


/// The value ids of a column's cells, looked up through the column's distinct texts.
fn column_ids(vals: &Vec<String>, base: usize, uniq: &Vec<String>, cells: &Vec<String>) -> (r: Vec<i32>)
    requires
        base + vals@.len() <= i32::MAX,
        distinct_texts(texts(vals@)),
        forall|t: Seq<char>| #[trigger] texts(uniq@).contains(t) ==> texts(vals@).contains(t),
        forall|i: int| 0 <= i < cells@.len() ==> texts(uniq@).contains(#[trigger] cells@[i]@),
    ensures
        r@ == texts(cells@).map_values(|t: Seq<char>| value_id(texts(vals@), base as nat, t) as i32),
{
    let ghost vs = texts(vals@);
    let mut uid: Vec<i32> = Vec::new();
    let mut u: usize = 0;
    while u < uniq.len()
        invariant
            u <= uniq@.len(),
            vs == texts(vals@),
            base + vals@.len() <= i32::MAX,
            distinct_texts(vs),
            forall|t: Seq<char>| #[trigger] texts(uniq@).contains(t) ==> vs.contains(t),
            uid@.len() == u,
            forall|w: int| 0 <= w < u ==> #[trigger] uid@[w] == value_id(vs, base as nat, uniq@[w]@) as i32,
        decreases uniq.len() - u,
    {
        assert(texts(uniq@)[u as int] == uniq@[u as int]@);
        assert(texts(uniq@).contains(uniq@[u as int]@));
        let q = match text_position(vals, uniq[u].as_str()) {
            Some(q) => q,
            None => {
                proof {
                    assert(false);
                }
                0
            },
        };
        proof {
            assert(vs[q as int] == uniq@[u as int]@);
            lemma_text_index(vs, q as int);
        }
        uid.push((base + q) as i32);
        u = u + 1;
    }
    let mut r: Vec<i32> = Vec::new();
    let mut i: usize = 0;
    while i < cells.len()
        invariant
            i <= cells@.len(),
            vs == texts(vals@),
            uid@.len() == uniq@.len(),
            forall|w: int| 0 <= w < uniq@.len() ==> #[trigger] uid@[w] == value_id(vs, base as nat, uniq@[w]@) as i32,
            forall|j: int| 0 <= j < cells@.len() ==> texts(uniq@).contains(#[trigger] cells@[j]@),
            r@ == texts(cells@.take(i as int)).map_values(|t: Seq<char>| value_id(vs, base as nat, t) as i32),
        decreases cells.len() - i,
    {
        assert(texts(uniq@).contains(cells@[i as int]@));
        let w = match text_position(uniq, cells[i].as_str()) {
            Some(w) => w,
            None => {
                proof {
                    assert(false);
                }
                0
            },
        };
        let ghost before = r@;
        r.push(uid[w]);
        proof {
            assert(uniq@[w as int]@ == cells@[i as int]@);
            assert(texts(cells@.take(i + 1)).map_values(|t: Seq<char>| value_id(vs, base as nat, t) as i32) =~= texts(cells@.take(i as int)).map_values(|t: Seq<char>| value_id(vs, base as nat, t) as i32).push(value_id(vs, base as nat, cells@[i as int]@) as i32));
        }
        i = i + 1;
    }
    assert(cells@.take(cells@.len() as int) =~= cells@);
    r
}

impl PairAggregator {
    /// Everything but the interned values is the same in `self` and `other`.
    pub closed spec fn same_but_values(&self, other: &Self) -> bool {
        &&& self.target == other.target
        &&& self.num_chunks == other.num_chunks
        &&& self.avg_count == other.avg_count
        &&& self.col_ids == other.col_ids
        &&& self.col_graph_names == other.col_graph_names
        &&& self.cols_dropped == other.cols_dropped
        &&& self.cols == other.cols
        &&& self.col_names_ordered == other.col_names_ordered
        &&& self.vals_map == other.vals_map
        &&& self.tallied == other.tallied
        &&& self.col_array == other.col_array
        &&& self.tup_combos == other.tup_combos
        &&& self.pair_columns == other.pair_columns
        &&& self.partner_divisor == other.partner_divisor
        &&& self.combos_initialized == other.combos_initialized
        &&& self.activation == other.activation
    }

    /// The pairing texts of the active columns of a chunk that can be paired.
    fn active_texts(&self, x: &NamedColumns) -> (r: Vec<Vec<String>>)
        requires
            self.wf(),
            self.spec_graph_names().len() > 0,
            chunk_problem(self.spec_graph_names(), self.spec_cols(), x@) is None,
        ensures
            r@.map_values(|c: Vec<String>| texts(c@)) == active_cells(self.spec_graph_names(), self.spec_cols(), x@),
    {
        let ghost names = self.spec_graph_names();
        let gl = self.col_graph_names.len();
        proof {
            lemma_scan_columns(names, x@, x@[names[0]].len(), 0);
            lemma_scan_numeric(names, self.cols@, x@, 0);
            lemma_active_bounds(self.cols_dropped@, gl as nat);
        }
        let mut r: Vec<Vec<String>> = Vec::new();
        let mut p: usize = 0;
        while p < self.cols.len()
            invariant
                self.wf(),
                names == self.spec_graph_names(),
                p <= self.cols@.len(),
                forall|q: int| 0 <= q < self.cols@.len() ==> self.cols@[q] < names.len(),
                forall|q: int| 0 <= q < names.len() ==> #[trigger] x@.contains_key(names[q]),
                forall|q: int| 0 <= q < self.cols@.len() ==> #[trigger] x@[names[self.cols@[q] as int]] is Utf8,
                r@.map_values(|c: Vec<String>| texts(c@)) == active_cells(names, self.cols@, x@).take(p as int),
            decreases self.cols.len() - p,
        {
            let c = self.cols[p];
            assert(x@.contains_key(names[c as int]));
            assert(x@[names[self.cols@[p as int] as int]] is Utf8);
            let ghost before = r@;
            match x.get(&self.col_graph_names[c]) {
                Some(ColumnVec::Utf8(v)) => {
                    let t = cell_texts(v);
                    proof {
                        assert(x@[names[c as int]] == ColumnView::Utf8(texts(v@)));
                        assert(texts(t@) =~= active_cells(names, self.cols@, x@)[p as int]);
                    }
                    let ghost tv = texts(t@);
                    r.push(t);
                    proof {
                        assert(r@.map_values(|c: Vec<String>| texts(c@)) =~= before.map_values(|c: Vec<String>| texts(c@)).push(tv));
                    }
                },
                _ => {
                    proof {
                        assert(false);
                    }
                },
            }
            proof {
                assert(r@.map_values(|c: Vec<String>| texts(c@)) =~= active_cells(names, self.cols@, x@).take(p + 1));
            }
            p = p + 1;
        }
        assert(active_cells(names, self.cols@, x@).take(self.cols@.len() as int) =~= active_cells(names, self.cols@, x@));
        r
    }
}


impl PairAggregator {
    /// The values a chunk adds to the interned ones.
    pub open spec fn values_after(&self, x: Map<Seq<char>, ColumnView>) -> Seq<Seq<char>> {
        with_new(
            self.spec_val_ids(),
            chunk_seeds(self.spec_num_chunks() == 0, active_cells(self.spec_graph_names(), self.spec_cols(), x)),
        )
    }

    /// Whether interning a chunk's values would exceed the `i32` id range.
    pub open spec fn ids_overflow(&self, x: Map<Seq<char>, ColumnView>) -> bool {
        self.spec_col_ids().len() + self.values_after(x).len() > i32::MAX
    }

    /// The canonical value-id pair of every row, per column pair, once the chunk's values are
    /// interned.
    pub open spec fn chunk_keys(&self, x: Map<Seq<char>, ColumnView>) -> Seq<Seq<(i32, i32)>> {
        self.spec_combos().map_values(|pair: (usize, usize)| combo_keys(
            self.spec_graph_names(),
            x,
            self.values_after(x),
            self.spec_col_ids().len(),
            pair,
            x[self.spec_graph_names()[0]].len(),
        ))
    }

    /// Interns the values of a chunk and encodes each row of each column pair as the
    /// canonical pair of its value ids, the keys under which the pair weights are looked up.
    /// On an error nothing changes.
    pub fn make_cvto_inner(&mut self, x: &NamedColumns) -> (r: Result<Vec<Vec<(i32, i32)>>, String>)
        requires
            old(self).wf(),
            old(self).spec_graph_names().len() > 0,
        ensures
            final(self).wf(),
            match chunk_problem(old(self).spec_graph_names(), old(self).spec_cols(), x@) {
                Some(e) => r matches Err(m) && m@ == e && *final(self) == *old(self),
                None => if old(self).ids_overflow(x@) {
                    r matches Err(m) && m@ == id_overflow_text() && *final(self) == *old(self)
                } else {
                    &&& r matches Ok(keys) && keys@.len() == old(self).spec_combos().len()
                        && forall|c: int| 0 <= c < keys@.len() ==> #[trigger] keys@[c]@ == old(self).chunk_keys(x@)[c]
                    &&& final(self).spec_val_ids() == old(self).values_after(x@)
                    &&& final(self).same_but_values(old(self))
                },
            },
    {
        let ghost names = self.spec_graph_names();
        let ghost xm = x@;
        let n = match self.check_chunk(x) {
            Ok(n) => n,
            Err(e) => {
                return Err(e);
            },
        };
        let cells = self.active_texts(x);
        let ghost cv = cells@.map_values(|c: Vec<String>| texts(c@));
        let ghost parts = cv.map_values(|c: Seq<Seq<char>>| sorted_distinct(c));
        let seeds = seed_texts(self.num_chunks == 0, &cells);
        let mut newv = clone_strings(&self.val_ids);
        append_new(&mut newv, &seeds);
        let ghost vals = texts(newv@);
        proof {
            lemma_with_new(texts(self.val_ids@), texts(seeds@));
            assert(vals == self.values_after(xm));
        }
        let base = self.col_ids.len();
        if newv.len() > (i32::MAX as usize) - base {
            return Err(String::from_str("too many distinct values for i32 ids"));
        }
        let gl = self.col_graph_names.len();
        proof {
            lemma_scan_columns(names, xm, n as nat, 0);
            lemma_active_bounds(self.cols_dropped@, gl as nat);
        }
        let mut by_col: Vec<Vec<i32>> = Vec::new();
        let mut j: usize = 0;
        while j < gl
            invariant
                j <= gl,
                by_col@.len() == j,
            decreases gl - j,
        {
            by_col.push(Vec::new());
            j = j + 1;
        }
        let mut p: usize = 0;
        while p < self.cols.len()
            invariant
                self.wf(),
                names == self.spec_graph_names(),
                xm == x@,
                gl == names.len(),
                p <= self.cols@.len(),
                by_col@.len() == gl,
                base == self.col_ids@.len(),
                base + newv@.len() <= i32::MAX,
                vals == texts(newv@),
                distinct_texts(vals),
                cv == cells@.map_values(|c: Vec<String>| texts(c@)),
                cv == active_cells(names, self.cols@, xm),
                parts == cv.map_values(|c: Seq<Seq<char>>| sorted_distinct(c)),
                texts(seeds@) == first_seeds(self.num_chunks == 0) + concat_all(parts),
                forall|t: Seq<char>| #[trigger] texts(seeds@).contains(t) ==> vals.contains(t),
                forall|q: int| 0 <= q < self.cols@.len() ==> self.cols@[q] < gl,
                forall|a: int, b: int| 0 <= a < b < self.cols@.len() ==> self.cols@[a] < self.cols@[b],
                forall|q: int| 0 <= q < p ==> #[trigger] by_col@[self.cols@[q] as int]@ == column_value_ids(names, xm, vals, base as nat, self.cols@[q] as int),
            decreases self.cols.len() - p,
        {
            let uniq = sorted_distinct_texts(&cells[p]);
            proof {
                assert(texts(uniq@) == parts[p as int]);
                assert forall|t: Seq<char>| #[trigger] texts(uniq@).contains(t) implies vals.contains(t) by {
                    lemma_concat_contains(parts, p as int, t);
                    let i = choose|i: int| 0 <= i < concat_all(parts).len() && concat_all(parts)[i] == t;
                    let fs = first_seeds(self.num_chunks == 0);
                    assert(texts(seeds@)[fs.len() + i] == t);
                    assert(texts(seeds@).contains(t));
                }
                assert forall|i: int| 0 <= i < cells@[p as int]@.len() implies texts(uniq@).contains(#[trigger] cells@[p as int]@[i]@) by {
                    assert(texts(cells@[p as int]@)[i] == cells@[p as int]@[i]@);
                    lemma_sorted_distinct_contains(texts(cells@[p as int]@), cells@[p as int]@[i]@);
                }
            }
            let ids = column_ids(&newv, base, &uniq, &cells[p]);
            let c = self.cols[p];
            let ghost prev = by_col@;
            by_col.set(c, ids);
            proof {
                assert(cv[p as int] == texts(cells@[p as int]@));
                assert(cv[p as int] == utf8_cells(xm[names[c as int]]));
                assert(by_col@[c as int]@ =~= column_value_ids(names, xm, vals, base as nat, c as int));
                assert forall|q: int| 0 <= q < p + 1 implies #[trigger] by_col@[self.cols@[q] as int]@ == column_value_ids(names, xm, vals, base as nat, self.cols@[q] as int) by {
                    if q < p {
                        assert(self.cols@[q] < self.cols@[p as int]);
                        assert(by_col@[self.cols@[q] as int] == prev[self.cols@[q] as int]);
                    }
                }
            }
            p = p + 1;
        }
        proof {
            lemma_pairs_in_cols(self.cols@, self.cols@.len());
            lemma_scan_numeric(names, self.cols@, xm, 0);
        }
        let mut keys: Vec<Vec<(i32, i32)>> = Vec::new();
        let mut c: usize = 0;
        while c < self.tup_combos.len()
            invariant
                self.wf(),
                names == self.spec_graph_names(),
                xm == x@,
                gl == names.len(),
                n == xm[names[0]].len(),
                by_col@.len() == gl,
                base == self.col_ids@.len(),
                vals == texts(newv@),
                forall|q: int| 0 <= q < names.len() ==> #[trigger] xm.contains_key(names[q]) && xm[names[q]].len() == n,
                forall|q: int| 0 <= q < self.cols@.len() ==> self.cols@[q] < gl,
                forall|q: int| 0 <= q < self.cols@.len() ==> #[trigger] xm[names[self.cols@[q] as int]] is Utf8,
                forall|q: int| 0 <= q < self.cols@.len() ==> #[trigger] by_col@[self.cols@[q] as int]@ == column_value_ids(names, xm, vals, base as nat, self.cols@[q] as int),
                self.combos_initialized ==> self.tup_combos@ == all_pairs(self.cols@),
                !self.combos_initialized ==> self.tup_combos@.len() == 0,
                forall|q: int| 0 <= q < pair_rows(self.cols@, self.cols@.len()).len() ==> self.cols@.contains(#[trigger] pair_rows(self.cols@, self.cols@.len())[q].0) && self.cols@.contains(pair_rows(self.cols@, self.cols@.len())[q].1),
                c <= self.tup_combos@.len(),
                keys@.len() == c,
                forall|q: int| 0 <= q < c ==> #[trigger] keys@[q]@ == combo_keys(names, xm, vals, base as nat, self.tup_combos@[q], n as nat),
            decreases self.tup_combos.len() - c,
        {
            let (a, b) = self.tup_combos[c];
            proof {
                assert(self.tup_combos@[c as int] == pair_rows(self.cols@, self.cols@.len())[c as int]);
                assert(self.cols@.contains(a));
                assert(self.cols@.contains(b));
                let qa = choose|q: int| 0 <= q < self.cols@.len() && self.cols@[q] == a;
                let qb = choose|q: int| 0 <= q < self.cols@.len() && self.cols@[q] == b;
                assert(by_col@[self.cols@[qa] as int]@ == column_value_ids(names, xm, vals, base as nat, self.cols@[qa] as int));
                assert(by_col@[self.cols@[qb] as int]@ == column_value_ids(names, xm, vals, base as nat, self.cols@[qb] as int));
                assert(xm.contains_key(names[a as int]));
                assert(xm.contains_key(names[b as int]));
                assert(xm[names[self.cols@[qa] as int]] is Utf8);
                assert(xm[names[self.cols@[qb] as int]] is Utf8);
                assert(utf8_cells(xm[names[a as int]]).len() == n);
                assert(utf8_cells(xm[names[b as int]]).len() == n);
            }
            let ka = &by_col[a];
            let kb = &by_col[b];
            let mut row: Vec<(i32, i32)> = Vec::new();
            let mut i: usize = 0;
            while i < n
                invariant
                    i <= n,
                    ka@ == column_value_ids(names, xm, vals, base as nat, a as int),
                    kb@ == column_value_ids(names, xm, vals, base as nat, b as int),
                    ka@.len() == n,
                    kb@.len() == n,
                    row@ == combo_keys(names, xm, vals, base as nat, (a, b), n as nat).take(i as int),
                decreases n - i,
            {
                row.push(canonical_val_pair(ka[i], kb[i]));
                assert(row@ =~= combo_keys(names, xm, vals, base as nat, (a, b), n as nat).take(i + 1));
                i = i + 1;
            }
            assert(row@ =~= combo_keys(names, xm, vals, base as nat, (a, b), n as nat));
            keys.push(row);
            c = c + 1;
        }
        let total = base + newv.len();
        self.val_ids = newv;
        self.k = total as i32;
        proof {
            assert forall|q: int| 0 <= q < keys@.len() implies #[trigger] keys@[q]@ == old(self).chunk_keys(xm)[q] by {}
        }
        Ok(keys)
    }
}


/// How often `k` occurs in `s`.
pub open spec fn occurrences(s: Seq<(i32, i32)>, k: (i32, i32)) -> nat
    decreases s.len(),
{
    if s.len() == 0 {
        0
    } else {
        occurrences(s.drop_last(), k) + if s.last() == k {
            1nat
        } else {
            0nat
        }
    }
}

/// What one column pair's rows add to the tally of `k`: its occurrences when there are more
/// than `threshold` of them, else nothing.
pub open spec fn significant(s: Seq<(i32, i32)>, threshold: nat, k: (i32, i32)) -> nat {
    if occurrences(s, k) > threshold {
        occurrences(s, k)
    } else {
        0
    }
}

/// What all column pairs of a chunk add to the tally of `k`.
pub open spec fn added(all: Seq<Seq<(i32, i32)>>, threshold: nat, k: (i32, i32)) -> nat
    decreases all.len(),
{
    if all.len() == 0 {
        0
    } else {
        added(all.drop_last(), threshold, k) + significant(all.last(), threshold, k)
    }
}

/// The keys that occur in some column pair.
pub open spec fn keys_in(all: Seq<Seq<(i32, i32)>>) -> Set<(i32, i32)> {
    Set::new(|k: (i32, i32)| exists|c: int, i: int| 0 <= c < all.len() && 0 <= i < all[c].len() && all[c][i] == k)
}

/// Whether each row's key occurs in its column pair more than `threshold` times.
pub open spec fn counted_rows(s: Seq<(i32, i32)>, threshold: nat) -> Seq<bool> {
    s.map_values(|k: (i32, i32)| occurrences(s, k) > threshold)
}

proof fn lemma_occurrences(s: Seq<(i32, i32)>, k: (i32, i32))
    ensures
        occurrences(s, k) <= s.len(),
        occurrences(s, k) > 0 <==> s.contains(k),
    decreases s.len(),
{
    if s.len() > 0 {
        let d = s.drop_last();
        lemma_occurrences(d, k);
        if d.contains(k) {
            let i = choose|i: int| 0 <= i < d.len() && d[i] == k;
            assert(s[i] == k);
        }
        if s.contains(k) && s.last() != k {
            let i = choose|i: int| 0 <= i < s.len() && s[i] == k;
            assert(d[i] == k);
        }
        if s.last() == k {
            assert(s[s.len() - 1] == k);
        }
    }
}

proof fn lemma_occurrences_take(s: Seq<(i32, i32)>, i: int, k: (i32, i32))
    requires
        0 <= i < s.len(),
    ensures
        occurrences(s.take(i + 1), k) == occurrences(s.take(i), k) + if s[i] == k {
            1nat
        } else {
            0nat
        },
{
    assert(s.take(i + 1).drop_last() =~= s.take(i));
}

/// The keys of one column pair's rows, and which rows count toward the tallies.
#[derive(Debug)]
pub struct ComboTally {
    pub keys: Vec<(i32, i32)>,
    pub counted: Vec<bool>,
}

/// A copy of a sequence of pairs.
fn copy_pairs(v: &Vec<(i32, i32)>) -> (r: Vec<(i32, i32)>)
    ensures
        r@ == v@,
{
    let mut r: Vec<(i32, i32)> = Vec::new();
    let mut i: usize = 0;
    while i < v.len()
        invariant
            i <= v@.len(),
            r@ == v@.take(i as int),
        decreases v.len() - i,
    {
        r.push(v[i]);
        assert(r@ =~= v@.take(i + 1));
        i = i + 1;
    }
    assert(v@.take(v@.len() as int) =~= v@);
    r
}

/// Counts each key of `ks`.
fn local_counts(ks: &Vec<(i32, i32)>) -> (r: PairCounts)
    ensures
        forall|k: (i32, i32)| #[trigger] pair_count(r@, k) == occurrences(ks@, k),
        r@.dom() == ks@.to_set(),
{
    let mut local = PairCounts::new();
    let mut i: usize = 0;
    while i < ks.len()
        invariant
            i <= ks@.len(),
            forall|k: (i32, i32)| #[trigger] pair_count(local@, k) == occurrences(ks@.take(i as int), k),
            local@.dom() == ks@.take(i as int).to_set(),
        decreases ks.len() - i,
    {
        proof {
            lemma_occurrences(ks@.take(i as int), ks@[i as int]);
            assert(pair_count(local@, ks@[i as int]) == occurrences(ks@.take(i as int), ks@[i as int]));
        }
        let ghost before = local@;
        local.add(ks[i], 1);
        proof {
            assert forall|k: (i32, i32)| #[trigger] pair_count(local@, k) == occurrences(ks@.take(i + 1), k) by {
                lemma_occurrences_take(ks@, i as int, k);
                assert(pair_count(before, k) == occurrences(ks@.take(i as int), k));
            }
            assert(ks@.take(i + 1) =~= ks@.take(i as int).push(ks@[i as int]));
            ks@.take(i as int).lemma_push_to_set_commute(ks@[i as int]);
            assert(local@.dom() =~= ks@.take(i + 1).to_set());
        }
        i = i + 1;
    }
    assert(ks@.take(ks@.len() as int) =~= ks@);
    local
}

impl PairAggregator {
    /// Tallies one chunk: interns its values, encodes every row of every column pair as the
    /// canonical pair of its value ids, and adds to each key's tally the key's occurrences in
    /// a column pair when they exceed `threshold` (a key seen no more often is still
    /// recorded). `n_outcomes` is the number of outcomes of the chunk. Returns, per column
    /// pair, the row keys and which rows count toward the tallies, so that the caller can
    /// accumulate the outcomes of exactly those rows.
    pub fn vals_map_updating(&mut self, x: &NamedColumns, n_outcomes: usize, threshold: usize) -> (r: Result<
        Vec<ComboTally>,
        String,
    >)
        requires
            old(self).wf(),
            old(self).spec_graph_names().len() > 0,
            old(self).spec_num_chunks() < u64::MAX,
            old(self).spec_avg_count() + n_outcomes <= u64::MAX,
            chunk_problem(old(self).spec_graph_names(), old(self).spec_cols(), x@) is None ==> old(self).spec_tallied() + x@[old(self).spec_graph_names()[0]].len() * old(self).spec_combos().len() <= u64::MAX,
            chunk_problem(old(self).spec_graph_names(), old(self).spec_cols(), x@) is None && old(self).spec_combos().len() > 0 ==> x@[old(self).spec_graph_names()[0]].len() <= n_outcomes,
        ensures
            final(self).wf(),
            match chunk_problem(old(self).spec_graph_names(), old(self).spec_cols(), x@) {
                Some(e) => r matches Err(m) && m@ == e && *final(self) == *old(self),
                None => if old(self).ids_overflow(x@) {
                    r matches Err(m) && m@ == id_overflow_text() && *final(self) == *old(self)
                } else {
                    let keys = old(self).chunk_keys(x@);
                    let n = x@[old(self).spec_graph_names()[0]].len();
                    &&& r matches Ok(t) && t@.len() == keys.len()
                        && forall|c: int| 0 <= c < t@.len() ==> #[trigger] t@[c].keys@ == keys[c]
                            && t@[c].counted@ == counted_rows(keys[c], threshold as nat)
                    &&& final(self).spec_val_ids() == old(self).values_after(x@)
                    &&& final(self).spec_num_chunks() == old(self).spec_num_chunks() + 1
                    &&& final(self).spec_avg_count() == old(self).spec_avg_count() + n_outcomes
                    &&& final(self).spec_tallied() == old(self).spec_tallied() + n * keys.len()
                    &&& forall|k: (i32, i32)| #[trigger] pair_count(final(self).spec_vals(), k) == pair_count(old(self).spec_vals(), k) + added(keys, threshold as nat, k)
                    &&& final(self).spec_vals().dom() == old(self).spec_vals().dom() + keys_in(keys)
                    &&& final(self).spec_target() == old(self).spec_target()
                    &&& final(self).spec_col_ids() == old(self).spec_col_ids()
                    &&& final(self).spec_graph_names() == old(self).spec_graph_names()
                    &&& final(self).spec_dropped() == old(self).spec_dropped()
                    &&& final(self).spec_cols() == old(self).spec_cols()
                    &&& final(self).spec_column_order() == old(self).spec_column_order()
                    &&& final(self).spec_combos() == old(self).spec_combos()
                    &&& final(self).spec_initialized() == old(self).spec_initialized()
                    &&& final(self).spec_divisor() == old(self).spec_divisor()
                    &&& final(self).spec_activation() == old(self).spec_activation()
                },
            },
    {
        let ghost xm = x@;
        let ghost names = self.spec_graph_names();
        let ghost old_vals = self.vals_map@;
        let ghost old_tallied = self.tallied;
        let ghost spec_keys = self.chunk_keys(xm);
        let keys = match self.make_cvto_inner(x) {
            Ok(keys) => keys,
            Err(e) => {
                return Err(e);
            },
        };
        let ghost n: nat = xm[names[0]].len();
        let thr = threshold as u64;
        let mut vm = PairCounts::new();
        std::mem::swap(&mut vm, &mut self.vals_map);
        let mut t: u64 = self.tallied;
        let mut out: Vec<ComboTally> = Vec::new();
        let mut c: usize = 0;
        proof {
            assert(keys_in(spec_keys.take(0)) =~= Set::<(i32, i32)>::empty());
            assert(vm@.dom() =~= old_vals.dom() + keys_in(spec_keys.take(0)));
            assert(spec_keys.len() * n == n * spec_keys.len()) by (nonlinear_arith);
        }
        while c < keys.len()
            invariant
                c <= keys@.len(),
                keys@.len() == spec_keys.len(),
                forall|q: int| 0 <= q < keys@.len() ==> #[trigger] keys@[q]@ == spec_keys[q],
                forall|q: int| 0 <= q < spec_keys.len() ==> #[trigger] spec_keys[q].len() == n,
                forall|q: int, i: int| 0 <= q < spec_keys.len() && 0 <= i < spec_keys[q].len() ==> (#[trigger] spec_keys[q][i]).0 <= spec_keys[q][i].1,
                t as int == old_tallied + c * n,
                old_tallied + spec_keys.len() * n <= u64::MAX,
                thr == threshold,
                forall|k: (i32, i32)| #[trigger] pair_count(vm@, k) == pair_count(old_vals, k) + added(spec_keys.take(c as int), threshold as nat, k),
                vm@.dom() == old_vals.dom() + keys_in(spec_keys.take(c as int)),
                forall|k: (i32, i32)| #[trigger] vm@.contains_key(k) ==> vm@[k] <= t && k.0 <= k.1,
                out@.len() == c,
                forall|q: int| 0 <= q < c ==> #[trigger] out@[q].keys@ == spec_keys[q] && out@[q].counted@ == counted_rows(spec_keys[q], threshold as nat),
            decreases keys.len() - c,
        {
            let ks = copy_pairs(&keys[c]);
            assert(ks@ =~= spec_keys[c as int]);
            proof {
                assert((c + 1) * n == c * n + n) by (nonlinear_arith);
                assert((c + 1) * n <= spec_keys.len() * n) by (nonlinear_arith)
                    requires
                        c + 1 <= spec_keys.len(),
                ;
            }
            let local = local_counts(&ks);
            let mut counted: Vec<bool> = Vec::new();
            let mut i: usize = 0;
            while i < ks.len()
                invariant
                    i <= ks@.len(),
                    thr == threshold,
                    forall|k: (i32, i32)| #[trigger] pair_count(local@, k) == occurrences(ks@, k),
                    local@.dom() == ks@.to_set(),
                    counted@ == counted_rows(ks@, threshold as nat).take(i as int),
                decreases ks.len() - i,
            {
                let ghost k = ks@[i as int];
                assert(ks@.to_set().contains(k));
                let occ = match local.get(ks[i]) {
                    Some(v) => v,
                    None => {
                        proof {
                            assert(false);
                        }
                        0
                    },
                };
                assert(pair_count(local@, k) == occurrences(ks@, k));
                counted.push(occ > thr);
                assert(counted@ =~= counted_rows(ks@, threshold as nat).take(i + 1));
                i = i + 1;
            }
            assert(counted@ =~= counted_rows(ks@, threshold as nat));
            let (lk, lc) = local.entries();
            let ghost vm_c = vm@;
            let mut j: usize = 0;
            while j < lk.len()
                invariant
                    j <= lk@.len(),
                    lk@.len() == lc@.len(),
                    crate::pairs::distinct_pairs(lk@),
                    forall|q: int| 0 <= q < lk@.len() ==> #[trigger] local@[lk@[q]] == lc@[q],
                    local@.dom() == lk@.to_set(),
                    local@.dom() == ks@.to_set(),
                    forall|k: (i32, i32)| #[trigger] pair_count(local@, k) == occurrences(ks@, k),
                    ks@ == spec_keys[c as int],
                    ks@.len() == n,
                    forall|i: int| 0 <= i < ks@.len() ==> (#[trigger] ks@[i]).0 <= ks@[i].1,
                    thr == threshold,
                    t as int + n <= u64::MAX,
                    forall|k: (i32, i32)| #[trigger] vm_c.contains_key(k) ==> vm_c[k] <= t,
                    forall|k: (i32, i32)| #[trigger] pair_count(vm@, k) == pair_count(vm_c, k) + if lk@.take(j as int).contains(k) {
                        significant(ks@, threshold as nat, k)
                    } else {
                        0
                    },
                    vm@.dom() == vm_c.dom() + lk@.take(j as int).to_set(),
                    forall|k: (i32, i32)| #[trigger] vm@.contains_key(k) ==> vm@[k] <= t + n && k.0 <= k.1 || !vm@.contains_key(k),
                    forall|k: (i32, i32)| #[trigger] vm_c.contains_key(k) ==> k.0 <= k.1,
                decreases lk.len() - j,
            {
                let key = lk[j];
                let cnt = lc[j];
                let add: u64 = if cnt > thr { cnt } else { 0 };
                proof {
                    assert(lk@.to_set().contains(key));
                    assert(local@.contains_key(key));
                    assert(pair_count(local@, key) == cnt);
                    lemma_occurrences(ks@, key);
                    assert(add == significant(ks@, threshold as nat, key));
                    assert(!lk@.take(j as int).contains(key)) by {
                        if lk@.take(j as int).contains(key) {
                            let tk = lk@.take(j as int);
                            let q = choose|q: int| 0 <= q < tk.len() && tk[q] == key;
                            assert(lk@[q] == lk@[j as int]);
                        }
                    }
                    assert(pair_count(vm@, key) == pair_count(vm_c, key));
                    assert(ks@.contains(key));
                    let w = choose|w: int| 0 <= w < ks@.len() && ks@[w] == key;
                    assert(key.0 <= key.1);
                }
                let ghost before = vm@;
                vm.add(key, add);
                proof {
                    assert(lk@.take(j + 1) =~= lk@.take(j as int).push(key));
                    lk@.take(j as int).lemma_push_to_set_commute(key);
                    assert forall|k: (i32, i32)| #[trigger] pair_count(vm@, k) == pair_count(vm_c, k) + if lk@.take(j + 1).contains(k) {
                        significant(ks@, threshold as nat, k)
                    } else {
                        0
                    } by {
                        assert(pair_count(before, k) == pair_count(vm_c, k) + if lk@.take(j as int).contains(k) {
                            significant(ks@, threshold as nat, k)
                        } else {
                            0
                        });
                        if k == key {
                            assert(lk@.take(j + 1)[j as int] == key);
                            assert(lk@.take(j + 1).contains(key));
                        } else {
                            assert(lk@.take(j + 1).contains(k) == lk@.take(j as int).contains(k));
                        }
                    }
                    assert(vm@.dom() =~= vm_c.dom() + lk@.take(j + 1).to_set());
                    assert forall|k: (i32, i32)| #[trigger] vm@.contains_key(k) implies vm@[k] <= t + n && k.0 <= k.1 by {
                        lemma_occurrences(ks@, k);
                        if k != key {
                            assert(before.contains_key(k));
                        }
                        if vm_c.contains_key(k) {
                            assert(pair_count(vm_c, k) == vm_c[k]);
                        }
                        assert(pair_count(vm@, k) == vm@[k]);
                        if lk@.take(j + 1).contains(k) {
                            assert(lk@.to_set().contains(k)) by {
                                let tk = lk@.take(j + 1);
                                let q = choose|q: int| 0 <= q < tk.len() && tk[q] == k;
                                assert(lk@[q] == k);
                            }
                            assert(ks@.contains(k));
                            let w = choose|w: int| 0 <= w < ks@.len() && ks@[w] == k;
                            assert(ks@[w].0 <= ks@[w].1);
                        }
                    }
                }
                j = j + 1;
            }
            proof {
                assert(lk@.take(lk@.len() as int) =~= lk@);
                let nk = spec_keys.take(c + 1);
                assert(nk.drop_last() =~= spec_keys.take(c as int));
                assert(nk.last() == ks@);
                assert forall|k: (i32, i32)| #[trigger] pair_count(vm@, k) == pair_count(old_vals, k) + added(nk, threshold as nat, k) by {
                    lemma_occurrences(ks@, k);
                    if !lk@.contains(k) {
                        assert(!lk@.to_set().contains(k));
                        assert(!ks@.to_set().contains(k));
                        assert(!ks@.contains(k));
                    } else {
                        assert(lk@.to_set().contains(k));
                    }
                }
                assert(keys_in(nk) =~= keys_in(spec_keys.take(c as int)) + ks@.to_set()) by {
                    assert forall|k: (i32, i32)| keys_in(nk).contains(k) implies keys_in(spec_keys.take(c as int)).contains(k) || ks@.to_set().contains(k) by {
                        let (q, i) = choose|q: int, i: int| 0 <= q < nk.len() && 0 <= i < nk[q].len() && nk[q][i] == k;
                        if q < c {
                            assert(spec_keys.take(c as int)[q] == nk[q]);
                        } else {
                            assert(ks@[i] == k);
                            assert(ks@.contains(k));
                        }
                    }
                    assert forall|k: (i32, i32)| keys_in(spec_keys.take(c as int)).contains(k) || ks@.to_set().contains(k) implies keys_in(nk).contains(k) by {
                        if keys_in(spec_keys.take(c as int)).contains(k) {
                            let (q, i) = choose|q: int, i: int| 0 <= q < spec_keys.take(c as int).len() && 0 <= i < spec_keys.take(c as int)[q].len() && spec_keys.take(c as int)[q][i] == k;
                            assert(nk[q][i] == k);
                        } else {
                            assert(ks@.contains(k));
                            let i = choose|i: int| 0 <= i < ks@.len() && ks@[i] == k;
                            assert(nk[c as int][i] == k);
                        }
                    }
                }
                assert(vm@.dom() =~= old_vals.dom() + keys_in(nk));
                assert((c + 1) * n == c * n + n) by (nonlinear_arith);
                assert((c + 1) * n <= spec_keys.len() * n) by (nonlinear_arith)
                    requires
                        c + 1 <= spec_keys.len(),
                ;
            }
            t = t + (ks.len() as u64);
            let ghost ob = out@;
            let ghost kv = ks@;
            let ghost cv = counted@;
            out.push(ComboTally { keys: ks, counted });
            proof {
                assert(kv == spec_keys[c as int]);
                assert(cv == counted_rows(spec_keys[c as int], threshold as nat));
                assert forall|q: int| 0 <= q < c + 1 implies #[trigger] out@[q].keys@ == spec_keys[q] && out@[q].counted@ == counted_rows(spec_keys[q], threshold as nat) by {
                    if q < c {
                        assert(out@[q] == ob[q]);
                    } else {
                        assert(out@[q].keys@ == kv);
                        assert(out@[q].counted@ == cv);
                    }
                }
            }
            c = c + 1;
        }
        proof {
            assert(spec_keys.take(spec_keys.len() as int) =~= spec_keys);
        }
        self.vals_map = vm;
        self.tallied = t;
        self.num_chunks = self.num_chunks + 1;
        self.avg_count = self.avg_count + n_outcomes as u64;
        Ok(out)
    }
}


/// The ids, ascending, of the column pairs among the first `m` that contain column `c`.
pub open spec fn combo_ids_of(combos: Seq<(usize, usize)>, c: usize, m: nat) -> Seq<usize>
    decreases m,
{
    if m == 0 {
        Seq::empty()
    } else {
        combo_ids_of(combos, c, (m - 1) as nat) + if combos[m - 1].0 == c || combos[m - 1].1 == c {
            seq![(m - 1) as usize]
        } else {
            Seq::empty()
        }
    }
}

/// The name of the effect column of a column.
pub open spec fn effect_name(name: Seq<char>) -> Seq<char> {
    name + "_effect"@
}

/// For the first `j` graph columns that occur in some column pair, in column order: the name
/// of the effect column and the ids of the column pairs it combines.
pub open spec fn effect_plan(names: Seq<Seq<char>>, combos: Seq<(usize, usize)>, j: nat) -> Seq<(Seq<char>, Seq<usize>)>
    decreases j,
{
    if j == 0 {
        Seq::empty()
    } else {
        let ids = combo_ids_of(combos, (j - 1) as usize, combos.len());
        effect_plan(names, combos, (j - 1) as nat) + if ids.len() > 0 {
            seq![(effect_name(names[j - 1]), ids)]
        } else {
            Seq::empty()
        }
    }
}

/// Law: the ids listed for column `c` are exactly the ids of the column pairs holding `c`,
/// each once, in ascending order.
pub proof fn law_combo_ids(combos: Seq<(usize, usize)>, c: usize, m: nat)
    requires
        m <= combos.len(),
        m <= usize::MAX,
    ensures
        forall|q: int| 0 <= q < combo_ids_of(combos, c, m).len() ==> #[trigger] combo_ids_of(combos, c, m)[q] < m
            && (combos[combo_ids_of(combos, c, m)[q] as int].0 == c || combos[combo_ids_of(combos, c, m)[q] as int].1 == c),
        forall|k: usize| k < m ==> (#[trigger] combo_ids_of(combos, c, m).contains(k) <==> (combos[k as int].0 == c
            || combos[k as int].1 == c)),
        forall|a: int, b: int| 0 <= a < b < combo_ids_of(combos, c, m).len() ==> combo_ids_of(combos, c, m)[a]
            < combo_ids_of(combos, c, m)[b],
    decreases m,
{
    if m > 0 {
        law_combo_ids(combos, c, (m - 1) as nat);
        let p = combo_ids_of(combos, c, (m - 1) as nat);
        let r = combo_ids_of(combos, c, m);
        let hit = combos[m - 1].0 == c || combos[m - 1].1 == c;
        if hit {
            assert(r == p.push((m - 1) as usize));
            assert(r[r.len() - 1] == m - 1);
        } else {
            assert(r == p);
        }
        assert forall|k: usize| k < m implies (#[trigger] r.contains(k) <==> (combos[k as int].0 == c || combos[k as int].1 == c)) by {
            if r.contains(k) {
                let q = choose|q: int| 0 <= q < r.len() && r[q] == k;
                if q < p.len() {
                    assert(r[q] == p[q]);
                }
            }
            if k < m - 1 {
                if p.contains(k) {
                    let q = choose|q: int| 0 <= q < p.len() && p[q] == k;
                    assert(r[q] == p[q]);
                }
            } else if hit {
                assert(r[r.len() - 1] == k);
            }
        }
        assert forall|q: int| 0 <= q < r.len() implies #[trigger] r[q] < m && (combos[r[q] as int].0 == c || combos[r[q] as int].1 == c) by {
            if q < p.len() {
                assert(r[q] == p[q]);
            }
        }
    }
}

/// `e` is the effect entry of graph column `c`: `c` occurs in some column pair, and `e` is
/// the name `{name}_effect` with the ids of the pairs holding `c`.
pub open spec fn effect_entry_of(names: Seq<Seq<char>>, combos: Seq<(usize, usize)>, e: (Seq<char>, Seq<usize>), c: int) -> bool {
    &&& 0 <= c < names.len()
    &&& combo_ids_of(combos, c as usize, combos.len()).len() > 0
    &&& e == (effect_name(names[c]), combo_ids_of(combos, c as usize, combos.len()))
}

/// `e` is the effect entry of some graph column below `j`.
pub open spec fn entry_of_column_below(names: Seq<Seq<char>>, combos: Seq<(usize, usize)>, e: (Seq<char>, Seq<usize>), j: int) -> bool {
    exists|c: int| 0 <= c < j && #[trigger] effect_entry_of(names, combos, e, c)
}

/// `e1` and `e2` are the effect entries of graph columns `ca < cb` below `j`.
pub open spec fn entries_in_column_order(
    names: Seq<Seq<char>>,
    combos: Seq<(usize, usize)>,
    e1: (Seq<char>, Seq<usize>),
    e2: (Seq<char>, Seq<usize>),
    j: int,
) -> bool {
    exists|ca: int, cb: int| 0 <= ca < cb < j && #[trigger] effect_entry_of(names, combos, e1, ca) && #[trigger] effect_entry_of(names, combos, e2, cb)
}

/// Law: the effect plan over the first `j` graph columns holds an entry for every one of them
/// that occurs in some column pair, and its entries are the entries of such columns, listed
/// in increasing column order.
pub proof fn law_effect_plan(names: Seq<Seq<char>>, combos: Seq<(usize, usize)>, j: nat)
    requires
        j <= names.len(),
        names.len() <= usize::MAX,
    ensures
        forall|c: int| 0 <= c < j && combo_ids_of(combos, c as usize, combos.len()).len() > 0 ==> effect_plan(names, combos, j).contains(
            (effect_name(names[c]), combo_ids_of(combos, c as usize, combos.len())),
        ),
        forall|k: int| 0 <= k < effect_plan(names, combos, j).len() ==> entry_of_column_below(names, combos, #[trigger] effect_plan(names, combos, j)[k], j as int),
        forall|a: int, b: int| 0 <= a < b < effect_plan(names, combos, j).len() ==> entries_in_column_order(
            names,
            combos,
            #[trigger] effect_plan(names, combos, j)[a],
            #[trigger] effect_plan(names, combos, j)[b],
            j as int,
        ),
    decreases j,
{
    if j > 0 {
        law_effect_plan(names, combos, (j - 1) as nat);
        let p = effect_plan(names, combos, (j - 1) as nat);
        let r = effect_plan(names, combos, j);
        let c0 = j - 1;
        let ids = combo_ids_of(combos, c0 as usize, combos.len());
        let e0 = (effect_name(names[c0]), ids);
        if ids.len() > 0 {
            assert(r == p.push(e0));
            assert(effect_entry_of(names, combos, e0, c0));
        } else {
            assert(r == p);
        }
        assert forall|c: int| 0 <= c < j && combo_ids_of(combos, c as usize, combos.len()).len() > 0 implies r.contains(
            (effect_name(names[c]), combo_ids_of(combos, c as usize, combos.len())),
        ) by {
            if c < j - 1 {
                let e = (effect_name(names[c]), combo_ids_of(combos, c as usize, combos.len()));
                assert(p.contains(e));
                let q = choose|q: int| 0 <= q < p.len() && p[q] == e;
                assert(r[q] == p[q]);
            } else {
                assert(r[r.len() - 1] == e0);
            }
        }
        assert forall|k: int| 0 <= k < r.len() implies entry_of_column_below(names, combos, #[trigger] r[k], j as int) by {
            if k < p.len() {
                assert(r[k] == p[k]);
                assert(entry_of_column_below(names, combos, p[k], j - 1));
                let c = choose|c: int| 0 <= c < j - 1 && #[trigger] effect_entry_of(names, combos, p[k], c);
                assert(effect_entry_of(names, combos, r[k], c));
            } else {
                assert(r[k] == e0);
                assert(effect_entry_of(names, combos, r[k], c0));
            }
        }
        assert forall|a: int, b: int| 0 <= a < b < r.len() implies entries_in_column_order(names, combos, #[trigger] r[a], #[trigger] r[b], j as int) by {
            if b < p.len() {
                assert(r[a] == p[a] && r[b] == p[b]);
                assert(entries_in_column_order(names, combos, p[a], p[b], j - 1));
                let (ca, cb) = choose|ca: int, cb: int| 0 <= ca < cb < j - 1
                    && #[trigger] effect_entry_of(names, combos, p[a], ca) && #[trigger] effect_entry_of(names, combos, p[b], cb);
                assert(effect_entry_of(names, combos, r[a], ca) && effect_entry_of(names, combos, r[b], cb));
            } else {
                assert(r[a] == p[a]);
                assert(r[b] == e0);
                assert(entry_of_column_below(names, combos, p[a], j - 1));
                let ca = choose|c: int| 0 <= c < j - 1 && #[trigger] effect_entry_of(names, combos, p[a], c);
                assert(effect_entry_of(names, combos, r[a], ca));
                assert(effect_entry_of(names, combos, r[b], c0));
            }
        }
    }
}

/// The columns passed through to the output: each graph column of `x`, or `n` cells of
/// `no data` where `x` lacks it.
pub open spec fn passthrough(names: Seq<Seq<char>>, x: Map<Seq<char>, ColumnView>, n: nat, j: nat) -> Map<Seq<char>, ColumnView>
    decreases j,
{
    if j == 0 {
        Map::empty()
    } else {
        passthrough(names, x, n, (j - 1) as nat).insert(
            names[j - 1],
            if x.contains_key(names[j - 1]) {
                x[names[j - 1]]
            } else {
                ColumnView::Utf8(Seq::new(n, |i: int| no_data_word()))
            },
        )
    }
}

/// One effect column to compute: its name and the column pairs whose looked-up weights it
/// sums.
#[derive(Debug)]
pub struct EffectColumn {
    pub name: String,
    pub combos: Vec<usize>,
}

/// What a chunk's output is made of: the row keys of every column pair, the columns passed
/// through, the effect columns, and the number of partner columns each effect sum is divided by.
#[derive(Debug)]
pub struct EffectPlan {
    pub keys: Vec<Vec<(i32, i32)>>,
    pub columns: NamedColumns,
    pub effects: Vec<EffectColumn>,
    pub divisor: u64,
}

/// The ids of the column pairs that contain column `c`.
fn combos_with(combos: &Vec<(usize, usize)>, c: usize) -> (r: Vec<usize>)
    ensures
        r@ == combo_ids_of(combos@, c, combos@.len()),
{
    let mut r: Vec<usize> = Vec::new();
    let mut m: usize = 0;
    while m < combos.len()
        invariant
            m <= combos@.len(),
            r@ == combo_ids_of(combos@, c, m as nat),
        decreases combos.len() - m,
    {
        if combos[m].0 == c || combos[m].1 == c {
            r.push(m);
            assert(r@ =~= combo_ids_of(combos@, c, (m + 1) as nat));
        } else {
            assert(r@ =~= combo_ids_of(combos@, c, (m + 1) as nat));
        }
        m = m + 1;
    }
    r
}

/// `n` cells of `no data`.
fn no_data_column(n: usize) -> (r: Vec<String>)
    ensures
        texts(r@) == Seq::new(n as nat, |i: int| no_data_word()),
{
    let mut r: Vec<String> = Vec::new();
    let mut i: usize = 0;
    while i < n
        invariant
            i <= n,
            texts(r@) == Seq::new(i as nat, |q: int| no_data_word()),
        decreases n - i,
    {
        let ghost before = r@;
        let w = String::from_str("no data");
        assert(w@ == no_data_word());
        r.push(w);
        assert(texts(r@) =~= texts(before).push(no_data_word()));
        assert(texts(r@) =~= Seq::new((i + 1) as nat, |q: int| no_data_word()));
        i = i + 1;
    }
    r
}

impl PairAggregator {
    /// Plans the output of a chunk: interns its values and encodes its rows (as
    /// `make_cvto_inner`), passes every graph column through, and lists, for each graph column
    /// that occurs in a column pair, its effect column and the pairs it combines. The caller
    /// looks the keys up in the pair weights, sums them per effect column in pair order,
    /// divides by `divisor` and applies the effect activation.
    pub fn use_map(&mut self, x: &NamedColumns) -> (r: Result<EffectPlan, String>)
        requires
            old(self).wf(),
            old(self).spec_graph_names().len() > 0,
        ensures
            final(self).wf(),
            match chunk_problem(old(self).spec_graph_names(), old(self).spec_cols(), x@) {
                Some(e) => r matches Err(m) && m@ == e && *final(self) == *old(self),
                None => if old(self).ids_overflow(x@) {
                    r matches Err(m) && m@ == id_overflow_text() && *final(self) == *old(self)
                } else {
                    let names = old(self).spec_graph_names();
                    let n = x@[names[0]].len();
                    &&& r matches Ok(plan) && {
                        &&& plan.keys@.len() == old(self).spec_combos().len()
                        &&& forall|c: int| 0 <= c < plan.keys@.len() ==> #[trigger] plan.keys@[c]@ == old(self).chunk_keys(x@)[c]
                        &&& plan.columns@ == passthrough(names, x@, n, names.len())
                        &&& plan.effects@.map_values(|e: EffectColumn| (e.name@, e.combos@)) == effect_plan(names, old(self).spec_combos(), names.len())
                        &&& forall|c: int| 0 <= c < names.len() && combo_ids_of(old(self).spec_combos(), c as usize, old(self).spec_combos().len()).len() > 0
                            ==> plan.effects@.map_values(|e: EffectColumn| (e.name@, e.combos@)).contains(
                            (effect_name(names[c]), combo_ids_of(old(self).spec_combos(), c as usize, old(self).spec_combos().len())),
                        )
                        &&& plan.divisor == old(self).spec_divisor()
                    }
                    &&& final(self).spec_val_ids() == old(self).values_after(x@)
                    &&& final(self).same_but_values(old(self))
                },
            },
    {
        let ghost names = self.spec_graph_names();
        let keys = match self.make_cvto_inner(x) {
            Ok(k) => k,
            Err(e) => {
                return Err(e);
            },
        };
        let n = match x.get(&self.col_graph_names[0]) {
            Some(c) => c.len(),
            None => 0,
        };
        let mut columns = NamedColumns::new();
        let mut j: usize = 0;
        while j < self.col_graph_names.len()
            invariant
                self.wf(),
                names == self.spec_graph_names(),
                j <= names.len(),
                columns@ == passthrough(names, x@, n as nat, j as nat),
            decreases self.col_graph_names.len() - j,
        {
            let col = match x.get(&self.col_graph_names[j]) {
                Some(c) => c.clone(),
                None => ColumnVec::Utf8(no_data_column(n)),
            };
            columns.insert(self.col_graph_names[j].clone(), col);
            j = j + 1;
        }
        let mut effects: Vec<EffectColumn> = Vec::new();
        let mut c: usize = 0;
        while c < self.col_graph_names.len()
            invariant
                self.wf(),
                names == self.spec_graph_names(),
                c <= names.len(),
                effects@.map_values(|e: EffectColumn| (e.name@, e.combos@)) == effect_plan(names, self.tup_combos@, c as nat),
            decreases self.col_graph_names.len() - c,
        {
            let ids = combos_with(&self.tup_combos, c);
            let ghost before = effects@;
            if ids.len() > 0 {
                let name = cat(self.col_graph_names[c].as_str(), "_effect");
                effects.push(EffectColumn { name, combos: ids });
                assert(effects@.map_values(|e: EffectColumn| (e.name@, e.combos@)) =~= before.map_values(|e: EffectColumn| (e.name@, e.combos@)).push((effect_name(names[c as int]), combo_ids_of(self.tup_combos@, c, self.tup_combos@.len()))));
            } else {
                assert(effect_plan(names, self.tup_combos@, (c + 1) as nat) =~= effect_plan(names, self.tup_combos@, c as nat));
            }
            c = c + 1;
        }
        proof {
            law_effect_plan(names, self.tup_combos@, names.len());
        }
        Ok(EffectPlan { keys, columns, effects, divisor: self.partner_divisor })
    }

    /// The target column's name.
    pub fn target(&self) -> (r: &String)
        ensures
            r@ == self.spec_target(),
    {
        &self.target
    }

    /// How many chunks were tallied.
    pub fn num_chunks(&self) -> (r: u64)
        ensures
            r == self.spec_num_chunks(),
    {
        self.num_chunks
    }

    /// How many outcomes were tallied.
    pub fn avg_count(&self) -> (r: u64)
        ensures
            r == self.spec_avg_count(),
    {
        self.avg_count
    }

    /// The active columns, ascending.
    pub fn cols(&self) -> (r: &Vec<usize>)
        ensures
            r@ == self.spec_cols(),
    {
        &self.cols
    }

    /// The ids of the column pairs.
    pub fn col_array(&self) -> (r: &Vec<usize>)
        requires
            self.wf(),
        ensures
            r@ == Seq::new(self.spec_combos().len(), |i: int| i as usize),
    {
        &self.col_array
    }

    /// The column pairs, by id.
    pub fn combos(&self) -> (r: &Vec<(usize, usize)>)
        ensures
            r@ == self.spec_combos(),
    {
        &self.tup_combos
    }

    /// The number of partner columns an effect sum is divided by.
    pub fn divisor(&self) -> (r: u64)
        ensures
            r == self.spec_divisor(),
    {
        self.partner_divisor
    }

    /// The activation settings.
    pub fn activation(&self) -> (r: ActivationConfig)
        ensures
            r == self.spec_activation(),
    {
        self.activation
    }

    /// The id of an interned value, if it is interned.
    pub fn value_id(&self, t: &str) -> (r: Option<i32>)
        requires
            self.wf(),
        ensures
            match r {
                Some(id) => self.spec_val_ids().contains(t@) && id == value_id(self.spec_val_ids(), self.spec_col_ids().len(), t@),
                None => !self.spec_val_ids().contains(t@),
            },
    {
        match text_position(&self.val_ids, t) {
            Some(q) => {
                proof {
                    assert(texts(self.val_ids@)[q as int] == t@);
                    lemma_text_index(texts(self.val_ids@), q as int);
                }
                Some((self.col_ids.len() + q) as i32)
            },
            None => None,
        }
    }

    /// The id of an interned column name, if it is interned.
    pub fn column_id(&self, t: &str) -> (r: Option<i32>)
        requires
            self.wf(),
        ensures
            match r {
                Some(id) => self.spec_col_ids().contains(t@) && id == text_index(self.spec_col_ids(), t@),
                None => !self.spec_col_ids().contains(t@),
            },
    {
        match text_position(&self.col_ids, t) {
            Some(q) => {
                proof {
                    assert(texts(self.col_ids@)[q as int] == t@);
                    lemma_text_index(texts(self.col_ids@), q as int);
                }
                Some(q as i32)
            },
            None => None,
        }
    }

    /// The tallied keys, in first-seen order, and their counts.
    pub fn tallies(&self) -> (r: (Vec<(i32, i32)>, Vec<u64>))
        ensures
            r.0@.len() == r.1@.len(),
            crate::pairs::distinct_pairs(r.0@),
            forall|i: int| 0 <= i < r.0@.len() ==> #[trigger] self.spec_vals()[r.0@[i]] == r.1@[i],
            self.spec_vals().dom() == r.0@.to_set(),
    {
        self.vals_map.entries()
    }

    /// The tally of `key`, if it is recorded.
    pub fn tally(&self, key: (i32, i32)) -> (r: Option<u64>)
        ensures
            match r {
                Some(c) => self.spec_vals().contains_key(key) && c == self.spec_vals()[key],
                None => !self.spec_vals().contains_key(key),
            },
    {
        self.vals_map.get(key)
    }

    /// The number of recorded keys.
    pub fn tally_len(&self) -> (r: usize)
        ensures
            r == self.spec_vals().len(),
    {
        let (ks, _) = self.vals_map.entries();
        proof {
            ks@.unique_seq_to_set();
        }
        ks.len()
    }
}


/// Law: every tallied key is canonical, its smaller value id first, and no tally exceeds the
/// number of (row, column pair) cells tallied.
pub proof fn law_tally_keys_canonical(agg: &PairAggregator, key: (i32, i32))
    requires
        agg.wf(),
        agg.spec_vals().contains_key(key),
    ensures
        key.0 <= key.1,
        agg.spec_vals()[key] <= agg.spec_tallied(),
{
}

/// Law: two rows of a column pair whose values are the same but swapped between the two
/// columns get the same key, so both orientations are tallied together.
pub proof fn law_swapped_rows_share_key(agg: &PairAggregator, x: Map<Seq<char>, ColumnView>, c: int, i: int, j: int)
    requires
        0 <= c < agg.spec_combos().len(),
        0 <= i < x[agg.spec_graph_names()[0]].len(),
        0 <= j < x[agg.spec_graph_names()[0]].len(),
        i < utf8_cells(x[agg.spec_graph_names()[agg.spec_combos()[c].0 as int]]).len(),
        j < utf8_cells(x[agg.spec_graph_names()[agg.spec_combos()[c].0 as int]]).len(),
        i < utf8_cells(x[agg.spec_graph_names()[agg.spec_combos()[c].1 as int]]).len(),
        j < utf8_cells(x[agg.spec_graph_names()[agg.spec_combos()[c].1 as int]]).len(),
        utf8_cells(x[agg.spec_graph_names()[agg.spec_combos()[c].0 as int]])[i] == utf8_cells(x[agg.spec_graph_names()[agg.spec_combos()[c].1 as int]])[j],
        utf8_cells(x[agg.spec_graph_names()[agg.spec_combos()[c].1 as int]])[i] == utf8_cells(x[agg.spec_graph_names()[agg.spec_combos()[c].0 as int]])[j],
    ensures
        agg.chunk_keys(x)[c][i] == agg.chunk_keys(x)[c][j],
{
    let names = agg.spec_graph_names();
    let pair = agg.spec_combos()[c];
    let vals = agg.values_after(x);
    let base = agg.spec_col_ids().len();
    let ka = column_value_ids(names, x, vals, base, pair.0 as int);
    let kb = column_value_ids(names, x, vals, base, pair.1 as int);
    assert(ka[i] == kb[j]);
    assert(kb[i] == ka[j]);
    crate::pairs::law_canonical_pair_commutes(ka[i], kb[i]);
}

/// Law: interning a chunk's values keeps every value interned before at its id, gives each
/// value one id, and interns every value of the active columns.
pub proof fn law_interning_keeps_ids(agg: &PairAggregator, x: Map<Seq<char>, ColumnView>)
    requires
        agg.wf(),
    ensures
        agg.values_after(x).take(agg.spec_val_ids().len() as int) == agg.spec_val_ids(),
        distinct_texts(agg.values_after(x)),
        forall|p: int, i: int|
            0 <= p < agg.spec_cols().len() && 0 <= i < active_cells(agg.spec_graph_names(), agg.spec_cols(), x)[p].len()
                ==> agg.values_after(x).contains(#[trigger] active_cells(agg.spec_graph_names(), agg.spec_cols(), x)[p][i]),
{
    let cells = active_cells(agg.spec_graph_names(), agg.spec_cols(), x);
    let seeds = chunk_seeds(agg.spec_num_chunks() == 0, cells);
    lemma_with_new(agg.spec_val_ids(), seeds);
    let parts = cells.map_values(|c: Seq<Seq<char>>| sorted_distinct(c));
    assert forall|p: int, i: int| 0 <= p < agg.spec_cols().len() && 0 <= i < cells[p].len() implies agg.values_after(x).contains(#[trigger] cells[p][i]) by {
        let t = cells[p][i];
        assert(cells[p].contains(t));
        lemma_sorted_distinct_contains(cells[p], t);
        assert(parts[p] == sorted_distinct(cells[p]));
        lemma_concat_contains(parts, p, t);
        let q = choose|q: int| 0 <= q < concat_all(parts).len() && concat_all(parts)[q] == t;
        assert(seeds[first_seeds(agg.spec_num_chunks() == 0).len() + q] == t);
        assert(seeds.contains(t));
    }
}

proof fn lemma_pair_rows_prefix(cols: Seq<usize>, r: nat, m: nat)
    requires
        r <= m,
    ensures
        pair_rows(cols, r).len() <= pair_rows(cols, m).len(),
        forall|i: int| 0 <= i < pair_rows(cols, r).len() ==> #[trigger] pair_rows(cols, m)[i] == pair_rows(cols, r)[i],
    decreases m,
{
    if m > r {
        lemma_pair_rows_prefix(cols, r, (m - 1) as nat);
        assert(pair_rows(cols, m) == pair_rows(cols, (m - 1) as nat) + pair_row(cols, m - 1));
    }
}

/// Law: with at least two (distinct, ascending) active columns every active column occurs in
/// a pair, and an effect sum is divided by one less than the number of active columns; with
/// fewer there are no pairs and the divisor is one.
pub proof fn law_partner_divisor(cols: Seq<usize>)
    requires
        forall|i: int, j: int| 0 <= i < j < cols.len() ==> cols[i] < cols[j],
    ensures
        cols.len() >= 2 ==> pair_column_set(all_pairs(cols)) == cols.to_set(),
        cols.len() >= 2 ==> partner_divisor(all_pairs(cols)) == cols.len() - 1,
        cols.len() < 2 ==> all_pairs(cols).len() == 0 && partner_divisor(all_pairs(cols)) == 1,
{
    let len = cols.len();
    let ps = all_pairs(cols);
    lemma_pairs_in_cols(cols, len);
    if len >= 2 {
        assert forall|v: usize| pair_column_set(ps).contains(v) <==> cols.to_set().contains(v) by {
            if pair_column_set(ps).contains(v) {
                let i = choose|i: int| 0 <= i < ps.len() && (ps[i].0 == v || ps[i].1 == v);
                assert(cols.contains(ps[i].0) && cols.contains(ps[i].1));
            }
            if cols.to_set().contains(v) {
                let q = choose|q: int| 0 <= q < len && cols[q] == v;
                if q < len - 1 {
                    lemma_pair_rows_prefix(cols, (q + 1) as nat, len);
                    let pre = pair_rows(cols, q as nat);
                    assert(pair_rows(cols, (q + 1) as nat) == pre + pair_row(cols, q));
                    assert(pair_row(cols, q)[0] == (cols[q], cols[q + 1]));
                    assert(pair_rows(cols, (q + 1) as nat)[pre.len() as int] == (cols[q], cols[q + 1]));
                    assert(ps[pre.len() as int] == (cols[q], cols[q + 1]));
                } else {
                    lemma_pair_rows_prefix(cols, 1, len);
                    assert(pair_rows(cols, 1) == pair_rows(cols, 0) + pair_row(cols, 0));
                    assert(pair_rows(cols, 0).len() == 0);
                    assert(pair_row(cols, 0)[q - 1] == (cols[0], cols[q]));
                    assert(pair_rows(cols, 1)[q - 1] == (cols[0], cols[q]));
                    assert(ps[q - 1] == (cols[0], cols[q]));
                }
            }
        }
        assert(pair_column_set(ps) =~= cols.to_set());
        assert(cols.no_duplicates()) by {
            assert forall|i: int, j: int| 0 <= i < len && 0 <= j < len && i != j implies cols[i] != cols[j] by {
                if i < j {
                    assert(cols[i] < cols[j]);
                } else {
                    assert(cols[j] < cols[i]);
                }
            }
        }
        cols.unique_seq_to_set();
    } else {
        assert(ps.len() == 0) by {
            if len == 1 {
                assert(pair_rows(cols, 1) == pair_rows(cols, 0) + pair_row(cols, 0));
            }
        }
        assert(pair_column_set(ps) =~= Set::<usize>::empty());
    }
}

}
