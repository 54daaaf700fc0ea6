//! The streaming preprocessor: counts values chunk by chunk, then fixes the bins.

use crate::counts::{
    count_in, count_map, counts_from_items, distinct_keys, other_than, pair_counts, pair_keys,
    KeyCounts,
};
use crate::preprocess::{
    accounted_len, bits_occurrences, law_accounted_bins_bounds, lemma_sort_desc_len, clean_texts, item_views, key_texts, lemma_sort_desc_distinct,
    merge_uniques_categorical, merge_uniques_numerical, replace_nan_texts, return_accounted_bins,
    sort_desc, sort_keys, sorted_keys, str_texts, text_occurrences, BinDepth, BinType,
    ColumnPreprocess, KeyView, ValueKey,
};
use crate::preprocess::{categorical_label, map_categorical_bins};
use crate::table::{active_prefix, clone_strings, texts, ChunkTable, ColGraph, ColumnVec, ColumnView, NamedColumns};
use crate::numeric::{bin_bounds, bin_label, map_numerical_bins, numerical_bounds};
use crate::order::{bits_are_nan, nan_bits};
use crate::text::{decimal, decimal_text};
use std::collections::HashSet;
use vstd::prelude::*;
use vstd::string::StringExecFns;

verus! {

proof fn lemma_text_occurrences_bound(arr: Seq<Seq<char>>, k: KeyView)
    ensures
        text_occurrences(arr, k) <= arr.len(),
    decreases arr.len(),
{
    if arr.len() > 0 {
        lemma_text_occurrences_bound(arr.drop_last(), k);
    }
}

proof fn lemma_bits_occurrences_bound(arr: Seq<u32>, k: KeyView)
    ensures
        bits_occurrences(arr, k) <= arr.len(),
    decreases arr.len(),
{
    if arr.len() > 0 {
        lemma_bits_occurrences_bound(arr.drop_last(), k);
    }
}

/// How many values of a column count as the key `k` (text values that read `nan` count as
/// `empty`).
pub open spec fn column_occurrences(col: ColumnView, k: KeyView) -> nat {
    match col {
        ColumnView::F32Bits(b) => bits_occurrences(b, k),
        ColumnView::Utf8(t) => text_occurrences(clean_texts(t), k),
    }
}

/// The bin type a first chunk gives a column.
pub open spec fn bin_type_of(col: ColumnView) -> BinType {
    match col {
        ColumnView::F32Bits(_) => BinType::Numerical,
        ColumnView::Utf8(_) => BinType::Categorical,
    }
}

/// A column's values fit its bin type: numbers for a numerical column, text for a categorical one.
pub open spec fn kind_fits(t: BinType, col: ColumnView) -> bool {
    bin_type_of(col) == t
}

/// The message for a numerical column that arrives as text.
pub open spec fn expected_numeric_text() -> Seq<char> {
    "expected numeric column"@
}

/// The message for a categorical column that arrives as numbers.
pub open spec fn expected_text_text() -> Seq<char> {
    "expected text column"@
}

/// The message for an active column index missing from a chunk.
pub open spec fn missing_index_text(col: nat) -> Seq<char> {
    "missing column index "@ + decimal_text(col)
}

/// The message for a chunk given after the bins were fixed.
pub open spec fn after_finish_text() -> Seq<char> {
    "preprocess called after finish_map"@
}

/// The message for labelling before the bins are fixed.
pub open spec fn before_finish_text() -> Seq<char> {
    "finish_map must be called before use_map"@
}

/// The message for a column whose values do not fit its bin type.
pub open spec fn kind_mismatch_text(t: BinType) -> Seq<char> {
    match t {
        BinType::Numerical => expected_numeric_text(),
        BinType::Categorical => expected_text_text(),
    }
}

/// Streaming preprocessor for the active columns of a column graph.
#[derive(Debug)]
pub struct PreprocessStream {
    num_chunks: u64,
    col_graph: ColGraph,
    cols: Vec<usize>,
    preprocess_map: Vec<ColumnPreprocess>,
    finished: bool,
    rows_seen: u64,
}

impl Clone for PreprocessStream {
    /// The same counts, bins and state.
    fn clone(&self) -> (r: Self)
        ensures
            r.spec_num_chunks() == self.spec_num_chunks(),
            r.spec_cols() == self.spec_cols(),
            texts(r.spec_col_graph().names@) == texts(self.spec_col_graph().names@),
            r.spec_col_graph().dropped@ == self.spec_col_graph().dropped@,
            r.spec_finished() == self.spec_finished(),
            r.spec_rows_seen() == self.spec_rows_seen(),
            r.spec_map().len() == self.spec_map().len(),
            forall|i: int| 0 <= i < self.spec_map().len() ==> (#[trigger] r.spec_map()[i]).bin_type == self.spec_map()[i].bin_type
                && r.spec_map()[i].values@ == self.spec_map()[i].values@
                && r.spec_map()[i].bins@ == self.spec_map()[i].bins@
                && texts(r.spec_map()[i].bin_labels@) == texts(self.spec_map()[i].bin_labels@),
    {
        proof {
            use_type_invariant(self);
        }
        let mut map: Vec<ColumnPreprocess> = Vec::new();
        let mut i: usize = 0;
        while i < self.preprocess_map.len()
            invariant
                i <= self.preprocess_map@.len(),
                map@.len() == i,
                forall|j: int| 0 <= j < i ==> (#[trigger] map@[j]).bin_type == self.preprocess_map@[j].bin_type
                    && map@[j].values@ == self.preprocess_map@[j].values@
                    && map@[j].bins@ == self.preprocess_map@[j].bins@
                    && texts(map@[j].bin_labels@) == texts(self.preprocess_map@[j].bin_labels@),
            decreases self.preprocess_map.len() - i,
        {
            map.push(self.preprocess_map[i].clone());
            i = i + 1;
        }
        let col_graph = self.col_graph.clone();
        let cols = self.cols.clone();
        assert(cols@ =~= self.cols@);
        assert(texts(col_graph.names@).len() == col_graph.names@.len());
        assert(texts(self.col_graph.names@).len() == self.col_graph.names@.len());
        PreprocessStream {
            num_chunks: self.num_chunks,
            col_graph,
            cols,
            preprocess_map: map,
            finished: self.finished,
            rows_seen: self.rows_seen,
        }
    }
}

impl PreprocessStream {
    #[verifier::type_invariant]
    spec fn consistent(self) -> bool {
        &&& self.cols@ == self.col_graph.spec_active()
        &&& self.num_chunks == 0 ==> self.preprocess_map@.len() == 0
        &&& self.num_chunks > 0 ==> self.preprocess_map@.len() == self.cols@.len()
        &&& forall|i: int, k: KeyView|
            0 <= i < self.preprocess_map@.len() ==> #[trigger] count_in(self.preprocess_map@[i].values@, k)
                <= self.rows_seen
    }

    /// Chunks counted so far.
    pub closed spec fn spec_num_chunks(&self) -> nat {
        self.num_chunks as nat
    }

    /// The active column indices.
    pub closed spec fn spec_cols(&self) -> Seq<usize> {
        self.cols@
    }

    /// The column graph given at creation.
    pub closed spec fn spec_col_graph(&self) -> ColGraph {
        self.col_graph
    }

    /// Per-column state, aligned with `spec_cols` once a chunk has been counted.
    pub closed spec fn spec_map(&self) -> Seq<ColumnPreprocess> {
        self.preprocess_map@
    }

    /// Whether the bins have been fixed.
    pub closed spec fn spec_finished(&self) -> bool {
        self.finished
    }

    /// Rows counted so far, over all chunks.
    pub closed spec fn spec_rows_seen(&self) -> nat {
        self.rows_seen as nat
    }

    /// A stream for the active columns of `col_graph`, with nothing counted.
    pub fn new(col_graph: ColGraph) -> (r: Self)
        ensures
            r.spec_cols() == col_graph.spec_active(),
            r.spec_col_graph() == col_graph,
            r.spec_num_chunks() == 0,
            r.spec_map().len() == 0,
            !r.spec_finished(),
            r.spec_rows_seen() == 0,
    {
        let cols = col_graph.active_indices();
        PreprocessStream {
            num_chunks: 0,
            col_graph,
            cols,
            preprocess_map: Vec::new(),
            finished: false,
            rows_seen: 0,
        }
    }

    /// Chunks counted so far.
    pub fn num_chunks(&self) -> (r: u64)
        ensures
            r == self.spec_num_chunks(),
    {
        self.num_chunks
    }

    /// The column graph given at creation.
    pub fn col_graph(&self) -> (r: &ColGraph)
        ensures
            *r == self.spec_col_graph(),
    {
        &self.col_graph
    }

    /// The active column indices.
    pub fn cols(&self) -> (r: &Vec<usize>)
        ensures
            r@ == self.spec_cols(),
    {
        &self.cols
    }

    /// Per-column state, by active position.
    pub fn preprocess_map(&self) -> (r: &Vec<ColumnPreprocess>)
        ensures
            r@ == self.spec_map(),
    {
        &self.preprocess_map
    }

    /// Whether the bins have been fixed.
    pub fn is_finished(&self) -> (r: bool)
        ensures
            r == self.spec_finished(),
    {
        self.finished
    }

    /// Rows counted so far, over all chunks.
    pub fn rows_seen(&self) -> (r: u64)
        ensures
            r == self.spec_rows_seen(),
    {
        self.rows_seen
    }

    /// What is wrong, if anything, with the chunk's column for active position `i`.
    pub open spec fn problem_at(&self, chunk: &ChunkTable, i: int) -> Option<Seq<char>> {
        let col = self.spec_cols()[i];
        if col >= chunk.cols@.len() {
            Some(missing_index_text(col as nat))
        } else if self.spec_num_chunks() > 0 && !kind_fits(self.spec_map()[i].bin_type, chunk.cols@[col as int]@) {
            Some(kind_mismatch_text(self.spec_map()[i].bin_type))
        } else {
            None
        }
    }

    /// Position `i` is the first active position with a problem.
    pub open spec fn first_problem_at(&self, chunk: &ChunkTable, i: int) -> bool {
        &&& 0 <= i < self.spec_cols().len()
        &&& self.problem_at(chunk, i) is Some
        &&& forall|j: int| 0 <= j < i ==> self.problem_at(chunk, j) is None
    }

    /// Every active position is free of problems.
    pub open spec fn columns_fit(&self, chunk: &ChunkTable) -> bool {
        forall|i: int| 0 <= i < self.spec_cols().len() ==> self.problem_at(chunk, i) is None
    }

    /// What `preprocess` reports for `chunk`, or `None` when it counts it.
    pub open spec fn preprocess_error(&self, chunk: &ChunkTable) -> Option<Seq<char>> {
        if self.spec_finished() {
            Some(after_finish_text())
        } else if chunk.validation() is Some {
            chunk.validation()
        } else if !self.columns_fit(chunk) {
            self.problem_at(chunk, choose|i: int| self.first_problem_at(chunk, i))
        } else {
            None
        }
    }

    fn problem_message(&self, chunk: &ChunkTable, i: usize) -> (r: Option<String>)
        requires
            i < self.spec_cols().len(),
        ensures
            match r {
                Some(m) => self.problem_at(chunk, i as int) == Some(m@),
                None => self.problem_at(chunk, i as int) is None,
            },
    {
        proof {
            use_type_invariant(self);
        }
        let col = self.cols[i];
        if col >= chunk.cols.len() {
            let mut m = String::from_str("missing column index ");
            m.append(decimal(col).as_str());
            return Some(m);
        }
        if self.num_chunks > 0 {
            let t = self.preprocess_map[i].bin_type;
            let numeric = chunk.cols[col].is_numeric();
            match t {
                BinType::Numerical => {
                    if !numeric {
                        return Some(String::from_str("expected numeric column"));
                    }
                },
                BinType::Categorical => {
                    if numeric {
                        return Some(String::from_str("expected text column"));
                    }
                },
            }
        }
        None
    }

    fn first_problem(&self, chunk: &ChunkTable) -> (r: Option<String>)
        ensures
            match r {
                Some(m) => !self.columns_fit(chunk) && self.problem_at(
                    chunk,
                    choose|i: int| self.first_problem_at(chunk, i),
                ) == Some(m@),
                None => self.columns_fit(chunk),
            },
    {
        proof {
            use_type_invariant(self);
        }
        let mut i: usize = 0;
        while i < self.cols.len()
            invariant
                i <= self.spec_cols().len(),
                self.cols@ == self.spec_cols(),
                forall|j: int| 0 <= j < i ==> self.problem_at(chunk, j) is None,
            decreases self.cols.len() - i,
        {
            match self.problem_message(chunk, i) {
                Some(m) => {
                    proof {
                        assert(self.first_problem_at(chunk, i as int));
                        let c = choose|c: int| self.first_problem_at(chunk, c);
                        if c < i {
                        } else if c > i {
                            assert(self.problem_at(chunk, i as int) is None);
                        }
                    }
                    return Some(m);
                },
                None => {},
            }
            i = i + 1;
        }
        None
    }
}


/// Counts the values of `col` into `cp`.
fn absorb_column(cp: &mut ColumnPreprocess, col: &ColumnVec, bound: u64)
    requires
        kind_fits(old(cp).bin_type, col@),
        forall|k: KeyView| count_in(old(cp).values@, k) <= bound,
        bound + col@.len() <= u64::MAX,
    ensures
        final(cp).bin_type == old(cp).bin_type,
        final(cp).bins == old(cp).bins,
        final(cp).bin_labels == old(cp).bin_labels,
        forall|k: KeyView|
            count_in(final(cp).values@, k) == count_in(old(cp).values@, k) + column_occurrences(col@, k),
        forall|k: KeyView| count_in(final(cp).values@, k) <= bound + col@.len(),
{
    match col {
        ColumnVec::F32Bits(b) => {
            proof {
                assert forall|k: KeyView| count_in(cp.values@, k) + b@.len() <= u64::MAX by {}
            }
            merge_uniques_numerical(&mut cp.values, b);
            proof {
                assert forall|k: KeyView| count_in(cp.values@, k) <= bound + col@.len() by {
                    lemma_bits_occurrences_bound(b@, k);
                }
            }
        },
        ColumnVec::Utf8(t) => {
            let c = replace_nan_texts(t);
            proof {
                assert(texts(c@).len() == t@.len());
                assert forall|k: KeyView| count_in(cp.values@, k) + c@.len() <= u64::MAX by {}
            }
            merge_uniques_categorical(&mut cp.values, &c);
            proof {
                assert forall|k: KeyView| count_in(cp.values@, k) <= bound + col@.len() by {
                    lemma_text_occurrences_bound(texts(c@), k);
                }
            }
        },
    }
}

impl PreprocessStream {
    /// `after` is this stream with `chunk` counted: one more chunk and its rows; on the first
    /// chunk each active column gets the bin type of its values and their counts, on a later
    /// chunk the counts of its values are added.
    pub open spec fn counted_after(self, chunk: ChunkTable, after: PreprocessStream) -> bool {
        &&& after.spec_num_chunks() == self.spec_num_chunks() + 1
        &&& after.spec_rows_seen() == self.spec_rows_seen() + chunk.spec_nrows()
        &&& after.spec_cols() == self.spec_cols()
        &&& after.spec_col_graph() == self.spec_col_graph()
        &&& !after.spec_finished()
        &&& after.spec_map().len() == self.spec_cols().len()
        &&& forall|i: int| #![trigger after.spec_map()[i]]
            0 <= i < self.spec_cols().len() ==> {
                let col = chunk.cols@[self.spec_cols()[i] as int]@;
                let cp = after.spec_map()[i];
                if self.spec_num_chunks() == 0 {
                    &&& cp.bin_type == bin_type_of(col)
                    &&& cp.bins@ == Map::<KeyView, u64>::empty()
                    &&& cp.bin_labels@.len() == 0
                    &&& forall|k: KeyView| count_in(cp.values@, k) == column_occurrences(col, k)
                } else {
                    let before = self.spec_map()[i];
                    &&& cp.bin_type == before.bin_type
                    &&& cp.bins == before.bins
                    &&& cp.bin_labels == before.bin_labels
                    &&& forall|k: KeyView|
                        count_in(cp.values@, k) == count_in(before.values@, k) + column_occurrences(col, k)
                }
            }
    }
}

impl PreprocessStream {
    /// Counts one chunk. The first chunk fixes each active column's bin type from its values
    /// (numbers: numerical; text: categorical). Numeric columns are expected already rounded to
    /// the precision at which values are counted.
    pub fn preprocess(&mut self, chunk: &ChunkTable) -> (r: Result<(), String>)
        requires
            old(self).spec_rows_seen() + chunk.spec_nrows() <= u64::MAX,
            old(self).spec_num_chunks() < u64::MAX,
        ensures
            match old(self).preprocess_error(chunk) {
                Some(m) => r matches Err(e) && e@ == m && *final(self) == *old(self),
                None => r is Ok,
            },
            r is Ok ==> old(self).counted_after(*chunk, *final(self)),
    {
        proof {
            use_type_invariant(&*self);
        }
        if self.finished {
            return Err(String::from_str("preprocess called after finish_map"));
        }
        match chunk.validate() {
            Err(e) => return Err(e),
            Ok(()) => {},
        }
        match self.first_problem(chunk) {
            Some(m) => return Err(m),
            None => {},
        }
        let n = chunk.nrows();
        let mut taken = PreprocessStream {
            num_chunks: 0,
            col_graph: ColGraph { names: Vec::new(), dropped: HashSet::new() },
            cols: Vec::new(),
            preprocess_map: Vec::new(),
            finished: false,
            rows_seen: 0,
        };
        std::mem::swap(&mut taken, self);
        let PreprocessStream { num_chunks, col_graph, cols, preprocess_map, finished, rows_seen } = taken;
        let ghost old_map = preprocess_map@;
        let mut rest = preprocess_map;
        let mut map: Vec<ColumnPreprocess> = Vec::new();
        let mut i: usize = 0;
        while i < cols.len()
            invariant
                i <= cols@.len(),
                cols@ == old(self).spec_cols(),
                num_chunks == old(self).spec_num_chunks(),
                rows_seen == old(self).spec_rows_seen(),
                num_chunks < u64::MAX,
                n == chunk.spec_nrows(),
                rows_seen + n <= u64::MAX,
                chunk.is_rectangular(),
                old(self).columns_fit(chunk),
                old_map == old(self).spec_map(),
                num_chunks == 0 ==> old_map.len() == 0,
                num_chunks > 0 ==> old_map.len() == cols@.len(),
                forall|j: int, k: KeyView| 0 <= j < old_map.len() ==> #[trigger] count_in(old_map[j].values@, k) <= rows_seen,
                num_chunks > 0 ==> rest@ == old_map.skip(i as int),
                map@.len() == i,
                forall|j: int, k: KeyView| 0 <= j < i ==> #[trigger] count_in(map@[j].values@, k) <= rows_seen + n,
                forall|j: int| #![trigger map@[j]]
                    0 <= j < i ==> {
                        let col = chunk.cols@[cols@[j] as int]@;
                        let cp = map@[j];
                        if num_chunks == 0 {
                            &&& cp.bin_type == bin_type_of(col)
                            &&& cp.bins@ == Map::<KeyView, u64>::empty()
                            &&& cp.bin_labels@.len() == 0
                            &&& forall|k: KeyView| count_in(cp.values@, k) == column_occurrences(col, k)
                        } else {
                            let before = old_map[j];
                            &&& cp.bin_type == before.bin_type
                            &&& cp.bins == before.bins
                            &&& cp.bin_labels == before.bin_labels
                            &&& forall|k: KeyView|
                                count_in(cp.values@, k) == count_in(before.values@, k) + column_occurrences(col, k)
                        }
                    },
            decreases cols.len() - i,
        {
            proof {
                assert(old(self).problem_at(chunk, i as int) is None);
            }
            let col = &chunk.cols[cols[i]];
            if num_chunks == 0 {
                let mut cp = if col.is_numeric() {
                    ColumnPreprocess::new_numerical()
                } else {
                    ColumnPreprocess::new_categorical()
                };
                proof {
                    assert(chunk.cols@[cols@[i as int] as int]@.len() == n);
                }
                absorb_column(&mut cp, col, 0);
                map.push(cp);
            } else {
                let mut cp = rest.remove(0);
                proof {
                    assert(cp == old_map[i as int]);
                    assert(rest@ =~= old_map.skip(i + 1));
                    assert(chunk.cols@[cols@[i as int] as int]@.len() == n);
                    assert forall|k: KeyView| count_in(cp.values@, k) <= rows_seen by {
                        assert(count_in(old_map[i as int].values@, k) <= rows_seen);
                    }
                }
                absorb_column(&mut cp, col, rows_seen);
                map.push(cp);
            }
            i = i + 1;
        }
        *self = PreprocessStream {
            num_chunks: num_chunks + 1,
            col_graph,
            cols,
            preprocess_map: map,
            finished,
            rows_seen: rows_seen + (n as u64),
        };
        Ok(())
    }
}


/// The key of the text value `nan`, which is never kept as a bin.
pub open spec fn nan_key() -> KeyView {
    KeyView::Str("nan"@)
}

/// The bins kept from counted items for depth `depth`.
pub open spec fn selected_bins(items: Seq<(KeyView, u64)>, depth: nat) -> Seq<(KeyView, u64)> {
    sort_desc(items).take(accounted_len(sort_desc(items), depth) as int)
}

/// Fixes the bins of one column for depth `depth`.
fn fix_bins(cp: &mut ColumnPreprocess, depth: usize)
    ensures
        final(cp).bin_type == old(cp).bin_type,
        final(cp).values@ == old(cp).values@.remove(nan_key()),
        final(cp).values.key_views() == old(cp).values.key_views().filter(other_than(nan_key())),
        final(cp).bins.key_views() == pair_keys(selected_bins(final(cp).values.items(), depth as nat)),
        final(cp).bins.count_seq() == pair_counts(selected_bins(final(cp).values.items(), depth as nat)),
        final(cp).bins@ == count_map(final(cp).bins.key_views(), final(cp).bins.count_seq()),
        final(cp).bin_type == BinType::Categorical ==> texts(final(cp).bin_labels@) == str_texts(
            sort_keys(final(cp).bins.key_views()),
        ),
        final(cp).bin_type == BinType::Numerical ==> final(cp).bin_labels@.len() == 0,
{
    let nan = ValueKey::Str(String::from_str("nan"));
    cp.values.remove(&nan);
    let items = cp.values.entries();
    let ghost iv = cp.values.items();
    assert(item_views(items@) =~= iv);
    let sel = return_accounted_bins(&items, depth);
    proof {
        assert(pair_keys(iv) =~= cp.values.key_views());
        lemma_sort_desc_distinct(iv);
        let sorted = sort_desc(iv);
        let l = accounted_len(sorted, depth as nat);
        lemma_sort_desc_len(iv);
        law_accounted_bins_bounds(iv, depth as nat);
        assert(item_views(sel@) == sorted.take(l as int));
        assert(sorted.len() == iv.len());
        assert(l <= sorted.len());
        assert(sel@.len() == item_views(sel@).len());
        assert(sel@.len() == l);
        assert forall|i: int| 0 <= i < sel@.len() implies sel@[i].0@ == #[trigger] pair_keys(sorted)[i] by {
            assert(item_views(sel@)[i] == sorted[i]);
        }
        assert(sel@.map_values(|e: (ValueKey, u64)| e.0@) =~= pair_keys(item_views(sel@)));
        assert(distinct_keys(sel@.map_values(|e: (ValueKey, u64)| e.0@))) by {
            assert forall|i: int, j: int| 0 <= i < j < sel@.len() implies sel@[i].0@ != sel@[j].0@ by {
                assert(pair_keys(sorted)[i] != pair_keys(sorted)[j]);
            }
        }
        assert(sel@.map_values(|e: (ValueKey, u64)| e.1) =~= pair_counts(item_views(sel@)));
    }
    let bins = counts_from_items(&sel);
    let mut keys: Vec<ValueKey> = Vec::new();
    let mut i: usize = 0;
    while i < sel.len()
        invariant
            i <= sel.len(),
            keys@.map_values(|k: ValueKey| k@) == sel@.take(i as int).map_values(|e: (ValueKey, u64)| e.0@),
        decreases sel.len() - i,
    {
        let k = sel[i].0.clone();
        let ghost before = keys@;
        keys.push(k);
        assert(keys@ == before.push(k));
        assert(k@ == sel@[i as int].0@);
        assert(keys@.map_values(|k: ValueKey| k@) =~= before.map_values(|k: ValueKey| k@).push(k@));
        assert(sel@.take(i + 1) =~= sel@.take(i as int).push(sel@[i as int]));
        assert(keys@.map_values(|k: ValueKey| k@) =~= sel@.take(i + 1).map_values(|e: (ValueKey, u64)| e.0@));
        i = i + 1;
    }
    assert(sel@.take(sel.len() as int) =~= sel@);
    let sorted = sorted_keys(&keys);
    let labels = match cp.bin_type {
        BinType::Categorical => key_texts(&sorted),
        BinType::Numerical => Vec::new(),
    };
    cp.bins = bins;
    cp.bin_labels = labels;
}

impl PreprocessStream {
    /// Fixes the bins of every active column: the value `nan` is dropped from the counts, the
    /// most frequent values (per `depth`) become the bins, and a categorical column's labels are
    /// its bin values in key order. Later chunks are refused.
    pub fn finish_map(&mut self, depth: &BinDepth) -> (r: Result<(), String>)
        ensures
            r is Ok,
            final(self).spec_finished(),
            final(self).spec_num_chunks() == old(self).spec_num_chunks(),
            final(self).spec_rows_seen() == old(self).spec_rows_seen(),
            final(self).spec_cols() == old(self).spec_cols(),
            final(self).spec_col_graph() == old(self).spec_col_graph(),
            final(self).spec_map().len() == old(self).spec_map().len(),
            forall|i: int| #![trigger final(self).spec_map()[i]]
                0 <= i < old(self).spec_map().len() ==> {
                    let before = old(self).spec_map()[i];
                    let cp = final(self).spec_map()[i];
                    let d = depth.spec_depth_for(old(self).spec_cols()[i]);
                    &&& cp.bin_type == before.bin_type
                    &&& cp.values@ == before.values@.remove(nan_key())
                    &&& cp.values.key_views() == before.values.key_views().filter(other_than(nan_key()))
                    &&& cp.bins.key_views() == pair_keys(selected_bins(cp.values.items(), d as nat))
                    &&& cp.bins.count_seq() == pair_counts(selected_bins(cp.values.items(), d as nat))
                    &&& cp.bins@ == count_map(cp.bins.key_views(), cp.bins.count_seq())
                    &&& cp.bin_type == BinType::Categorical ==> texts(cp.bin_labels@) == str_texts(
                        sort_keys(cp.bins.key_views()),
                    )
                    &&& cp.bin_type == BinType::Numerical ==> cp.bin_labels@.len() == 0
                },
    {
        proof {
            use_type_invariant(&*self);
        }
        let mut taken = PreprocessStream {
            num_chunks: 0,
            col_graph: ColGraph { names: Vec::new(), dropped: HashSet::new() },
            cols: Vec::new(),
            preprocess_map: Vec::new(),
            finished: false,
            rows_seen: 0,
        };
        std::mem::swap(&mut taken, self);
        let PreprocessStream { num_chunks, col_graph, cols, preprocess_map, finished, rows_seen } = taken;
        let ghost old_map = preprocess_map@;
        let mut rest = preprocess_map;
        let mut map: Vec<ColumnPreprocess> = Vec::new();
        let total = rest.len();
        let mut i: usize = 0;
        while i < total
            invariant
                i <= total,
                total == old_map.len(),
                cols@ == old(self).spec_cols(),
                old_map == old(self).spec_map(),
                num_chunks == old(self).spec_num_chunks(),
                num_chunks == 0 ==> old_map.len() == 0,
                num_chunks > 0 ==> old_map.len() == cols@.len(),
                forall|j: int, k: KeyView| 0 <= j < old_map.len() ==> #[trigger] count_in(old_map[j].values@, k) <= rows_seen,
                rest@ == old_map.skip(i as int),
                map@.len() == i,
                forall|j: int, k: KeyView| 0 <= j < i ==> #[trigger] count_in(map@[j].values@, k) <= rows_seen,
                forall|j: int| #![trigger map@[j]]
                    0 <= j < i ==> {
                        let before = old_map[j];
                        let cp = map@[j];
                        let d = depth.spec_depth_for(cols@[j]);
                        &&& cp.bin_type == before.bin_type
                        &&& cp.values@ == before.values@.remove(nan_key())
                        &&& cp.values.key_views() == before.values.key_views().filter(other_than(nan_key()))
                        &&& cp.bins.key_views() == pair_keys(selected_bins(cp.values.items(), d as nat))
                        &&& cp.bins.count_seq() == pair_counts(selected_bins(cp.values.items(), d as nat))
                        &&& cp.bins@ == count_map(cp.bins.key_views(), cp.bins.count_seq())
                        &&& cp.bin_type == BinType::Categorical ==> texts(cp.bin_labels@) == str_texts(
                            sort_keys(cp.bins.key_views()),
                        )
                        &&& cp.bin_type == BinType::Numerical ==> cp.bin_labels@.len() == 0
                    },
            decreases total - i,
        {
            let mut cp = rest.remove(0);
            proof {
                assert(cp == old_map[i as int]);
                assert(rest@ =~= old_map.skip(i + 1));
            }
            let d = depth.depth_for(cols[i]);
            fix_bins(&mut cp, d);
            proof {
                assert forall|k: KeyView| count_in(cp.values@, k) <= rows_seen by {
                    assert(count_in(old_map[i as int].values@, k) <= rows_seen);
                }
            }
            map.push(cp);
            i = i + 1;
        }
        *self = PreprocessStream { num_chunks, col_graph, cols, preprocess_map: map, finished: true, rows_seen };
        Ok(())
    }
}


/// Position of column index `c` among the active columns, if active.
pub open spec fn active_position(cols: Seq<usize>, c: int) -> Option<int> {
    if exists|i: int| 0 <= i < cols.len() && cols[i] == c {
        Some(choose|i: int| 0 <= i < cols.len() && cols[i] == c)
    } else {
        None
    }
}

/// The label column of a categorical column.
pub open spec fn categorical_column(values: Map<KeyView, u64>, t: Seq<Seq<char>>) -> ColumnView {
    ColumnView::Utf8(clean_texts(t).map_values(|v: Seq<char>| categorical_label(values, v)))
}

/// What labelling a numerical column needs from the float layer: the least and greatest value
/// counted (as bit patterns) and the label of each bin, one per pair of consecutive bounds.
pub struct NumericBinning {
    pub min_bits: u32,
    pub max_bits: u32,
    pub labels: Vec<String>,
}

/// The views of the binnings, by active position.
pub open spec fn binning_views(b: Seq<NumericBinning>) -> Seq<(u32, u32, Seq<Seq<char>>)> {
    b.map_values(|x: NumericBinning| (x.min_bits, x.max_bits, texts(x.labels@)))
}

/// The value a numerical cell is binned by: NaN reads as `0.0`.
pub open spec fn nan_as_zero(x: u32) -> u32 {
    if bits_are_nan(x) {
        0
    } else {
        x
    }
}

/// The label column of a numerical column whose kept values are `keys`.
pub open spec fn numerical_column(keys: Seq<KeyView>, b: (u32, u32, Seq<Seq<char>>), v: Seq<u32>) -> ColumnView {
    ColumnView::Utf8(v.map_values(|x: u32| bin_label(bin_bounds(keys, b.0, b.1), b.2, nan_as_zero(x))))
}

impl PreprocessStream {
    /// One binning per active position, and for each numerical column with bins one label per
    /// bin.
    pub open spec fn binning_fits(&self, numeric: Seq<(u32, u32, Seq<Seq<char>>)>) -> bool {
        &&& numeric.len() == self.spec_cols().len()
        &&& forall|p: int| #![trigger self.spec_map()[p]]
            0 <= p < self.spec_map().len() && self.spec_map()[p].bin_type == BinType::Numerical
                && bin_bounds(self.spec_map()[p].bins.key_views(), numeric[p].0, numeric[p].1).len() >= 2
                ==> numeric[p].2.len() == bin_bounds(self.spec_map()[p].bins.key_views(), numeric[p].0, numeric[p].1).len() - 1
    }
}

/// The kept values of a column, in order.
fn bin_keys(bins: &KeyCounts) -> (r: Vec<ValueKey>)
    ensures
        r@.map_values(|k: ValueKey| k@) == bins.key_views(),
{
    let e = bins.entries();
    let mut r: Vec<ValueKey> = Vec::new();
    let mut i: usize = 0;
    while i < e.len()
        invariant
            i <= e@.len(),
            e@.map_values(|x: (ValueKey, u64)| x.0@) == bins.key_views(),
            r@.map_values(|k: ValueKey| k@) == e@.take(i as int).map_values(|x: (ValueKey, u64)| x.0@),
        decreases e.len() - i,
    {
        let ghost before = r@;
        let k = e[i].0.clone();
        r.push(k);
        proof {
            assert(r@.map_values(|k: ValueKey| k@) =~= before.map_values(|k: ValueKey| k@).push(e@[i as int].0@));
            assert(e@.take(i + 1).map_values(|x: (ValueKey, u64)| x.0@) =~= e@.take(i as int).map_values(|x: (ValueKey, u64)| x.0@).push(e@[i as int].0@));
        }
        i = i + 1;
    }
    assert(e@.take(e@.len() as int) =~= e@);
    r
}

/// The values with NaN read as `0.0`.
fn nan_zeroed(v: &Vec<u32>) -> (r: Vec<u32>)
    ensures
        r@ == v@.map_values(|x: u32| nan_as_zero(x)),
{
    let mut r: Vec<u32> = Vec::new();
    let mut i: usize = 0;
    while i < v.len()
        invariant
            i <= v@.len(),
            r@ == v@.take(i as int).map_values(|x: u32| nan_as_zero(x)),
        decreases v.len() - i,
    {
        let x = v[i];
        r.push(if nan_bits(x) { 0 } else { x });
        assert(r@ =~= v@.take(i + 1).map_values(|x: u32| nan_as_zero(x)));
        i = i + 1;
    }
    assert(v@.take(v@.len() as int) =~= v@);
    r
}

impl PreprocessStream {
    /// The output column for chunk column `c`, or the error it raises.
    pub open spec fn mapped_column(
        &self,
        chunk: &ChunkTable,
        labels: Seq<(u32, u32, Seq<Seq<char>>)>,
        c: int,
    ) -> Result<ColumnView, Seq<char>> {
        let col = chunk.cols@[c]@;
        match active_position(self.spec_cols(), c) {
            Some(i) if i < self.spec_map().len() => {
                let cp = self.spec_map()[i];
                match (cp.bin_type, col) {
                    (BinType::Numerical, ColumnView::F32Bits(v)) => Ok(numerical_column(cp.bins.key_views(), labels[i], v)),
                    (BinType::Categorical, ColumnView::Utf8(t)) => Ok(categorical_column(cp.values@, t)),
                    _ => Err(kind_mismatch_text(cp.bin_type)),
                }
            },
            _ => Ok(col),
        }
    }

    /// The named output columns for chunk columns `0..k`.
    pub open spec fn mapped_prefix(
        &self,
        chunk: &ChunkTable,
        labels: Seq<(u32, u32, Seq<Seq<char>>)>,
        k: nat,
    ) -> Map<Seq<char>, ColumnView>
        decreases k,
    {
        if k == 0 {
            Map::empty()
        } else {
            let c = (k - 1) as int;
            let m = self.mapped_prefix(chunk, labels, (k - 1) as nat);
            match self.mapped_column(chunk, labels, c) {
                Ok(v) => m.insert(chunk.names@[c]@, v),
                Err(_) => m,
            }
        }
    }

    /// Chunk column `c` is the first one whose mapping fails.
    pub open spec fn first_failure_at(&self, chunk: &ChunkTable, labels: Seq<(u32, u32, Seq<Seq<char>>)>, c: int) -> bool {
        &&& 0 <= c < chunk.names@.len()
        &&& self.mapped_column(chunk, labels, c) is Err
        &&& forall|j: int| 0 <= j < c ==> self.mapped_column(chunk, labels, j) is Ok
    }

    fn map_column(&self, chunk: &ChunkTable, numeric: &Vec<NumericBinning>, c: usize) -> (r: Result<ColumnVec, String>)
        requires
            c < chunk.cols@.len(),
            self.binning_fits(binning_views(numeric@)),
        ensures
            match r {
                Ok(v) => self.mapped_column(chunk, binning_views(numeric@), c as int) == Ok::<ColumnView, Seq<char>>(v@),
                Err(e) => self.mapped_column(chunk, binning_views(numeric@), c as int) == Err::<ColumnView, Seq<char>>(e@),
            },
    {
        proof {
            use_type_invariant(self);
        }
        let col = &chunk.cols[c];
        let _name_count = self.col_graph.names.len();
        let mut i: usize = 0;
        while i < self.cols.len() && self.cols[i] != c
            invariant
                i <= self.cols@.len(),
                self.cols@ == self.spec_cols(),
                _name_count == self.col_graph.names@.len(),
                forall|j: int| 0 <= j < i ==> self.cols@[j] != c,
            decreases self.cols.len() - i,
        {
            i = i + 1;
        }
        if i == self.cols.len() || i >= self.preprocess_map.len() {
            proof {
                if i == self.cols.len() {
                    assert(active_position(self.spec_cols(), c as int) is None);
                } else {
                    crate::table::law_active_indices_ascending(self.col_graph.dropped@, self.col_graph.names@.len());
                    lemma_active_position_at(self.spec_cols(), c as int, i as int);
                }
            }
            return Ok(col.clone());
        }
        proof {
            crate::table::law_active_indices_ascending(self.col_graph.dropped@, self.col_graph.names@.len());
            lemma_active_position_at(self.spec_cols(), c as int, i as int);
        }
        let cp = &self.preprocess_map[i];
        match (cp.bin_type, col) {
            (BinType::Numerical, ColumnVec::F32Bits(v)) => {
                let b = &numeric[i];
                let keys = bin_keys(&cp.bins);
                let bounds = numerical_bounds(&keys, b.min_bits, b.max_bits);
                let vals = nan_zeroed(v);
                proof {
                    assert(binning_views(numeric@)[i as int] == (b.min_bits, b.max_bits, texts(b.labels@)));
                    assert(texts(b.labels@).len() == b.labels@.len());
                }
                let out = map_numerical_bins(&bounds, &b.labels, &vals);
                proof {
                    assert(active_position(self.spec_cols(), c as int) == Some(i as int));
                    let want = numerical_column(cp.bins.key_views(), binning_views(numeric@)[i as int], v@);
                    assert(texts(out@) =~= v@.map_values(|x: u32| bin_label(bin_bounds(cp.bins.key_views(), b.min_bits, b.max_bits), texts(b.labels@), nan_as_zero(x))));
                    assert(ColumnVec::Utf8(out)@ == want);
                }
                Ok(ColumnVec::Utf8(out))
            },
            (BinType::Categorical, ColumnVec::Utf8(t)) => {
                let cleaned = replace_nan_texts(t);
                let mut out: Vec<String> = Vec::new();
                let mut j: usize = 0;
                while j < cleaned.len()
                    invariant
                        j <= cleaned.len(),
                        texts(cleaned@) == clean_texts(texts(t@)),
                        texts(out@) == texts(cleaned@).take(j as int).map_values(|v: Seq<char>| categorical_label(cp.values@, v)),
                    decreases cleaned.len() - j,
                {
                    let l = map_categorical_bins(cp, &cleaned[j]);
                    let ghost before = out@;
                    out.push(l);
                    assert(texts(out@) =~= texts(before).push(l@));
                    assert(texts(cleaned@).take(j + 1) =~= texts(cleaned@).take(j as int).push(cleaned@[j as int]@));
                    j = j + 1;
                }
                assert(texts(cleaned@).take(cleaned.len() as int) =~= texts(cleaned@));
                proof {
                    let want = categorical_column(cp.values@, texts(t@));
                    assert(texts(out@) =~= clean_texts(texts(t@)).map_values(|v: Seq<char>| categorical_label(cp.values@, v)));
                    assert(ColumnVec::Utf8(out)@ == want);
                }
                Ok(ColumnVec::Utf8(out))
            },
            (BinType::Numerical, ColumnVec::Utf8(_)) => Err(String::from_str("expected numeric column")),
            (BinType::Categorical, ColumnVec::F32Bits(_)) => Err(String::from_str("expected text column")),
        }
    }

    /// Labels one chunk with the fixed bins: each active categorical column becomes the label of
    /// each value (`other` for values never counted; `nan` reads as `empty`); each value of an
    /// active numerical column becomes the label of the bin it falls in (NaN reads as `0.0`,
    /// `other` outside every bin), the bins bounded by the kept values widened to the range in
    /// `numeric` (by active position) and labelled by its labels; every other column is passed
    /// through. Output columns are keyed by column name.
    pub fn use_map(&self, chunk: &ChunkTable, numeric: &Vec<NumericBinning>) -> (r: Result<
        NamedColumns,
        String,
    >)
        requires
            self.spec_finished() && chunk.validation() is None ==> chunk.names@.len() <= chunk.cols@.len(),
            self.spec_finished() && chunk.validation() is None ==> self.binning_fits(binning_views(numeric@)),
        ensures
            !self.spec_finished() ==> (r matches Err(e) && e@ == before_finish_text()),
            self.spec_finished() && chunk.validation() is Some ==> (r matches Err(e) && Some(e@) == chunk.validation()),
            self.spec_finished() && chunk.validation() is None ==> match r {
                Ok(m) => m@ == self.mapped_prefix(chunk, binning_views(numeric@), chunk.names@.len())
                    && forall|c: int| 0 <= c < chunk.names@.len() ==> self.mapped_column(chunk, binning_views(numeric@), c) is Ok,
                Err(e) => exists|c: int| self.first_failure_at(chunk, binning_views(numeric@), c)
                    && self.mapped_column(chunk, binning_views(numeric@), c) == Err::<ColumnView, Seq<char>>(e@),
            },
    {
        if !self.finished {
            return Err(String::from_str("finish_map must be called before use_map"));
        }
        match chunk.validate() {
            Err(e) => return Err(e),
            Ok(()) => {},
        }
        let ghost labels = binning_views(numeric@);
        let mut out = NamedColumns::new();
        let mut c: usize = 0;
        while c < chunk.names.len()
            invariant
                c <= chunk.names@.len(),
                chunk.names@.len() <= chunk.cols@.len(),
                self.binning_fits(binning_views(numeric@)),
                labels == binning_views(numeric@),
                self.spec_finished(),
                chunk.validation() is None,
                out@ == self.mapped_prefix(chunk, labels, c as nat),
                forall|j: int| 0 <= j < c ==> self.mapped_column(chunk, labels, j) is Ok,
            decreases chunk.names.len() - c,
        {
            match self.map_column(chunk, numeric, c) {
                Ok(v) => {
                    out.insert(chunk.names[c].clone(), v);
                },
                Err(e) => {
                    assert(self.first_failure_at(chunk, labels, c as int));
                    return Err(e);
                },
            }
            c = c + 1;
        }
        Ok(out)
    }
}

proof fn lemma_active_position_at(cols: Seq<usize>, c: int, i: int)
    requires
        forall|a: int, b: int| 0 <= a < b < cols.len() ==> cols[a] < cols[b],
        0 <= i < cols.len(),
        cols[i] == c,
    ensures
        active_position(cols, c) == Some(i),
{
    assert(exists|q: int| 0 <= q < cols.len() && cols[q] == c);
    let p = choose|q: int| 0 <= q < cols.len() && cols[q] == c;
    if p < i {
        assert(cols[p] < cols[i]);
    } else if p > i {
        assert(cols[i] < cols[p]);
    }
}




/// How a caller hands a column's values to counting or labelling.
#[derive(Clone, Copy, Debug, PartialEq, Eq, Structural)]
pub enum ValueForm {
    /// Numbers rounded to the precision at which values are counted (NaN as 0).
    Rounded,
    /// Numbers as they are, with NaN as 0, beside their bin labels.
    Labelled,
    /// Numbers written as text.
    Text,
    /// The column as it is.
    AsIs,
}

/// The first position of `c` among `cols`, if any.
fn position_of(cols: &Vec<usize>, c: usize) -> (r: Option<usize>)
    requires
        forall|a: int, b: int| 0 <= a < b < cols@.len() ==> cols@[a] < cols@[b],
    ensures
        match r {
            Some(p) => active_position(cols@, c as int) == Some(p as int),
            None => active_position(cols@, c as int) is None,
        },
{
    let mut p: usize = 0;
    while p < cols.len()
        invariant
            p <= cols@.len(),
            forall|a: int, b: int| 0 <= a < b < cols@.len() ==> cols@[a] < cols@[b],
            forall|q: int| 0 <= q < p ==> cols@[q] != c,
        decreases cols.len() - p,
    {
        if cols[p] == c {
            proof {
                lemma_active_position_at(cols@, c as int, p as int);
            }
            return Some(p);
        }
        p = p + 1;
    }
    None
}

impl PreprocessStream {
    /// How column `c`, numeric or not, is handed to `preprocess`: the numbers of an active column
    /// that is (or, on the first chunk, becomes) numerical are rounded; the numbers of an active
    /// categorical column are written as text; everything else is handed as it is.
    pub open spec fn count_form(&self, c: int, numeric: bool) -> ValueForm {
        match active_position(self.spec_cols(), c) {
            Some(p) => if !numeric {
                ValueForm::AsIs
            } else if self.spec_num_chunks() == 0 || (p < self.spec_map().len() && self.spec_map()[p].bin_type == BinType::Numerical) {
                ValueForm::Rounded
            } else {
                ValueForm::Text
            },
            None => ValueForm::AsIs,
        }
    }

    /// How column `c`, numeric or not, is handed to `use_map`: the numbers of an active numerical
    /// column come with their bin labels; the numbers of an active categorical column are written
    /// as text; everything else is handed as it is.
    pub open spec fn label_form(&self, c: int, numeric: bool) -> ValueForm {
        match active_position(self.spec_cols(), c) {
            Some(p) => if !numeric {
                ValueForm::AsIs
            } else if p < self.spec_map().len() && self.spec_map()[p].bin_type == BinType::Numerical {
                ValueForm::Labelled
            } else {
                ValueForm::Text
            },
            None => ValueForm::AsIs,
        }
    }

    /// The active position of column `c` and how it is handed to `preprocess`.
    pub fn count_form_of(&self, c: usize, numeric: bool) -> (r: (Option<usize>, ValueForm))
        ensures
            r.1 == self.count_form(c as int, numeric),
            match r.0 {
                Some(p) => active_position(self.spec_cols(), c as int) == Some(p as int),
                None => active_position(self.spec_cols(), c as int) is None,
            },
    {
        let n = self.col_graph.names.len();
        proof {
            use_type_invariant(self);
            crate::table::law_active_indices_ascending(self.col_graph.dropped@, n as nat);
        }
        match position_of(&self.cols, c) {
            Some(p) => {
                if !numeric {
                    (Some(p), ValueForm::AsIs)
                } else if self.num_chunks == 0 || (p < self.preprocess_map.len() && self.preprocess_map[p].bin_type == BinType::Numerical) {
                    (Some(p), ValueForm::Rounded)
                } else {
                    (Some(p), ValueForm::Text)
                }
            },
            None => (None, ValueForm::AsIs),
        }
    }

    /// The active position of column `c` and how it is handed to `use_map`.
    pub fn label_form_of(&self, c: usize, numeric: bool) -> (r: (Option<usize>, ValueForm))
        ensures
            r.1 == self.label_form(c as int, numeric),
            match r.0 {
                Some(p) => active_position(self.spec_cols(), c as int) == Some(p as int),
                None => active_position(self.spec_cols(), c as int) is None,
            },
    {
        let n = self.col_graph.names.len();
        proof {
            use_type_invariant(self);
            crate::table::law_active_indices_ascending(self.col_graph.dropped@, n as nat);
        }
        match position_of(&self.cols, c) {
            Some(p) => {
                if !numeric {
                    (Some(p), ValueForm::AsIs)
                } else if p < self.preprocess_map.len() && self.preprocess_map[p].bin_type == BinType::Numerical {
                    (Some(p), ValueForm::Labelled)
                } else {
                    (Some(p), ValueForm::Text)
                }
            },
            None => (None, ValueForm::AsIs),
        }
    }
}


/// How often the values of chunk column `c` count as `k`, over a run of chunks.
pub open spec fn run_occurrences(chunks: Seq<ChunkTable>, c: int, k: KeyView) -> nat
    decreases chunks.len(),
{
    if chunks.len() == 0 {
        0
    } else {
        run_occurrences(chunks.drop_last(), c, k) + column_occurrences(chunks.last().cols@[c]@, k)
    }
}

/// The rows of a run of chunks.
pub open spec fn run_rows(chunks: Seq<ChunkTable>) -> nat
    decreases chunks.len(),
{
    if chunks.len() == 0 {
        0
    } else {
        run_rows(chunks.drop_last()) + chunks.last().spec_nrows()
    }
}

/// `states[i + 1]` is `states[i]` with `chunks[i]` counted, starting from a stream with nothing
/// counted.
pub open spec fn counted_run(states: Seq<PreprocessStream>, chunks: Seq<ChunkTable>) -> bool {
    &&& states.len() == chunks.len() + 1
    &&& states[0].spec_num_chunks() == 0
    &&& states[0].spec_rows_seen() == 0
    &&& forall|i: int| 0 <= i < chunks.len() ==> #[trigger] states[i].counted_after(chunks[i], states[i + 1])
}

/// Law: counting a run of chunks one by one counts every chunk. After the run, the stream has
/// seen every chunk and all their rows; each active column has the bin type of its values in
/// the first chunk, and each value's count is its number of occurrences over all chunks.
pub proof fn law_counts_accumulate(states: Seq<PreprocessStream>, chunks: Seq<ChunkTable>)
    requires
        counted_run(states, chunks),
    ensures
        states.last().spec_num_chunks() == chunks.len(),
        states.last().spec_rows_seen() == run_rows(chunks),
        states.last().spec_cols() == states[0].spec_cols(),
        chunks.len() > 0 ==> states.last().spec_map().len() == states[0].spec_cols().len(),
        chunks.len() > 0 ==> forall|p: int, k: KeyView| #![trigger count_in(states.last().spec_map()[p].values@, k)]
            0 <= p < states[0].spec_cols().len() ==> count_in(states.last().spec_map()[p].values@, k)
                == run_occurrences(chunks, states[0].spec_cols()[p] as int, k),
        chunks.len() > 0 ==> forall|p: int| #![trigger states.last().spec_map()[p]]
            0 <= p < states[0].spec_cols().len() ==> states.last().spec_map()[p].bin_type
                == bin_type_of(chunks[0].cols@[states[0].spec_cols()[p] as int]@),
    decreases chunks.len(),
{
    if chunks.len() > 0 {
        let n = chunks.len() - 1;
        let ps = states.take(n + 1);
        let pc = chunks.take(n);
        assert forall|i: int| 0 <= i < pc.len() implies #[trigger] ps[i].counted_after(pc[i], ps[i + 1]) by {
            assert(states[i].counted_after(chunks[i], states[i + 1]));
        }
        law_counts_accumulate(ps, pc);
        assert(pc == chunks.drop_last());
        let a = states[n];
        let b = states[n + 1];
        assert(a.counted_after(chunks[n], b));
        assert(states.last() == b);
        assert(ps.last() == a);
        assert(run_rows(chunks) == run_rows(pc) + chunks[n].spec_nrows());
        if n > 0 {
            assert(pc[0] == chunks[0]);
        }
        assert forall|p: int, k: KeyView| 0 <= p < states[0].spec_cols().len() implies #[trigger] count_in(b.spec_map()[p].values@, k)
            == run_occurrences(chunks, states[0].spec_cols()[p] as int, k) by {
            let c = states[0].spec_cols()[p] as int;
            assert(run_occurrences(chunks, c, k) == run_occurrences(pc, c, k) + column_occurrences(chunks[n].cols@[c]@, k));
            if n == 0 {
                assert(run_occurrences(pc, c, k) == 0);
            } else {
                assert(count_in(a.spec_map()[p].values@, k) == run_occurrences(pc, c, k));
            }
        }
        assert forall|p: int| 0 <= p < states[0].spec_cols().len() implies #[trigger] b.spec_map()[p].bin_type
            == bin_type_of(chunks[0].cols@[states[0].spec_cols()[p] as int]@) by {
            if n > 0 {
                assert(a.spec_map()[p].bin_type == bin_type_of(pc[0].cols@[states[0].spec_cols()[p] as int]@));
            }
        }
    }
}

}
