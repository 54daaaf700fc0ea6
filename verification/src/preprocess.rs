//! Streaming preprocessing: value counting per column, bin selection and label mapping.

use crate::counts::{count_in, distinct_keys, pair_keys, KeyCounts};
use crate::order::{key_precedes, key_sorts_before};
use crate::table::texts;
use crate::text::{is_nan_text, is_nan_word};
use vstd::string::StringExecFns;
use std::collections::HashMap;
use vstd::prelude::*;

verus! {

broadcast use vstd::std_specs::hash::group_hash_axioms;

/// How a column is binned.
#[derive(Clone, Copy, Debug, PartialEq, Eq, Structural)]
pub enum BinType {
    Numerical,
    Categorical,
}

/// A counted value: the bit pattern of a 32-bit float (`f32::to_bits`, with `-0.0` folded
/// into `+0.0`), or a text value.
#[derive(Debug, Hash, PartialEq, Eq)]
pub enum ValueKey {
    Num(u32),
    Str(String),
}

/// The mathematical value of a [`ValueKey`].
pub enum KeyView {
    Num(u32),
    Str(Seq<char>),
}

impl View for ValueKey {
    type V = KeyView;

    open spec fn view(&self) -> KeyView {
        match self {
            ValueKey::Num(b) => KeyView::Num(*b),
            ValueKey::Str(s) => KeyView::Str(s@),
        }
    }
}

impl Clone for ValueKey {
    fn clone(&self) -> (r: Self)
        ensures
            r@ == self@,
    {
        match self {
            ValueKey::Num(b) => ValueKey::Num(*b),
            ValueKey::Str(s) => ValueKey::Str(s.clone()),
        }
    }
}

/// Bit pattern of `-0.0_f32`.
pub const NEG_ZERO_BITS: u32 = 0x8000_0000u32;

/// The key for a float given by its bit pattern: `-0.0` and `+0.0` share the key of `+0.0`.
pub open spec fn float_key_bits(bits: u32) -> u32 {
    if bits == NEG_ZERO_BITS { 0 } else { bits }
}

impl ValueKey {
    /// Key of the 32-bit float whose bit pattern is `bits`.
    pub fn from_f32_bits(bits: u32) -> (k: Self)
        ensures
            k@ == KeyView::Num(float_key_bits(bits)),
    {
        if bits == NEG_ZERO_BITS {
            ValueKey::Num(0)
        } else {
            ValueKey::Num(bits)
        }
    }

    /// The bit pattern of a numeric key.
    pub fn as_num_bits(&self) -> (r: Option<u32>)
        ensures
            r == (match self@ {
                KeyView::Num(b) => Some(b),
                KeyView::Str(_) => None::<u32>,
            }),
    {
        match self {
            ValueKey::Num(b) => Some(*b),
            ValueKey::Str(_) => None,
        }
    }

    /// Whether two keys have the same value.
    pub fn same_key(&self, other: &ValueKey) -> (b: bool)
        ensures
            b == (self@ == other@),
    {
        match (self, other) {
            (ValueKey::Num(x), ValueKey::Num(y)) => *x == *y,
            (ValueKey::Str(x), ValueKey::Str(y)) => x.eq(y),
            _ => false,
        }
    }
}

/// Bin depth (number of most frequent values kept) for every column, with per-column overrides.
#[derive(Clone, Debug)]
pub struct BinDepth {
    pub main: usize,
    pub per_column: HashMap<usize, usize>,
}

impl BinDepth {
    /// Depth `main` for every column, no overrides.
    pub fn new(main: usize) -> (d: Self)
        ensures
            d.main == main,
            d.per_column@ == Map::<usize, usize>::empty(),
    {
        BinDepth { main, per_column: HashMap::new() }
    }

    /// The depth used for column `col`: its override if any, else `main`.
    pub open spec fn spec_depth_for(&self, col: usize) -> usize {
        if self.per_column@.contains_key(col) {
            self.per_column@[col]
        } else {
            self.main
        }
    }

    /// The depth used for column `col`.
    pub fn depth_for(&self, col: usize) -> (r: usize)
        ensures
            r == self.spec_depth_for(col),
    {
        match self.per_column.get(&col) {
            Some(d) => *d,
            None => self.main,
        }
    }
}


/// How many of `arr` count as the key `k` (text values).
pub open spec fn text_occurrences(arr: Seq<Seq<char>>, k: KeyView) -> nat
    decreases arr.len(),
{
    if arr.len() == 0 {
        0
    } else {
        text_occurrences(arr.drop_last(), k) + (if KeyView::Str(arr.last()) == k { 1nat } else { 0nat })
    }
}

/// How many of `arr` count as the key `k` (float bit patterns).
pub open spec fn bits_occurrences(arr: Seq<u32>, k: KeyView) -> nat
    decreases arr.len(),
{
    if arr.len() == 0 {
        0
    } else {
        bits_occurrences(arr.drop_last(), k) + (if KeyView::Num(float_key_bits(arr.last())) == k {
            1nat
        } else {
            0nat
        })
    }
}

/// Every count in `m` can grow by `n` without overflow.
pub open spec fn counts_can_grow(m: Map<KeyView, u64>, n: nat) -> bool {
    forall|k: KeyView| count_in(m, k) + n <= u64::MAX
}

/// Counts the text values of `arr` into `acc`.
pub fn merge_uniques_categorical(acc: &mut KeyCounts, arr: &Vec<String>)
    requires
        counts_can_grow(old(acc)@, arr.len() as nat),
    ensures
        forall|k: KeyView|
            count_in(final(acc)@, k) == count_in(old(acc)@, k) + text_occurrences(texts(arr@), k),
        forall|k: KeyView|
            #![trigger final(acc)@.contains_key(k)]
            final(acc)@.contains_key(k) <==> (old(acc)@.contains_key(k) || text_occurrences(
                texts(arr@),
                k,
            ) > 0),
        old(acc).key_views().is_prefix_of(final(acc).key_views()),
{
    let ghost start = acc@;
    let ghost start_keys = acc.key_views();
    let mut i: usize = 0;
    while i < arr.len()
        invariant
            i <= arr.len(),
            counts_can_grow(start, arr.len() as nat),
            forall|k: KeyView|
                count_in(acc@, k) == count_in(start, k) + text_occurrences(texts(arr@.take(i as int)), k),
            forall|k: KeyView|
                #![trigger acc@.contains_key(k)]
                acc@.contains_key(k) <==> (start.contains_key(k) || text_occurrences(
                    texts(arr@.take(i as int)),
                    k,
                ) > 0),
            forall|k: KeyView| text_occurrences(texts(arr@.take(i as int)), k) <= i,
            start_keys.is_prefix_of(acc.key_views()),
        decreases arr.len() - i,
    {
        let key = ValueKey::Str(arr[i].clone());
        let ghost prev = acc@;
        let ghost prev_keys = acc.key_views();
        proof {
            assert(count_in(start, key@) + arr.len() <= u64::MAX);
        }
        acc.add(&key, 1);
        proof {
            let t = texts(arr@.take(i + 1));
            assert(t.drop_last() =~= texts(arr@.take(i as int)));
            assert(t.last() == arr@[i as int]@);
            assert forall|k: KeyView|
                count_in(acc@, k) == count_in(start, k) + text_occurrences(t, k) by {
                assert(count_in(prev, k) == count_in(start, k) + text_occurrences(texts(arr@.take(i as int)), k));
                assert(text_occurrences(t, k) == text_occurrences(texts(arr@.take(i as int)), k) + (if KeyView::Str(t.last()) == k { 1nat } else { 0nat }));
            }
            assert forall|k: KeyView| text_occurrences(t, k) <= i + 1 by {
                assert(text_occurrences(texts(arr@.take(i as int)), k) <= i);
                assert(text_occurrences(t, k) == text_occurrences(texts(arr@.take(i as int)), k) + (if KeyView::Str(t.last()) == k { 1nat } else { 0nat }));
            }
            assert(start_keys.is_prefix_of(acc.key_views())) by {
                assert forall|j: int| 0 <= j < start_keys.len() implies start_keys[j] == acc.key_views()[j] by {
                    assert(start_keys[j] == prev_keys[j]);
                }
            }
        }
        i = i + 1;
    }
    assert(arr@.take(arr.len() as int) =~= arr@);
}

/// Counts the float values, given by bit pattern, of `arr` into `acc`; `-0.0` counts as `+0.0`.
pub fn merge_uniques_numerical(acc: &mut KeyCounts, arr: &Vec<u32>)
    requires
        counts_can_grow(old(acc)@, arr.len() as nat),
    ensures
        forall|k: KeyView|
            count_in(final(acc)@, k) == count_in(old(acc)@, k) + bits_occurrences(arr@, k),
        forall|k: KeyView|
            #![trigger final(acc)@.contains_key(k)]
            final(acc)@.contains_key(k) <==> (old(acc)@.contains_key(k) || bits_occurrences(arr@, k)
                > 0),
        old(acc).key_views().is_prefix_of(final(acc).key_views()),
{
    let ghost start = acc@;
    let ghost start_keys = acc.key_views();
    let mut i: usize = 0;
    while i < arr.len()
        invariant
            i <= arr.len(),
            counts_can_grow(start, arr.len() as nat),
            forall|k: KeyView|
                count_in(acc@, k) == count_in(start, k) + bits_occurrences(arr@.take(i as int), k),
            forall|k: KeyView|
                #![trigger acc@.contains_key(k)]
                acc@.contains_key(k) <==> (start.contains_key(k) || bits_occurrences(
                    arr@.take(i as int),
                    k,
                ) > 0),
            forall|k: KeyView| bits_occurrences(arr@.take(i as int), k) <= i,
            start_keys.is_prefix_of(acc.key_views()),
        decreases arr.len() - i,
    {
        let key = ValueKey::from_f32_bits(arr[i]);
        let ghost prev = acc@;
        let ghost prev_keys = acc.key_views();
        proof {
            assert(count_in(start, key@) + arr.len() <= u64::MAX);
        }
        acc.add(&key, 1);
        proof {
            let t = arr@.take(i + 1);
            assert(t.drop_last() =~= arr@.take(i as int));
            assert(t.last() == arr@[i as int]);
            assert forall|k: KeyView|
                count_in(acc@, k) == count_in(start, k) + bits_occurrences(t, k) by {
                assert(count_in(prev, k) == count_in(start, k) + bits_occurrences(arr@.take(i as int), k));
                assert(bits_occurrences(t, k) == bits_occurrences(arr@.take(i as int), k) + (if KeyView::Num(float_key_bits(t.last())) == k { 1nat } else { 0nat }));
            }
            assert forall|k: KeyView| bits_occurrences(t, k) <= i + 1 by {
                assert(bits_occurrences(arr@.take(i as int), k) <= i);
                assert(bits_occurrences(t, k) == bits_occurrences(arr@.take(i as int), k) + (if KeyView::Num(float_key_bits(t.last())) == k { 1nat } else { 0nat }));
            }
            assert(start_keys.is_prefix_of(acc.key_views())) by {
                assert forall|j: int| 0 <= j < start_keys.len() implies start_keys[j] == acc.key_views()[j] by {
                    assert(start_keys[j] == prev_keys[j]);
                }
            }
        }
        i = i + 1;
    }
    assert(arr@.take(arr.len() as int) =~= arr@);
}


/// The views of counted items: key value and count.
pub open spec fn item_views(v: Seq<(ValueKey, u64)>) -> Seq<(KeyView, u64)> {
    v.map_values(|e: (ValueKey, u64)| (e.0@, e.1))
}

/// First index at or after `j` whose count is below `c` (or the length).
pub open spec fn prefix_at_least(s: Seq<(KeyView, u64)>, c: u64, j: int) -> int
    decreases s.len() - j,
{
    if j < 0 || j >= s.len() || s[j].1 < c {
        j
    } else {
        prefix_at_least(s, c, j + 1)
    }
}

/// Where an item with count `c` goes in a list sorted by descending count, after every item
/// whose count is at least `c` (so equal counts keep their relative order).
pub open spec fn insert_desc(s: Seq<(KeyView, u64)>, x: (KeyView, u64)) -> Seq<(KeyView, u64)> {
    let p = prefix_at_least(s, x.1, 0);
    s.take(p) + seq![x] + s.skip(p)
}

/// The stable sort of `s` by descending count.
pub open spec fn sort_desc(s: Seq<(KeyView, u64)>) -> Seq<(KeyView, u64)>
    decreases s.len(),
{
    if s.len() == 0 {
        s
    } else {
        insert_desc(sort_desc(s.drop_last()), s.last())
    }
}

/// First index at or after `j` whose count differs from `c` (or the length).
pub open spec fn tie_end(s: Seq<(KeyView, u64)>, c: u64, j: int) -> int
    decreases s.len() - j,
{
    if j < 0 || j >= s.len() || s[j].1 != c {
        j
    } else {
        tie_end(s, c, j + 1)
    }
}

/// How many of the sorted items are kept for depth `depth`: the first `depth`, or all when
/// there are fewer; the items after position `depth` that tie with the last kept count are
/// kept too, so the cut falls at the end of that run of ties.
pub open spec fn accounted_len(s: Seq<(KeyView, u64)>, depth: nat) -> nat {
    if s.len() == 0 || depth == 0 {
        0
    } else if depth > s.len() {
        s.len()
    } else {
        tie_end(s, s[depth - 1].1, depth as int) as nat
    }
}

proof fn lemma_prefix_at_least_bounds(s: Seq<(KeyView, u64)>, c: u64, j: int)
    requires
        0 <= j <= s.len(),
    ensures
        j <= prefix_at_least(s, c, j) <= s.len(),
        forall|t: int| j <= t < prefix_at_least(s, c, j) ==> s[t].1 >= c,
        prefix_at_least(s, c, j) < s.len() ==> s[prefix_at_least(s, c, j)].1 < c,
    decreases s.len() - j,
{
    if j < s.len() && s[j].1 >= c {
        lemma_prefix_at_least_bounds(s, c, j + 1);
    }
}

proof fn lemma_tie_end_bounds(s: Seq<(KeyView, u64)>, c: u64, j: int)
    requires
        0 <= j <= s.len(),
    ensures
        j <= tie_end(s, c, j) <= s.len(),
        forall|t: int| j <= t < tie_end(s, c, j) ==> s[t].1 == c,
        tie_end(s, c, j) < s.len() ==> s[tie_end(s, c, j)].1 != c,
    decreases s.len() - j,
{
    if j < s.len() && s[j].1 == c {
        lemma_tie_end_bounds(s, c, j + 1);
    }
}

/// The items sorted by descending count, equal counts in their given order.
fn sorted_by_count_desc(items: &Vec<(ValueKey, u64)>) -> (r: Vec<(ValueKey, u64)>)
    ensures
        item_views(r@) == sort_desc(item_views(items@)),
{
    let mut sorted: Vec<(ValueKey, u64)> = Vec::new();
    let mut i: usize = 0;
    while i < items.len()
        invariant
            i <= items.len(),
            item_views(sorted@) == sort_desc(item_views(items@.take(i as int))),
        decreases items.len() - i,
    {
        let c = items[i].1;
        let mut p: usize = 0;
        while p < sorted.len() && sorted[p].1 >= c
            invariant
                p <= sorted.len(),
                prefix_at_least(item_views(sorted@), c, 0) == prefix_at_least(item_views(sorted@), c, p as int),
            decreases sorted.len() - p,
        {
            p = p + 1;
        }
        let x = (items[i].0.clone(), c);
        let ghost before = sorted@;
        sorted.insert(p, x);
        proof {
            let sv = item_views(before);
            let xv = (x.0@, x.1);
            assert(prefix_at_least(sv, c, 0) == p);
            assert(item_views(sorted@) =~= sv.take(p as int) + seq![xv] + sv.skip(p as int));
            let pre = item_views(items@.take(i + 1));
            assert(pre.drop_last() =~= item_views(items@.take(i as int)));
            assert(pre.last() == xv);
        }
        i = i + 1;
    }
    assert(items@.take(items.len() as int) =~= items@);
    sorted
}

/// The most frequent items: at most `bin_depth` of them after a stable sort by descending
/// count, extended over a run of ties at the cut as `accounted_len` describes.
pub fn return_accounted_bins(items: &Vec<(ValueKey, u64)>, bin_depth: usize) -> (r: Vec<(ValueKey, u64)>)
    ensures
        item_views(r@) == sort_desc(item_views(items@)).take(
            accounted_len(sort_desc(item_views(items@)), bin_depth as nat) as int,
        ),
{
    let mut sorted = sorted_by_count_desc(items);
    let ghost sv = item_views(sorted@);
    proof {
        lemma_sort_desc_len(item_views(items@));
    }
    if items.len() == 0 || bin_depth == 0 {
        let r: Vec<(ValueKey, u64)> = Vec::new();
        assert(item_views(r@) =~= sv.take(0));
        return r;
    }
    if bin_depth > sorted.len() {
        assert(sv.take(sv.len() as int) =~= sv);
        return sorted;
    }
    let last_count = sorted[bin_depth - 1].1;
    let mut it = bin_depth;
    while it < sorted.len() && sorted[it].1 == last_count
        invariant
            bin_depth <= it <= sorted.len(),
            sv == item_views(sorted@),
            tie_end(sv, last_count, bin_depth as int) == tie_end(sv, last_count, it as int),
        decreases sorted.len() - it,
    {
        it = it + 1;
    }
    proof {
        lemma_tie_end_bounds(sv, last_count, bin_depth as int);
    }
    sorted.truncate(it);
    assert(item_views(sorted@) =~= sv.take(it as int));
    sorted
}

/// The sort keeps the number of items.
pub proof fn lemma_sort_desc_len(s: Seq<(KeyView, u64)>)
    ensures
        sort_desc(s).len() == s.len(),
    decreases s.len(),
{
    if s.len() > 0 {
        lemma_sort_desc_len(s.drop_last());
        let t = sort_desc(s.drop_last());
        lemma_prefix_at_least_bounds(t, s.last().1, 0);
    }
}


/// Law: the sort puts counts in descending order.
pub proof fn law_sort_desc_descending(s: Seq<(KeyView, u64)>)
    ensures
        forall|i: int, j: int| 0 <= i < j < sort_desc(s).len() ==> sort_desc(s)[i].1 >= sort_desc(s)[j].1,
    decreases s.len(),
{
    if s.len() > 0 {
        law_sort_desc_descending(s.drop_last());
        let t = sort_desc(s.drop_last());
        let x = s.last();
        let p = prefix_at_least(t, x.1, 0);
        lemma_prefix_at_least_bounds(t, x.1, 0);
        let r = sort_desc(s);
        assert(r == t.take(p) + seq![x] + t.skip(p));
        assert forall|i: int, j: int| 0 <= i < j < r.len() implies r[i].1 >= r[j].1 by {
            if j < p {
                assert(r[i] == t[i] && r[j] == t[j]);
            } else if j == p {
                assert(r[i] == t[i]);
            } else if i < p {
                assert(r[i] == t[i] && r[j] == t[j - 1]);
            } else if i == p {
                assert(r[j] == t[j - 1]);
                assert(t[p].1 < x.1);
                assert(t[j - 1].1 <= t[p].1 || j - 1 == p);
            } else {
                assert(r[i] == t[i - 1] && r[j] == t[j - 1]);
            }
        }
    }
}

/// Law: the sort rearranges the items and neither adds nor loses any.
pub proof fn law_sort_desc_permutes(s: Seq<(KeyView, u64)>)
    ensures
        sort_desc(s).to_multiset() == s.to_multiset(),
    decreases s.len(),
{
    broadcast use vstd::seq_lib::lemma_multiset_commutative;
    broadcast use vstd::seq_lib::group_to_multiset_ensures;
    if s.len() == 0 {
    } else {
        law_sort_desc_permutes(s.drop_last());
        let t = sort_desc(s.drop_last());
        let x = s.last();
        let p = prefix_at_least(t, x.1, 0);
        lemma_prefix_at_least_bounds(t, x.1, 0);
        assert(t =~= t.take(p) + t.skip(p));
        assert(s =~= s.drop_last().push(x));
        assert((t.take(p) + seq![x] + t.skip(p)).to_multiset() =~= t.take(p).to_multiset().add(seq![x].to_multiset()).add(t.skip(p).to_multiset()));
        assert(seq![x].to_multiset() =~= Seq::<(KeyView, u64)>::empty().push(x).to_multiset());
    }
}

/// Law: the kept bins number at least `min(depth, items)` and at most all items, and every
/// kept count is at least every dropped count. With `1 <= depth <= items`, the kept items are
/// exactly those whose count is at least the count at position `depth` of the sorted list:
/// ties with that cut-off count are all kept.
pub proof fn law_accounted_bins_bounds(s: Seq<(KeyView, u64)>, depth: nat)
    ensures
        accounted_len(sort_desc(s), depth) <= s.len(),
        depth <= s.len() ==> accounted_len(sort_desc(s), depth) >= depth,
        depth > s.len() ==> accounted_len(sort_desc(s), depth) == s.len(),
        forall|i: int, j: int|
            0 <= i < accounted_len(sort_desc(s), depth) <= j < s.len() ==> sort_desc(s)[i].1
                >= sort_desc(s)[j].1,
        1 <= depth <= s.len() ==> forall|i: int| 0 <= i < s.len() ==> (i < accounted_len(sort_desc(s), depth)
            <==> #[trigger] sort_desc(s)[i].1 >= sort_desc(s)[depth - 1].1),
{
    lemma_sort_desc_len(s);
    law_sort_desc_descending(s);
    let t = sort_desc(s);
    if t.len() > 0 && depth > 0 && depth <= t.len() {
        let c = t[depth - 1].1;
        lemma_tie_end_bounds(t, c, depth as int);
        let e = tie_end(t, c, depth as int);
        assert forall|i: int| 0 <= i < t.len() implies (i < e <==> #[trigger] t[i].1 >= c) by {
            if i < depth {
                assert(t[i].1 >= t[depth - 1].1);
            } else if i < e {
                assert(t[i].1 == c);
            } else {
                assert(t[e].1 != c);
                assert(t[depth - 1].1 >= t[e].1);
                assert(t[e].1 >= t[i].1);
            }
        }
    }
}


/// The text written for a value that reads `nan`.
pub open spec fn empty_word() -> Seq<char> {
    "empty"@
}

/// Text values with every `nan` (any ASCII case) replaced by `empty`.
pub open spec fn clean_texts(arr: Seq<Seq<char>>) -> Seq<Seq<char>> {
    arr.map_values(|t: Seq<char>| if is_nan_text(t) { empty_word() } else { t })
}

/// Copies `v`, writing `empty` for each value that reads `nan` in any ASCII case.
pub fn replace_nan_texts(v: &Vec<String>) -> (r: Vec<String>)
    ensures
        texts(r@) == clean_texts(texts(v@)),
{
    let mut r: Vec<String> = Vec::new();
    let mut i: usize = 0;
    while i < v.len()
        invariant
            i <= v.len(),
            texts(r@) == clean_texts(texts(v@.take(i as int))),
        decreases v.len() - i,
    {
        let t = if is_nan_word(v[i].as_str()) {
            String::from_str("empty")
        } else {
            v[i].clone()
        };
        let ghost before = r@;
        r.push(t);
        proof {
            assert(r@ == before.push(t));
            assert(texts(r@) =~= texts(before).push(t@));
            assert(clean_texts(texts(v@.take(i + 1))) =~= clean_texts(texts(v@.take(i as int))).push(
                if is_nan_text(v@[i as int]@) { empty_word() } else { v@[i as int]@ },
            ));
        }
        i = i + 1;
    }
    assert(v@.take(v.len() as int) =~= v@);
    r
}

/// Binning state of one column.
#[derive(Debug)]
pub struct ColumnPreprocess {
    pub bin_type: BinType,
    /// Occurrence count of every value seen.
    pub values: KeyCounts,
    /// The values kept as bins, with their counts.
    pub bins: KeyCounts,
    /// Bin labels of a categorical column, in key order. The labels of numerical bins are
    /// ranges of float values and are written by the float layer.
    pub bin_labels: Vec<String>,
}

impl Clone for ColumnPreprocess {
    fn clone(&self) -> (r: Self)
        ensures
            r.bin_type == self.bin_type,
            r.values.key_views() == self.values.key_views(),
            r.values.count_seq() == self.values.count_seq(),
            r.values@ == self.values@,
            r.bins.key_views() == self.bins.key_views(),
            r.bins.count_seq() == self.bins.count_seq(),
            r.bins@ == self.bins@,
            texts(r.bin_labels@) == texts(self.bin_labels@),
    {
        ColumnPreprocess {
            bin_type: self.bin_type,
            values: self.values.clone(),
            bins: self.bins.clone(),
            bin_labels: crate::table::clone_strings(&self.bin_labels),
        }
    }
}

impl ColumnPreprocess {
    /// A numerical column with nothing counted yet.
    pub fn new_numerical() -> (r: Self)
        ensures
            r.bin_type == BinType::Numerical,
            r.values@ == Map::<KeyView, u64>::empty(),
            r.bins@ == Map::<KeyView, u64>::empty(),
            r.bin_labels@.len() == 0,
    {
        ColumnPreprocess {
            bin_type: BinType::Numerical,
            values: KeyCounts::new(),
            bins: KeyCounts::new(),
            bin_labels: Vec::new(),
        }
    }

    /// A categorical column with nothing counted yet.
    pub fn new_categorical() -> (r: Self)
        ensures
            r.bin_type == BinType::Categorical,
            r.values@ == Map::<KeyView, u64>::empty(),
            r.bins@ == Map::<KeyView, u64>::empty(),
            r.bin_labels@.len() == 0,
    {
        ColumnPreprocess {
            bin_type: BinType::Categorical,
            values: KeyCounts::new(),
            bins: KeyCounts::new(),
            bin_labels: Vec::new(),
        }
    }
}

/// The text that stands for values outside every bin.
pub open spec fn other_word() -> Seq<char> {
    "other"@
}

/// The label of a categorical value: the value itself when it was counted, else `other`.
pub open spec fn categorical_label(values: Map<KeyView, u64>, val: Seq<char>) -> Seq<char> {
    if values.contains_key(KeyView::Str(val)) {
        val
    } else {
        other_word()
    }
}

/// Label of `val` for a categorical column.
pub fn map_categorical_bins(cp: &ColumnPreprocess, val: &String) -> (r: String)
    ensures
        r@ == categorical_label(cp.values@, val@),
{
    let k = ValueKey::Str(val.clone());
    if cp.values.contains_key(&k) {
        val.clone()
    } else {
        String::from_str("other")
    }
}

/// First index at or after `j` where `x` sorts strictly before the key (or the length).
pub open spec fn key_slot(s: Seq<KeyView>, x: KeyView, j: int) -> int
    decreases s.len() - j,
{
    if j < 0 || j >= s.len() || key_precedes(x, s[j]) {
        j
    } else {
        key_slot(s, x, j + 1)
    }
}

/// Insertion sort of keys by `key_order`: each key goes after every earlier key it does not
/// sort strictly before.
pub open spec fn sort_keys(s: Seq<KeyView>) -> Seq<KeyView>
    decreases s.len(),
{
    if s.len() == 0 {
        s
    } else {
        let t = sort_keys(s.drop_last());
        let p = key_slot(t, s.last(), 0);
        t.take(p) + seq![s.last()] + t.skip(p)
    }
}

/// The insertion slot lies between the start position and the end.
pub proof fn lemma_key_slot_bounds(s: Seq<KeyView>, x: KeyView, j: int)
    requires
        0 <= j <= s.len(),
    ensures
        j <= key_slot(s, x, j) <= s.len(),
    decreases s.len() - j,
{
    if j < s.len() && !key_precedes(x, s[j]) {
        lemma_key_slot_bounds(s, x, j + 1);
    }
}

/// The key sort rearranges the keys and neither adds nor loses any.
pub proof fn lemma_sort_keys_permutes(s: Seq<KeyView>)
    ensures
        sort_keys(s).to_multiset() == s.to_multiset(),
    decreases s.len(),
{
    broadcast use vstd::seq_lib::lemma_multiset_commutative;
    broadcast use vstd::seq_lib::group_to_multiset_ensures;
    if s.len() > 0 {
        lemma_sort_keys_permutes(s.drop_last());
        let t = sort_keys(s.drop_last());
        let x = s.last();
        let p = key_slot(t, x, 0);
        lemma_key_slot_bounds(t, x, 0);
        assert(t =~= t.take(p) + t.skip(p));
        assert(s =~= s.drop_last().push(x));
        assert((t.take(p) + seq![x] + t.skip(p)).to_multiset() =~= t.take(p).to_multiset().add(seq![x].to_multiset()).add(t.skip(p).to_multiset()));
        assert(seq![x].to_multiset() =~= Seq::<KeyView>::empty().push(x).to_multiset());
    }
}

/// The keys of `v` sorted in key order (stable insertion sort).
pub fn sorted_keys(v: &Vec<ValueKey>) -> (r: Vec<ValueKey>)
    ensures
        r@.map_values(|k: ValueKey| k@) == sort_keys(v@.map_values(|k: ValueKey| k@)),
{
    let mut r: Vec<ValueKey> = Vec::new();
    let mut i: usize = 0;
    while i < v.len()
        invariant
            i <= v.len(),
            r@.map_values(|k: ValueKey| k@) == sort_keys(v@.take(i as int).map_values(|k: ValueKey| k@)),
        decreases v.len() - i,
    {
        let ghost rv = r@.map_values(|k: ValueKey| k@);
        let ghost x = v@[i as int]@;
        let mut p: usize = 0;
        while p < r.len() && !key_sorts_before(&v[i], &r[p])
            invariant
                p <= r.len(),
                rv == r@.map_values(|k: ValueKey| k@),
                x == v@[i as int]@,
                i < v.len(),
                key_slot(rv, x, 0) == key_slot(rv, x, p as int),
            decreases r.len() - p,
        {
            p = p + 1;
        }
        let k = v[i].clone();
        let ghost before = r@;
        r.insert(p, k);
        proof {
            assert(key_slot(rv, x, 0) == p);
            assert(r@.map_values(|k: ValueKey| k@) =~= rv.take(p as int) + seq![x] + rv.skip(p as int));
            let pre = v@.take(i + 1).map_values(|k: ValueKey| k@);
            assert(pre.drop_last() =~= v@.take(i as int).map_values(|k: ValueKey| k@));
            assert(pre.last() == x);
        }
        i = i + 1;
    }
    assert(v@.take(v.len() as int) =~= v@);
    r
}


/// The sort keeps keys pairwise different.
pub proof fn lemma_sort_desc_distinct(s: Seq<(KeyView, u64)>)
    requires
        distinct_keys(pair_keys(s)),
    ensures
        distinct_keys(pair_keys(sort_desc(s))),
    decreases s.len(),
{
    broadcast use vstd::seq_lib::group_to_multiset_ensures;
    if s.len() > 0 {
        let d = s.drop_last();
        assert(distinct_keys(pair_keys(d))) by {
            assert forall|i: int, j: int| 0 <= i < j < pair_keys(d).len() implies pair_keys(d)[i] != pair_keys(d)[j] by {
                assert(pair_keys(s)[i] != pair_keys(s)[j]);
            }
        }
        lemma_sort_desc_distinct(d);
        law_sort_desc_permutes(d);
        let t = sort_desc(d);
        let x = s.last();
        let p = prefix_at_least(t, x.1, 0);
        lemma_prefix_at_least_bounds(t, x.1, 0);
        let r = t.take(p) + seq![x] + t.skip(p);
        assert(r == sort_desc(s));
        assert forall|j: int| 0 <= j < t.len() implies t[j].0 != x.0 by {
            assert(t.contains(t[j]));
            assert(t.to_multiset().count(t[j]) > 0);
            assert(d.to_multiset().count(t[j]) > 0);
            assert(d.contains(t[j]));
            let q = choose|q: int| 0 <= q < d.len() && d[q] == t[j];
            assert(pair_keys(s)[q] != pair_keys(s)[s.len() - 1]);
        }
        assert forall|i: int, j: int| 0 <= i < j < pair_keys(r).len() implies pair_keys(r)[i] != pair_keys(r)[j] by {
            if j < p {
                assert(r[i] == t[i] && r[j] == t[j]);
                assert(pair_keys(t)[i] != pair_keys(t)[j]);
            } else if j == p {
                assert(r[i] == t[i]);
            } else if i < p {
                assert(r[i] == t[i] && r[j] == t[j - 1]);
                assert(pair_keys(t)[i] != pair_keys(t)[j - 1]);
            } else if i == p {
                assert(r[j] == t[j - 1]);
            } else {
                assert(r[i] == t[i - 1] && r[j] == t[j - 1]);
                assert(pair_keys(t)[i - 1] != pair_keys(t)[j - 1]);
            }
        }
    }
}

/// The texts of the text keys among `s`, in order.
pub open spec fn str_texts(s: Seq<KeyView>) -> Seq<Seq<char>>
    decreases s.len(),
{
    if s.len() == 0 {
        Seq::empty()
    } else {
        str_texts(s.drop_last()) + match s.last() {
            KeyView::Str(t) => seq![t],
            KeyView::Num(_) => Seq::empty(),
        }
    }
}

/// A text key among `s` gives its text among `str_texts(s)`.
pub proof fn lemma_str_texts_contains(s: Seq<KeyView>, t: Seq<char>)
    requires
        s.contains(KeyView::Str(t)),
    ensures
        str_texts(s).contains(t),
    decreases s.len(),
{
    let d = s.drop_last();
    if s.last() == KeyView::Str(t) {
        let r = str_texts(d) + seq![t];
        assert(str_texts(s) == r);
        assert(r[r.len() - 1] == t);
    } else {
        let i = choose|i: int| 0 <= i < s.len() && s[i] == KeyView::Str(t);
        assert(d[i] == KeyView::Str(t));
        lemma_str_texts_contains(d, t);
        let q = choose|q: int| 0 <= q < str_texts(d).len() && str_texts(d)[q] == t;
        let tail: Seq<Seq<char>> = match s.last() {
            KeyView::Str(u) => seq![u],
            KeyView::Num(_) => Seq::empty(),
        };
        assert(str_texts(s) == str_texts(d) + tail);
        assert(str_texts(s)[q] == t);
    }
}

/// The texts of the text keys in `keys`, in order.
pub fn key_texts(keys: &Vec<ValueKey>) -> (r: Vec<String>)
    ensures
        texts(r@) == str_texts(keys@.map_values(|k: ValueKey| k@)),
{
    let mut r: Vec<String> = Vec::new();
    let mut i: usize = 0;
    while i < keys.len()
        invariant
            i <= keys.len(),
            texts(r@) == str_texts(keys@.take(i as int).map_values(|k: ValueKey| k@)),
        decreases keys.len() - i,
    {
        let ghost before = r@;
        let ghost pre = keys@.take(i + 1).map_values(|k: ValueKey| k@);
        proof {
            assert(pre.drop_last() =~= keys@.take(i as int).map_values(|k: ValueKey| k@));
            assert(pre.last() == keys@[i as int]@);
        }
        match &keys[i] {
            ValueKey::Str(t) => {
                let c = t.clone();
                r.push(c);
                assert(texts(r@) =~= texts(before).push(c@));
                assert(texts(r@) =~= texts(before) + seq![c@]);
            },
            ValueKey::Num(_) => {
                assert(texts(before) =~= texts(before) + Seq::<Seq<char>>::empty());
            },
        }
        i = i + 1;
    }
    assert(keys@.take(keys.len() as int) =~= keys@);
    r
}

}
