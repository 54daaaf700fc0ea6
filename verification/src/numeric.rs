//! Numerical bins over float bit patterns: the bin bounds from the kept values and the range
//! seen, and the bin each value falls in. Bounds and values are compared as floats through
//! their bit patterns; writing bounds as labels is left to the caller.

use crate::order::{bits_are_nan, bits_rank, nan_bits, rank_before};
use crate::preprocess::{KeyView, ValueKey};
use crate::table::texts;
use vstd::prelude::*;
use vstd::string::StringExecFns;

verus! {

/// The bit patterns of the numeric keys among `s`, in order.
pub open spec fn num_bits(s: Seq<KeyView>) -> Seq<u32>
    decreases s.len(),
{
    if s.len() == 0 {
        Seq::empty()
    } else {
        num_bits(s.drop_last()) + match s.last() {
            KeyView::Num(b) => seq![b],
            KeyView::Str(_) => Seq::empty(),
        }
    }
}

/// First index at or after `j` whose value lies above `x` (or the length).
pub open spec fn rank_slot(s: Seq<u32>, x: u32, j: int) -> int
    decreases s.len() - j,
{
    if j < 0 || j >= s.len() || bits_rank(x) < bits_rank(s[j]) {
        j
    } else {
        rank_slot(s, x, j + 1)
    }
}

/// Stable insertion sort of float bit patterns by value: each goes after every earlier one that
/// does not lie above it.
pub open spec fn sort_ranks(s: Seq<u32>) -> Seq<u32>
    decreases s.len(),
{
    if s.len() == 0 {
        s
    } else {
        let t = sort_ranks(s.drop_last());
        let p = rank_slot(t, s.last(), 0);
        t.take(p) + seq![s.last()] + t.skip(p)
    }
}

/// The sorted bin values widened to the range seen: the least value seen goes first when it
/// lies below them, and the greatest value seen takes the last place when it lies above them.
pub open spec fn widen(nums: Seq<u32>, min_bits: u32, max_bits: u32) -> Seq<u32> {
    let a = if bits_rank(min_bits) < bits_rank(nums[0]) {
        seq![min_bits] + nums
    } else {
        nums
    };
    if bits_rank(max_bits) > bits_rank(a.last()) {
        a.update(a.len() - 1, max_bits)
    } else {
        a
    }
}

/// The bounds of the numerical bins of a column whose kept values are `keys`, seen between
/// `min_bits` and `max_bits`: consecutive bounds delimit one bin. None without numeric keys.
pub open spec fn bin_bounds(keys: Seq<KeyView>, min_bits: u32, max_bits: u32) -> Seq<u32> {
    let nums = sort_ranks(num_bits(keys));
    if nums.len() == 0 {
        Seq::empty()
    } else {
        sort_ranks(widen(nums, min_bits, max_bits))
    }
}

/// The bin of `x` from the `j`-th on: the first `k` with `bounds[k] <= x < bounds[k + 1]`.
/// A NaN lies in no bin.
pub open spec fn bin_from(bounds: Seq<u32>, x: u32, j: int) -> Option<int>
    decreases bounds.len() - j,
{
    if j < 0 || j + 1 >= bounds.len() || bits_are_nan(x) {
        None
    } else if bits_rank(bounds[j]) <= bits_rank(x) && bits_rank(x) < bits_rank(bounds[j + 1]) {
        Some(j)
    } else {
        bin_from(bounds, x, j + 1)
    }
}

/// The label of value `x`: its bin's label, or `other` outside every bin.
pub open spec fn bin_label(bounds: Seq<u32>, labels: Seq<Seq<char>>, x: u32) -> Seq<char> {
    match bin_from(bounds, x, 0) {
        Some(k) => labels[k],
        None => "other"@,
    }
}

proof fn lemma_rank_slot_bounds(s: Seq<u32>, x: u32, j: int)
    requires
        0 <= j <= s.len(),
    ensures
        j <= rank_slot(s, x, j) <= s.len(),
    decreases s.len() - j,
{
    if j < s.len() && !(bits_rank(x) < bits_rank(s[j])) {
        lemma_rank_slot_bounds(s, x, j + 1);
    }
}

proof fn lemma_sort_ranks_len(s: Seq<u32>)
    ensures
        sort_ranks(s).len() == s.len(),
    decreases s.len(),
{
    if s.len() > 0 {
        lemma_sort_ranks_len(s.drop_last());
        lemma_rank_slot_bounds(sort_ranks(s.drop_last()), s.last(), 0);
    }
}

/// `s` sorted by float value (stable insertion sort); `s` holds no NaN.
fn sorted_by_rank(s: &Vec<u32>) -> (r: Vec<u32>)
    ensures
        r@ == sort_ranks(s@),
{
    let mut r: Vec<u32> = Vec::new();
    let mut i: usize = 0;
    while i < s.len()
        invariant
            i <= s@.len(),
            r@ == sort_ranks(s@.take(i as int)),
        decreases s.len() - i,
    {
        let ghost rv = r@;
        let x = s[i];
        let mut p: usize = 0;
        while p < r.len() && !rank_before(x, r[p])
            invariant
                p <= r@.len(),
                rv == r@,
                rank_slot(rv, x, 0) == rank_slot(rv, x, p as int),
            decreases r.len() - p,
        {
            p = p + 1;
        }
        r.insert(p, x);
        proof {
            assert(rank_slot(rv, x, 0) == p);
            assert(r@ =~= rv.take(p as int) + seq![x] + rv.skip(p as int));
            let pre = s@.take(i + 1);
            assert(pre.drop_last() =~= s@.take(i as int));
            assert(pre.last() == x);
        }
        i = i + 1;
    }
    assert(s@.take(s@.len() as int) =~= s@);
    r
}

/// The bit patterns of the numeric keys of `keys`, in order.
fn numeric_key_bits(keys: &Vec<ValueKey>) -> (r: Vec<u32>)
    ensures
        r@ == num_bits(keys@.map_values(|k: ValueKey| k@)),
{
    let mut r: Vec<u32> = Vec::new();
    let mut i: usize = 0;
    while i < keys.len()
        invariant
            i <= keys@.len(),
            r@ == num_bits(keys@.take(i as int).map_values(|k: ValueKey| k@)),
        decreases keys.len() - i,
    {
        let ghost pre = keys@.take(i + 1).map_values(|k: ValueKey| k@);
        proof {
            assert(pre.drop_last() =~= keys@.take(i as int).map_values(|k: ValueKey| k@));
            assert(pre.last() == keys@[i as int]@);
        }
        match keys[i].as_num_bits() {
            Some(b) => {
                r.push(b);
                assert(r@ =~= num_bits(keys@.take(i as int).map_values(|k: ValueKey| k@)) + seq![b]);
            },
            None => {
                assert(r@ =~= num_bits(keys@.take(i as int).map_values(|k: ValueKey| k@)) + Seq::<u32>::empty());
            },
        }
        i = i + 1;
    }
    assert(keys@.take(keys@.len() as int) =~= keys@);
    r
}

/// The bounds of the numerical bins of a column whose kept values are `keys` and whose values
/// were seen between `min_bits` and `max_bits` (float bit patterns, none of them NaN).
pub fn numerical_bounds(keys: &Vec<ValueKey>, min_bits: u32, max_bits: u32) -> (r: Vec<u32>)
    ensures
        r@ == bin_bounds(keys@.map_values(|k: ValueKey| k@), min_bits, max_bits),
        num_bits(keys@.map_values(|k: ValueKey| k@)).len() > 0 ==> {
            &&& r@.len() >= 1
            &&& bits_rank(max_bits) <= bits_rank(r@.last())
            &&& r@.len() >= 2 ==> bits_rank(r@[0]) <= bits_rank(min_bits)
        },
{
    let raw = numeric_key_bits(keys);
    let nums = sorted_by_rank(&raw);
    if nums.len() == 0 {
        return Vec::new();
    }
    let mut a: Vec<u32> = Vec::new();
    if rank_before(min_bits, nums[0]) {
        a.push(min_bits);
    }
    let mut i: usize = 0;
    let ghost start = a@;
    while i < nums.len()
        invariant
            i <= nums@.len(),
            a@ == start + nums@.take(i as int),
        decreases nums.len() - i,
    {
        a.push(nums[i]);
        assert(a@ =~= start + nums@.take(i + 1));
        i = i + 1;
    }
    assert(nums@.take(nums@.len() as int) =~= nums@);
    proof {
        if bits_rank(min_bits) < bits_rank(nums@[0]) {
            assert(a@ =~= seq![min_bits] + nums@);
        } else {
            assert(a@ =~= nums@);
        }
    }
    let last = a.len() - 1;
    if rank_before(a[last], max_bits) {
        a.set(last, max_bits);
    }
    proof {
        law_bin_bounds_cover_range(keys@.map_values(|k: ValueKey| k@), min_bits, max_bits);
    }
    sorted_by_rank(&a)
}

/// The bin of `x`: the first `k` with `bounds[k] <= x < bounds[k + 1]` as floats.
pub fn bin_index(bounds: &Vec<u32>, x: u32) -> (r: Option<usize>)
    ensures
        match bin_from(bounds@, x, 0) {
            Some(k) => r == Some(k as usize),
            None => r is None,
        },
{
    if nan_bits(x) {
        return None;
    }
    if bounds.len() < 2 {
        return None;
    }
    let mut k: usize = 0;
    while k < bounds.len() - 1
        invariant
            k <= bounds@.len() - 1,
            bounds@.len() >= 2,
            !bits_are_nan(x),
            bin_from(bounds@, x, 0) == bin_from(bounds@, x, k as int),
        decreases bounds.len() - k,
    {
        if !rank_before(x, bounds[k]) && rank_before(x, bounds[k + 1]) {
            return Some(k);
        }
        k = k + 1;
    }
    None
}

/// The label of every value of `values`: the label of its bin, or `other` outside every bin
/// (every value when there are no bins). `labels` holds one label per bin.
pub fn map_numerical_bins(bounds: &Vec<u32>, labels: &Vec<String>, values: &Vec<u32>) -> (r: Vec<String>)
    requires
        bounds@.len() >= 2 ==> labels@.len() == bounds@.len() - 1,
    ensures
        texts(r@) == values@.map_values(|x: u32| bin_label(bounds@, texts(labels@), x)),
{
    let mut r: Vec<String> = Vec::new();
    let mut i: usize = 0;
    while i < values.len()
        invariant
            i <= values@.len(),
            bounds@.len() >= 2 ==> labels@.len() == bounds@.len() - 1,
            texts(r@) == values@.take(i as int).map_values(|x: u32| bin_label(bounds@, texts(labels@), x)),
        decreases values.len() - i,
    {
        let x = values[i];
        let blen = bounds.len();
        let label = match bin_index(bounds, x) {
            Some(k) => {
                proof {
                    lemma_bin_from_bounds(bounds@, x, 0);
                }
                let l = labels[k].clone();
                proof {
                    let b = bin_from(bounds@, x, 0);
                    assert(b is Some);
                    let k2 = b->0;
                    assert(0 <= k2 && k2 + 1 < bounds@.len());
                    assert(bounds@.len() <= usize::MAX);
                    assert(k == k2 as usize);
                    assert(k as int == k2);
                }
                assert(bin_from(bounds@, x, 0) == Some(k as int));
                assert(l@ == texts(labels@)[k as int]);
                assert(l@ == bin_label(bounds@, texts(labels@), x));
                l
            },
            None => {
                let l = String::from_str("other");
                assert(bin_from(bounds@, x, 0) is None);
                assert(l@ == bin_label(bounds@, texts(labels@), x));
                l
            },
        };
        let ghost before = r@;
        let ghost lv = label@;
        r.push(label);
        proof {
            assert(lv == bin_label(bounds@, texts(labels@), x));
            assert(texts(r@) =~= texts(before).push(lv));
            assert(values@.take(i + 1).map_values(|x: u32| bin_label(bounds@, texts(labels@), x)) =~= values@.take(i as int).map_values(|x: u32| bin_label(bounds@, texts(labels@), x)).push(lv));
        }
        i = i + 1;
    }
    assert(values@.take(values@.len() as int) =~= values@);
    r
}

proof fn lemma_bin_from_bounds(bounds: Seq<u32>, x: u32, j: int)
    requires
        0 <= j,
    ensures
        bin_from(bounds, x, j) matches Some(k) ==> j <= k && k + 1 < bounds.len(),
    decreases bounds.len() - j,
{
    if j + 1 < bounds.len() && !bits_are_nan(x) && !(bits_rank(bounds[j]) <= bits_rank(x) && bits_rank(x) < bits_rank(bounds[j + 1])) {
        lemma_bin_from_bounds(bounds, x, j + 1);
    }
}


/// Bit patterns in ascending float order.
pub open spec fn rank_ascending(s: Seq<u32>) -> bool {
    forall|i: int, j: int| 0 <= i < j < s.len() ==> bits_rank(s[i]) <= bits_rank(s[j])
}

/// Law: the sort puts float bit patterns in ascending order.
pub proof fn law_sort_ranks_ascending(s: Seq<u32>)
    ensures
        rank_ascending(sort_ranks(s)),
    decreases s.len(),
{
    if s.len() > 0 {
        law_sort_ranks_ascending(s.drop_last());
        let t = sort_ranks(s.drop_last());
        let x = s.last();
        let p = rank_slot(t, x, 0);
        lemma_rank_slot_bounds(t, x, 0);
        lemma_rank_slot_split(t, x, 0);
        let r = sort_ranks(s);
        assert(r == t.take(p) + seq![x] + t.skip(p));
        assert forall|i: int, j: int| 0 <= i < j < r.len() implies bits_rank(r[i]) <= bits_rank(r[j]) by {
            if j < p {
                assert(r[i] == t[i] && r[j] == t[j]);
            } else if j == p {
                assert(r[i] == t[i]);
            } else if i < p {
                assert(r[i] == t[i] && r[j] == t[j - 1]);
            } else if i == p {
                assert(r[j] == t[j - 1]);
            } else {
                assert(r[i] == t[i - 1] && r[j] == t[j - 1]);
            }
        }
    }
}

/// Before the slot every value lies at or below `x`; from it on, when the sequence is
/// ascending, every value lies above `x`.
proof fn lemma_rank_slot_split(s: Seq<u32>, x: u32, j: int)
    requires
        0 <= j <= s.len(),
        rank_ascending(s),
        forall|i: int| 0 <= i < j ==> bits_rank(#[trigger] s[i]) <= bits_rank(x),
    ensures
        forall|i: int| 0 <= i < rank_slot(s, x, j) ==> bits_rank(#[trigger] s[i]) <= bits_rank(x),
        forall|i: int| rank_slot(s, x, j) <= i < s.len() ==> bits_rank(x) < bits_rank(#[trigger] s[i]),
    decreases s.len() - j,
{
    if j < s.len() && !(bits_rank(x) < bits_rank(s[j])) {
        lemma_rank_slot_split(s, x, j + 1);
    } else if j < s.len() {
        assert forall|i: int| j <= i < s.len() implies bits_rank(x) < bits_rank(#[trigger] s[i]) by {
            if i > j {
                assert(bits_rank(s[j]) <= bits_rank(s[i]));
            }
        }
    }
}

/// Law: the bin bounds are in ascending float order.
pub proof fn law_bin_bounds_ascending(keys: Seq<KeyView>, min_bits: u32, max_bits: u32)
    ensures
        rank_ascending(bin_bounds(keys, min_bits, max_bits)),
{
    let nums = sort_ranks(num_bits(keys));
    if nums.len() > 0 {
        law_sort_ranks_ascending(widen(nums, min_bits, max_bits));
    }
}

/// Law: with ascending bounds, a value's bin is the only bin holding it, and every non-NaN
/// value from the first bound up to (not including) the last lies in a bin.
pub proof fn law_bins_partition(bounds: Seq<u32>, x: u32)
    requires
        rank_ascending(bounds),
    ensures
        bin_from(bounds, x, 0) matches Some(k) ==> forall|q: int|
            0 <= q && q + 1 < bounds.len() && q != k ==> !(bits_rank(bounds[q]) <= bits_rank(x) && bits_rank(x) < bits_rank(
                #[trigger] bounds[q + 1],
            )),
        bounds.len() >= 2 && !bits_are_nan(x) && bits_rank(bounds[0]) <= bits_rank(x) && bits_rank(x) < bits_rank(
            bounds[bounds.len() - 1],
        ) ==> bin_from(bounds, x, 0) is Some,
{
    lemma_bin_from_found(bounds, x, 0);
    if let Some(k) = bin_from(bounds, x, 0) {
        lemma_bin_from_bounds(bounds, x, 0);
        assert forall|q: int| 0 <= q && q + 1 < bounds.len() && q != k implies !(bits_rank(bounds[q]) <= bits_rank(x) && bits_rank(x) < bits_rank(
            #[trigger] bounds[q + 1],
        )) by {
            if q < k {
                assert(bits_rank(bounds[q + 1]) <= bits_rank(bounds[k]));
            } else {
                assert(bits_rank(bounds[k + 1]) <= bits_rank(bounds[q]));
            }
        }
    }
}

/// The search finds the first bin holding `x` from `j` on, and finds one whenever `x` lies
/// between `bounds[j]` and the last bound.
proof fn lemma_bin_from_found(bounds: Seq<u32>, x: u32, j: int)
    requires
        0 <= j,
        rank_ascending(bounds),
    ensures
        bin_from(bounds, x, j) matches Some(k) ==> bits_rank(bounds[k]) <= bits_rank(x) && bits_rank(x) < bits_rank(bounds[k + 1]),
        j + 1 < bounds.len() && !bits_are_nan(x) && bits_rank(bounds[j]) <= bits_rank(x) && bits_rank(x) < bits_rank(
            bounds[bounds.len() - 1],
        ) ==> bin_from(bounds, x, j) is Some,
    decreases bounds.len() - j,
{
    if j + 1 < bounds.len() && !bits_are_nan(x) && !(bits_rank(bounds[j]) <= bits_rank(x) && bits_rank(x) < bits_rank(bounds[j + 1])) {
        lemma_bin_from_found(bounds, x, j + 1);
    }
}


/// The sort keeps the length and the elements.
proof fn lemma_sort_ranks_elems(s: Seq<u32>)
    ensures
        sort_ranks(s).len() == s.len(),
        forall|y: u32| #[trigger] sort_ranks(s).contains(y) <==> s.contains(y),
    decreases s.len(),
{
    if s.len() > 0 {
        let d = s.drop_last();
        let x = s.last();
        lemma_sort_ranks_elems(d);
        let t = sort_ranks(d);
        let p = rank_slot(t, x, 0);
        lemma_rank_slot_bounds(t, x, 0);
        let r = sort_ranks(s);
        assert(r == t.take(p) + seq![x] + t.skip(p));
        assert forall|y: u32| #[trigger] r.contains(y) <==> s.contains(y) by {
            if r.contains(y) {
                let q = choose|q: int| 0 <= q < r.len() && r[q] == y;
                if q < p {
                    assert(r[q] == t[q]);
                    assert(t.contains(y));
                    assert(d.contains(y));
                    let w = choose|w: int| 0 <= w < d.len() && d[w] == y;
                    assert(s[w] == y);
                } else if q == p {
                    assert(s[s.len() - 1] == y);
                } else {
                    assert(r[q] == t[q - 1]);
                    assert(t.contains(y));
                    assert(d.contains(y));
                    let w = choose|w: int| 0 <= w < d.len() && d[w] == y;
                    assert(s[w] == y);
                }
            }
            if s.contains(y) {
                let w = choose|w: int| 0 <= w < s.len() && s[w] == y;
                if w == s.len() - 1 {
                    assert(r[p] == y);
                } else {
                    assert(d[w] == y);
                    assert(d.contains(y));
                    assert(t.contains(y));
                    let q = choose|q: int| 0 <= q < t.len() && t[q] == y;
                    if q < p {
                        assert(r[q] == t[q]);
                    } else {
                        assert(r[q + 1] == t[q]);
                    }
                }
            }
        }
    }
}

/// In an ascending sequence, every element lies between the first and the last.
proof fn lemma_ascending_ends(b: Seq<u32>, y: u32)
    requires
        rank_ascending(b),
        b.contains(y),
    ensures
        bits_rank(b[0]) <= bits_rank(y) <= bits_rank(b.last()),
{
    let q = choose|q: int| 0 <= q < b.len() && b[q] == y;
    if q > 0 {
        assert(bits_rank(b[0]) <= bits_rank(b[q]));
    }
    if q < b.len() - 1 {
        assert(bits_rank(b[q]) <= bits_rank(b[b.len() - 1]));
    }
}

/// Law: with at least one kept numeric value, the bounds reach the whole range seen. The last
/// bound is the greater, as floats, of the greatest kept value and the greatest value seen
/// (and is one of the two); with two bounds or more the first lies at or below the least
/// value seen, so every non-NaN value from the least seen up to (not including) the greatest
/// seen falls in a bin.
pub proof fn law_bin_bounds_cover_range(keys: Seq<KeyView>, min_bits: u32, max_bits: u32)
    requires
        num_bits(keys).len() > 0,
    ensures
        bin_bounds(keys, min_bits, max_bits).len() >= 1,
        forall|i: int| 0 <= i < num_bits(keys).len() ==> bits_rank(#[trigger] num_bits(keys)[i]) <= bits_rank(
            bin_bounds(keys, min_bits, max_bits).last(),
        ),
        bits_rank(max_bits) <= bits_rank(bin_bounds(keys, min_bits, max_bits).last()),
        bin_bounds(keys, min_bits, max_bits).last() == max_bits || num_bits(keys).contains(
            bin_bounds(keys, min_bits, max_bits).last(),
        ),
        bin_bounds(keys, min_bits, max_bits).len() >= 2 ==> bits_rank(bin_bounds(keys, min_bits, max_bits)[0]) <= bits_rank(min_bits),
        bin_bounds(keys, min_bits, max_bits).len() >= 2 ==> forall|x: u32| !bits_are_nan(x) && bits_rank(min_bits) <= bits_rank(x)
            && bits_rank(x) < bits_rank(max_bits) ==> (#[trigger] bin_from(bin_bounds(keys, min_bits, max_bits), x, 0)) is Some,
{
    let ks = num_bits(keys);
    let nums = sort_ranks(ks);
    lemma_sort_ranks_elems(ks);
    law_sort_ranks_ascending(ks);
    let n = nums.len();
    let top = nums[n - 1];
    assert forall|i: int| 0 <= i < ks.len() implies bits_rank(#[trigger] ks[i]) <= bits_rank(top) by {
        assert(ks.contains(ks[i]));
        assert(nums.contains(ks[i]));
        lemma_ascending_ends(nums, ks[i]);
    }
    let pre = bits_rank(min_bits) < bits_rank(nums[0]);
    let a = if pre { seq![min_bits] + nums } else { nums };
    assert(a.last() == top);
    let w = widen(nums, min_bits, max_bits);
    let big = bits_rank(max_bits) > bits_rank(top);
    assert(w == if big { a.update(a.len() - 1, max_bits) } else { a });
    let m = if big { bits_rank(max_bits) } else { bits_rank(top) };
    // Every element of the widened bounds ranks at most `m`, and its last one ranks `m`.
    assert forall|q: int| 0 <= q < w.len() implies bits_rank(#[trigger] w[q]) <= m by {
        if q == w.len() - 1 {
        } else if pre && q == 0 {
            assert(w[0] == min_bits);
            lemma_ascending_ends(nums, nums[0]);
        } else {
            let qi = if pre { q - 1 } else { q };
            assert(w[q] == nums[qi]);
            assert(nums.contains(nums[qi]));
            lemma_ascending_ends(nums, nums[qi]);
        }
    }
    let b = bin_bounds(keys, min_bits, max_bits);
    assert(b == sort_ranks(w));
    lemma_sort_ranks_elems(w);
    law_sort_ranks_ascending(w);
    assert(b.len() == w.len());
    assert(w.len() >= 1);
    let wl = w[w.len() - 1];
    assert(w.contains(wl));
    assert(b.contains(wl));
    lemma_ascending_ends(b, wl);
    assert(b.contains(b.last()));
    assert(w.contains(b.last()));
    let ql = choose|q: int| 0 <= q < w.len() && w[q] == b.last();
    assert(bits_rank(w[ql]) <= m);
    assert(bits_rank(b.last()) == m);
    // The last bound is the greatest value seen or a kept value.
    if b.last() != max_bits {
        if pre && ql == 0 {
            lemma_ascending_ends(nums, nums[0]);
            assert(bits_rank(min_bits) < bits_rank(nums[0]));
            assert(bits_rank(nums[0]) <= bits_rank(top));
            assert(false);
        }
        if ql == w.len() - 1 && big {
            assert(false);
        }
        let qi = if pre { ql - 1 } else { ql };
        assert(w[ql] == nums[qi]);
        assert(nums.contains(nums[qi]));
        assert(ks.contains(b.last()));
    }
    if b.len() >= 2 {
        if pre {
            assert(w[0] == min_bits);
            assert(w.contains(min_bits));
            assert(b.contains(min_bits));
            lemma_ascending_ends(b, min_bits);
        } else {
            assert(n >= 2);
            assert(w[0] == nums[0]);
            assert(w.contains(nums[0]));
            assert(b.contains(nums[0]));
            lemma_ascending_ends(b, nums[0]);
        }
        assert forall|x: u32| !bits_are_nan(x) && bits_rank(min_bits) <= bits_rank(x) && bits_rank(x) < bits_rank(max_bits) implies (#[trigger] bin_from(b, x, 0)) is Some by {
            law_bins_partition(b, x);
        }
    }
}

}
