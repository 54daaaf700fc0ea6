//! Columnar chunk representation: columns, tables, column metadata and name-keyed column sets.

use crate::text::{decimal, decimal_text};
use std::collections::HashSet;
use vstd::prelude::*;
use vstd::string::StringExecFns;
use vstd::std_specs::iter::IteratorSpec;

verus! {

broadcast use vstd::std_specs::hash::group_hash_axioms;

/// One column of a chunk. Numeric columns hold the bit patterns (`f32::to_bits`) of their
/// 32-bit float values.
#[derive(Debug)]
pub enum ColumnVec {
    F32Bits(Vec<u32>),
    Utf8(Vec<String>),
}

/// The mathematical value of a column.
pub enum ColumnView {
    F32Bits(Seq<u32>),
    Utf8(Seq<Seq<char>>),
}

impl ColumnView {
    /// Number of cells.
    pub open spec fn len(self) -> nat {
        match self {
            ColumnView::F32Bits(v) => v.len(),
            ColumnView::Utf8(v) => v.len(),
        }
    }
}

/// The text values of a vector of strings.
pub open spec fn texts(v: Seq<String>) -> Seq<Seq<char>> {
    v.map_values(|s: String| s@)
}

impl View for ColumnVec {
    type V = ColumnView;

    open spec fn view(&self) -> ColumnView {
        match self {
            ColumnVec::F32Bits(v) => ColumnView::F32Bits(v@),
            ColumnVec::Utf8(v) => ColumnView::Utf8(texts(v@)),
        }
    }
}

/// A copy of a vector of strings.
pub fn clone_strings(v: &Vec<String>) -> (r: Vec<String>)
    ensures
        texts(r@) == texts(v@),
{
    let mut r: Vec<String> = Vec::new();
    let mut i: usize = 0;
    while i < v.len()
        invariant
            i <= v.len(),
            texts(r@) == texts(v@.take(i as int)),
        decreases v.len() - i,
    {
        let ghost before = r@;
        let c = v[i].clone();
        assert(c@ == v@[i as int]@);
        r.push(c);
        assert(v@.take(i + 1) == v@.take(i as int).push(v@[i as int]));
        assert(r@ == before.push(c));
        assert(texts(r@) =~= texts(before).push(c@));
        assert(texts(v@.take(i + 1)) =~= texts(v@.take(i as int)).push(v@[i as int]@));
        i = i + 1;
    }
    assert(v@.take(v.len() as int) == v@);
    r
}

impl Clone for ColumnVec {
    fn clone(&self) -> (r: Self)
        ensures
            r@ == self@,
    {
        match self {
            ColumnVec::F32Bits(v) => {
                let w = v.clone();
                assert(w@ =~= v@);
                ColumnVec::F32Bits(w)
            },
            ColumnVec::Utf8(v) => ColumnVec::Utf8(clone_strings(v)),
        }
    }
}

impl ColumnVec {
    /// Number of cells.
    pub fn len(&self) -> (n: usize)
        ensures
            n == self@.len(),
    {
        match self {
            ColumnVec::F32Bits(v) => v.len(),
            ColumnVec::Utf8(v) => v.len(),
        }
    }

    /// Whether the column has no cells.
    pub fn is_empty(&self) -> (b: bool)
        ensures
            b == (self@.len() == 0),
    {
        self.len() == 0
    }

    /// Whether the column holds numbers.
    pub fn is_numeric(&self) -> (b: bool)
        ensures
            b == (self@ is F32Bits),
    {
        match self {
            ColumnVec::F32Bits(_) => true,
            ColumnVec::Utf8(_) => false,
        }
    }
}

/// Feature matrix columns (no target column), in schema order.
#[derive(Clone, Debug)]
pub struct ChunkTable {
    pub names: Vec<String>,
    pub cols: Vec<ColumnVec>,
}

/// The message for column `i` having `len` rows where the table has `n`.
pub open spec fn length_mismatch_text(i: nat, len: nat, n: nat) -> Seq<char> {
    "column length mismatch: column "@ + decimal_text(i) + " len "@ + decimal_text(len) + " vs "@
        + decimal_text(n)
}

fn length_mismatch_message(i: usize, len: usize, n: usize) -> (s: String)
    ensures
        s@ == length_mismatch_text(i as nat, len as nat, n as nat),
{
    let mut s = String::from_str("column length mismatch: column ");
    s.append(decimal(i).as_str());
    s.append(" len ");
    s.append(decimal(len).as_str());
    s.append(" vs ");
    s.append(decimal(n).as_str());
    s
}

impl ChunkTable {
    /// Row count: the length of the first column, or 0 without columns.
    pub open spec fn spec_nrows(&self) -> nat {
        if self.cols@.len() == 0 {
            0
        } else {
            self.cols@[0]@.len()
        }
    }

    /// Column `i` has a length other than the row count, and every earlier column has it.
    pub open spec fn first_mismatch_at(&self, i: int) -> bool {
        &&& 0 <= i < self.cols@.len()
        &&& self.cols@[i]@.len() != self.spec_nrows()
        &&& forall|j: int| 0 <= j < i ==> self.cols@[j]@.len() == self.spec_nrows()
    }

    /// What `validate` reports: nothing for a rectangular table, else the message for the first
    /// column whose length differs from the row count.
    pub open spec fn validation(&self) -> Option<Seq<char>> {
        if self.is_rectangular() {
            None
        } else {
            let i = choose|i: int| self.first_mismatch_at(i);
            Some(length_mismatch_text(i as nat, self.cols@[i]@.len(), self.spec_nrows()))
        }
    }

    /// All columns have the same length.
    pub open spec fn is_rectangular(&self) -> bool {
        forall|i: int| 0 <= i < self.cols@.len() ==> self.cols@[i]@.len() == self.spec_nrows()
    }

    /// Row count: the length of the first column, or 0 without columns.
    pub fn nrows(&self) -> (n: usize)
        ensures
            n == self.spec_nrows(),
    {
        if self.cols.len() == 0 {
            0
        } else {
            self.cols[0].len()
        }
    }

    /// `Ok` when all columns have the table's row count; otherwise the error names the first
    /// column that does not.
    pub fn validate(&self) -> (r: Result<(), String>)
        ensures
            r is Ok <==> self.validation() is None,
            r matches Err(msg) ==> self.validation() == Some(msg@),
    {
        let n = self.nrows();
        let mut i: usize = 0;
        while i < self.cols.len()
            invariant
                n == self.spec_nrows(),
                i <= self.cols@.len(),
                forall|j: int| 0 <= j < i ==> self.cols@[j]@.len() == self.spec_nrows(),
            decreases self.cols.len() - i,
        {
            let len = self.cols[i].len();
            if len != n {
                let msg = length_mismatch_message(i, len, n);
                proof {
                    assert(self.first_mismatch_at(i as int));
                    let c = choose|c: int| self.first_mismatch_at(c);
                    if c < i {
                        assert(self.cols@[c]@.len() == self.spec_nrows());
                    } else if c > i {
                        assert(self.cols@[i as int]@.len() == self.spec_nrows());
                    }
                }
                return Err(msg);
            }
            i = i + 1;
        }
        Ok(())
    }
}

/// The first column, from `i` on, whose length is not `n`, as its message.
pub open spec fn first_length_problem(lens: Seq<usize>, n: nat, i: int) -> Option<Seq<char>>
    decreases lens.len() - i,
{
    if i < 0 || i >= lens.len() {
        None
    } else if lens[i] != n {
        Some(length_mismatch_text(i as nat, lens[i] as nat, n))
    } else {
        first_length_problem(lens, n, i + 1)
    }
}

/// What a table with columns of lengths `lens` reports: nothing when all have the first
/// column's length, else the message for the first that does not.
pub open spec fn lengths_validation(lens: Seq<usize>) -> Option<Seq<char>> {
    first_length_problem(lens, if lens.len() == 0 { 0 } else { lens[0] as nat }, 0)
}

/// `Ok` when all columns have the first column's length; otherwise the error names the first
/// column that does not.
pub fn validate_lengths(lens: &Vec<usize>) -> (r: Result<(), String>)
    ensures
        match lengths_validation(lens@) {
            Some(e) => r matches Err(m) && m@ == e,
            None => r is Ok,
        },
{
    let n = if lens.len() == 0 {
        0
    } else {
        lens[0]
    };
    let mut i: usize = 0;
    while i < lens.len()
        invariant
            i <= lens@.len(),
            n == (if lens@.len() == 0 { 0 } else { lens@[0] as nat }),
            lengths_validation(lens@) == first_length_problem(lens@, n as nat, i as int),
        decreases lens.len() - i,
    {
        if lens[i] != n {
            return Err(length_mismatch_message(i, lens[i], n));
        }
        i = i + 1;
    }
    Ok(())
}

/// The column indices in `0..k` that are not in `dropped`, ascending.
pub open spec fn active_prefix(dropped: Set<usize>, k: nat) -> Seq<usize>
    decreases k,
{
    if k == 0 {
        Seq::empty()
    } else {
        let p = active_prefix(dropped, (k - 1) as nat);
        if dropped.contains((k - 1) as usize) {
            p
        } else {
            p.push((k - 1) as usize)
        }
    }
}

/// Law: the active indices are strictly ascending and below the number of columns.
pub proof fn law_active_indices_ascending(dropped: Set<usize>, k: nat)
    requires
        k <= usize::MAX,
    ensures
        forall|i: int, j: int| 0 <= i < j < active_prefix(dropped, k).len() ==> active_prefix(dropped, k)[i] < active_prefix(dropped, k)[j],
        forall|i: int| 0 <= i < active_prefix(dropped, k).len() ==> active_prefix(dropped, k)[i] < k,
    decreases k,
{
    if k > 0 {
        let p = active_prefix(dropped, (k - 1) as nat);
        law_active_indices_ascending(dropped, (k - 1) as nat);
        let a = active_prefix(dropped, k);
        if !dropped.contains((k - 1) as usize) {
            assert(a == p.push((k - 1) as usize));
            assert(a.len() == p.len() + 1);
            assert forall|i: int, j: int| 0 <= i < j < a.len() implies a[i] < a[j] by {
                assert(a[i] == p[i]);
                if j < p.len() {
                    assert(a[j] == p[j]);
                    assert(p[i] < p[j]);
                } else {
                    assert(a[j] == k - 1);
                    assert(p[i] < k - 1);
                }
            }
            assert forall|i: int| 0 <= i < a.len() implies a[i] < k by {
                if i < p.len() {
                    assert(a[i] == p[i]);
                }
            }
        } else {
            assert(a == p);
        }
    }
}

/// Law: an index is active exactly when it is below the number of columns and not dropped.
pub proof fn law_active_indices_members(dropped: Set<usize>, k: nat, i: usize)
    requires
        k <= usize::MAX,
    ensures
        active_prefix(dropped, k).contains(i) <==> (i < k && !dropped.contains(i)),
    decreases k,
{
    if k > 0 {
        law_active_indices_members(dropped, (k - 1) as nat, i);
        let p = active_prefix(dropped, (k - 1) as nat);
        let a = active_prefix(dropped, k);
        if !dropped.contains((k - 1) as usize) {
            assert(a == p.push((k - 1) as usize));
            if p.contains(i) {
                let q = choose|q: int| 0 <= q < p.len() && p[q] == i;
                assert(a[q] == i);
            }
            if i == k - 1 {
                assert(a[p.len() as int] == i);
            }
            if a.contains(i) && i != k - 1 {
                let q = choose|q: int| 0 <= q < a.len() && a[q] == i;
                assert(a[p.len() as int] == (k - 1) as usize);
                assert(q < p.len());
                assert(p[q] == i);
            }
        }
    }
}

/// A copy of a set of column indices.
pub fn copy_index_set(s: &HashSet<usize>) -> (r: HashSet<usize>)
    ensures
        r@ == s@,
{
    let mut r: HashSet<usize> = HashSet::new();
    let ghost all = s.iter().remaining().unref();
    for x in it: s.iter()
        invariant
            it.seq().unref() == all,
            all.to_set() == s@,
            r@ == all.take(it.index() as int).to_set(),
    {
        proof {
            assert(all.take(it.index() + 1) == all.take(it.index() as int).push(*x));
            all.take(it.index() as int).lemma_push_to_set_commute(*x);
        }
        r.insert(*x);
    }
    assert(all.take(all.len() as int) == all);
    r
}

/// Column names of a chunk and the indices dropped from binning and pairing.
#[derive(Debug, Default)]
pub struct ColGraph {
    pub names: Vec<String>,
    pub dropped: HashSet<usize>,
}

impl Clone for ColGraph {
    fn clone(&self) -> (r: Self)
        ensures
            texts(r.names@) == texts(self.names@),
            r.dropped@ == self.dropped@,
    {
        ColGraph { names: clone_strings(&self.names), dropped: copy_index_set(&self.dropped) }
    }
}

/// Whether two string vectors hold the same texts.
pub fn same_texts(a: &Vec<String>, b: &Vec<String>) -> (r: bool)
    ensures
        r == (texts(a@) == texts(b@)),
{
    if a.len() != b.len() {
        assert(texts(a@).len() != texts(b@).len());
        return false;
    }
    let mut i: usize = 0;
    while i < a.len()
        invariant
            a.len() == b.len(),
            i <= a.len(),
            forall|j: int| 0 <= j < i ==> a@[j]@ == b@[j]@,
        decreases a.len() - i,
    {
        if a[i] != b[i] {
            assert(texts(a@)[i as int] != texts(b@)[i as int]);
            return false;
        }
        i = i + 1;
    }
    assert(texts(a@) =~= texts(b@));
    true
}

/// Whether two index sets have the same elements.
pub fn same_index_set(a: &HashSet<usize>, b: &HashSet<usize>) -> (r: bool)
    ensures
        r == (a@ == b@),
{
    let ghost all = a.iter().remaining().unref();
    proof {
        vstd::seq_lib::seq_to_set_is_finite(all);
        vstd::seq_lib::seq_to_set_is_finite(b.iter().remaining().unref());
    }
    if a.len() != b.len() {
        return false;
    }
    for x in it: a.iter()
        invariant
            it.seq().unref() == all,
            all.to_set() == a@,
            forall|j: int| 0 <= j < it.index() ==> b@.contains(#[trigger] all[j]),
    {
        if !b.contains(x) {
            assert(a@.contains(*x));
            return false;
        }
    }
    proof {
        assert(a@.subset_of(b@)) by {
            assert forall|y: usize| a@.contains(y) implies b@.contains(y) by {
                assert(all.to_set().contains(y));
                let j = choose|j: int| 0 <= j < all.len() && all[j] == y;
            }
        }
        vstd::set_lib::lemma_subset_equality(a@, b@);
    }
    true
}

impl ColGraph {
    /// Same names in the same order and the same dropped indices.
    pub fn same_as(&self, other: &ColGraph) -> (r: bool)
        ensures
            r == (texts(self.names@) == texts(other.names@) && self.dropped@ == other.dropped@),
    {
        same_texts(&self.names, &other.names) && same_index_set(&self.dropped, &other.dropped)
    }

    /// The indices of the columns that take part in binning and pair interactions.
    pub open spec fn spec_active(&self) -> Seq<usize> {
        active_prefix(self.dropped@, self.names@.len())
    }

    /// Indices of columns that participate in binning / pair interactions, ascending.
    pub fn active_indices(&self) -> (r: Vec<usize>)
        ensures
            r@ == self.spec_active(),
    {
        let mut r: Vec<usize> = Vec::new();
        let mut i: usize = 0;
        while i < self.names.len()
            invariant
                i <= self.names@.len(),
                r@ == active_prefix(self.dropped@, i as nat),
            decreases self.names.len() - i,
        {
            if !self.dropped.contains(&i) {
                r.push(i);
            }
            i = i + 1;
        }
        r
    }
}

}

verus! {

/// Columns keyed by name; inserting a name that is present replaces its column.
#[derive(Debug)]
pub struct NamedColumns {
    entries: Vec<(String, ColumnVec)>,
}

/// The names of a sequence of named columns are pairwise different.
pub open spec fn distinct_names(s: Seq<(String, ColumnVec)>) -> bool {
    forall|i: int, j: int| 0 <= i < j < s.len() ==> s[i].0@ != s[j].0@
}

/// The map from names to column values that a sequence of distinctly named columns denotes.
pub open spec fn named_map(s: Seq<(String, ColumnVec)>) -> Map<Seq<char>, ColumnView> {
    Map::new(
        |k: Seq<char>| exists|i: int| 0 <= i < s.len() && s[i].0@ == k,
        |k: Seq<char>| s[choose|i: int| 0 <= i < s.len() && s[i].0@ == k].1@,
    )
}

proof fn lemma_named_map_at(s: Seq<(String, ColumnVec)>, i: int)
    requires
        distinct_names(s),
        0 <= i < s.len(),
    ensures
        named_map(s).contains_key(s[i].0@),
        named_map(s)[s[i].0@] == s[i].1@,
{
    let k = s[i].0@;
    assert(0 <= i < s.len() && s[i].0@ == k);
    let j = choose|j: int| 0 <= j < s.len() && s[j].0@ == k;
    assert(j == i);
}

impl NamedColumns {
    #[verifier::type_invariant]
    spec fn names_are_distinct(self) -> bool {
        distinct_names(self.entries@)
    }

    /// The entries in insertion order.
    pub closed spec fn entry_seq(&self) -> Seq<(String, ColumnVec)> {
        self.entries@
    }

    /// No columns.
    pub fn new() -> (r: Self)
        ensures
            r@ == Map::<Seq<char>, ColumnView>::empty(),
            r.entry_seq().len() == 0,
    {
        let r = NamedColumns { entries: Vec::new() };
        assert(r@ =~= Map::<Seq<char>, ColumnView>::empty());
        r
    }

    /// Number of columns.
    pub fn len(&self) -> (n: usize)
        ensures
            n == self@.len(),
            n == self.entry_seq().len(),
    {
        proof {
            use_type_invariant(self);
            self.lemma_len();
        }
        self.entries.len()
    }

    proof fn lemma_len(&self)
        requires
            distinct_names(self.entries@),
        ensures
            self@.dom().finite(),
            self@.len() == self.entries@.len(),
        decreases self.entries@.len(),
    {
        let s = self.entries@;
        let names = s.map_values(|e: (String, ColumnVec)| e.0@);
        assert forall|k: Seq<char>| self@.dom().contains(k) <==> names.to_set().contains(k) by {
            if self@.dom().contains(k) {
                let i = choose|i: int| 0 <= i < s.len() && s[i].0@ == k;
                assert(names[i] == k);
            }
            if names.to_set().contains(k) {
                let i = choose|i: int| 0 <= i < names.len() && names[i] == k;
                assert(0 <= i < s.len() && s[i].0@ == k);
            }
        }
        assert(self@.dom() =~= names.to_set());
        assert(names.no_duplicates()) by {
            assert forall|i: int, j: int| 0 <= i < names.len() && 0 <= j < names.len() && i != j implies names[i] != names[j] by {
                if i < j {} else {}
            }
        }
        names.unique_seq_to_set();
    }

    /// Puts `col` under `name`, replacing the column already there.
    pub fn insert(&mut self, name: String, col: ColumnVec)
        ensures
            final(self)@ == old(self)@.insert(name@, col@),
    {
        proof {
            use_type_invariant(&*self);
        }
        let ghost old_entries = self.entries@;
        let mut i: usize = 0;
        while i < self.entries.len()
            invariant
                i <= self.entries@.len(),
                self.entries@ == old_entries,
                distinct_names(old_entries),
                named_map(old_entries) == old(self)@,
                forall|j: int| 0 <= j < i ==> self.entries@[j].0@ != name@,
            decreases self.entries.len() - i,
        {
            if self.entries[i].0 == name {
                let ghost k = name@;
                assert(old_entries[i as int].0@ == k);
                let mut entries: Vec<(String, ColumnVec)> = Vec::new();
        std::mem::swap(&mut entries, &mut self.entries);
                entries.set(i, (name, col));
                proof {
                    assert forall|j: int| 0 <= j < entries@.len() && j != i implies entries@[j] == old_entries[j] by {}
                    assert(entries@[i as int].0@ == k);
                    assert forall|a: int, b: int| 0 <= a < b < entries@.len() implies entries@[a].0@ != entries@[b].0@ by {
                        assert(old_entries[a].0@ != old_entries[b].0@);
                    }
                    assert(named_map(entries@) =~= named_map(old_entries).insert(k, col@)) by {
                        lemma_named_map_at(entries@, i as int);
                        assert forall|key: Seq<char>| #[trigger] named_map(entries@).contains_key(key) implies named_map(old_entries).insert(k, col@).contains_key(key) && named_map(entries@)[key] == named_map(old_entries).insert(k, col@)[key] by {
                            let j = choose|j: int| 0 <= j < entries@.len() && entries@[j].0@ == key;
                            lemma_named_map_at(entries@, j);
                            if j != i {
                                lemma_named_map_at(old_entries, j);
                            }
                        }
                        assert forall|key: Seq<char>| #[trigger] named_map(old_entries).insert(k, col@).contains_key(key) implies named_map(entries@).contains_key(key) by {
                            if key != k {
                                let j = choose|j: int| 0 <= j < old_entries.len() && old_entries[j].0@ == key;
                                assert(entries@[j].0@ == key);
                            }
                        }
                    }
                }
                self.entries = entries;
                return;
            }
            i = i + 1;
        }
        let ghost k = name@;
        let mut entries: Vec<(String, ColumnVec)> = Vec::new();
        std::mem::swap(&mut entries, &mut self.entries);
        entries.push((name, col));
        proof {
            assert(distinct_names(entries@));
            let n = old_entries.len() as int;
            assert(named_map(entries@) =~= named_map(old_entries).insert(k, col@)) by {
                lemma_named_map_at(entries@, n);
                assert forall|key: Seq<char>| #[trigger] named_map(entries@).contains_key(key) implies named_map(old_entries).insert(k, col@).contains_key(key) && named_map(entries@)[key] == named_map(old_entries).insert(k, col@)[key] by {
                    let j = choose|j: int| 0 <= j < entries@.len() && entries@[j].0@ == key;
                    lemma_named_map_at(entries@, j);
                    if j != n {
                        assert(entries@[j] == old_entries[j]);
                        lemma_named_map_at(old_entries, j);
                    }
                }
                assert forall|key: Seq<char>| #[trigger] named_map(old_entries).insert(k, col@).contains_key(key) implies named_map(entries@).contains_key(key) by {
                    if key != k {
                        let j = choose|j: int| 0 <= j < old_entries.len() && old_entries[j].0@ == key;
                        assert(entries@[j].0@ == key);
                    }
                }
            }
        }
        self.entries = entries;
    }

    /// The column under `name`, if any.
    pub fn get(&self, name: &String) -> (r: Option<&ColumnVec>)
        ensures
            match r {
                Some(c) => self@.contains_key(name@) && c@ == self@[name@],
                None => !self@.contains_key(name@),
            },
    {
        proof {
            use_type_invariant(self);
        }
        let mut i: usize = 0;
        while i < self.entries.len()
            invariant
                i <= self.entries@.len(),
                distinct_names(self.entries@),
                forall|j: int| 0 <= j < i ==> self.entries@[j].0@ != name@,
            decreases self.entries.len() - i,
        {
            if self.entries[i].0 == *name {
                proof {
                    lemma_named_map_at(self.entries@, i as int);
                }
                return Some(&self.entries[i].1);
            }
            i = i + 1;
        }
        None
    }

    /// The entries, in insertion order.
    pub fn into_entries(self) -> (v: Vec<(String, ColumnVec)>)
        ensures
            distinct_names(v@),
            named_map(v@) == self@,
    {
        proof {
            use_type_invariant(&self);
        }
        self.entries
    }
}

/// Law: after `insert(name, col)`, `get(name)` gives `col` back, and every other name reads
/// as before (stated over the views that `insert` and `get` are specified by).
pub proof fn law_named_columns_read_after_insert(
    before: Map<Seq<char>, ColumnView>,
    name: Seq<char>,
    col: ColumnView,
    other: Seq<char>,
)
    ensures
        before.insert(name, col).contains_key(name),
        before.insert(name, col)[name] == col,
        other != name ==> before.insert(name, col).contains_key(other) == before.contains_key(other),
        other != name && before.contains_key(other) ==> before.insert(name, col)[other] == before[other],
{
}

impl View for NamedColumns {
    type V = Map<Seq<char>, ColumnView>;

    closed spec fn view(&self) -> Map<Seq<char>, ColumnView> {
        named_map(self.entries@)
    }
}

}
