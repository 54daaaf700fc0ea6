//! Occurrence counts of values, kept in first-seen order.

use crate::preprocess::{KeyView, ValueKey};
use vstd::prelude::*;

verus! {

/// The keys of `keys` are pairwise different.
pub open spec fn distinct_keys(keys: Seq<KeyView>) -> bool {
    forall|i: int, j: int| 0 <= i < j < keys.len() ==> keys[i] != keys[j]
}

/// The map from keys to counts that parallel key and count sequences denote.
pub open spec fn count_map(keys: Seq<KeyView>, counts: Seq<u64>) -> Map<KeyView, u64> {
    Map::new(
        |k: KeyView| keys.contains(k),
        |k: KeyView| counts[choose|i: int| 0 <= i < keys.len() && keys[i] == k],
    )
}

/// The count of `k` in `m`, zero when absent.
pub open spec fn count_in(m: Map<KeyView, u64>, k: KeyView) -> nat {
    if m.contains_key(k) {
        m[k] as nat
    } else {
        0
    }
}

proof fn lemma_count_map_at(keys: Seq<KeyView>, counts: Seq<u64>, i: int)
    requires
        distinct_keys(keys),
        keys.len() == counts.len(),
        0 <= i < keys.len(),
    ensures
        count_map(keys, counts).contains_key(keys[i]),
        count_map(keys, counts)[keys[i]] == counts[i],
{
    let k = keys[i];
    assert(keys.contains(k));
    let j = choose|j: int| 0 <= j < keys.len() && keys[j] == k;
    assert(j == i);
}

proof fn lemma_count_map_set(keys: Seq<KeyView>, counts: Seq<u64>, i: int, c: u64)
    requires
        distinct_keys(keys),
        keys.len() == counts.len(),
        0 <= i < keys.len(),
    ensures
        count_map(keys, counts.update(i, c)) == count_map(keys, counts).insert(keys[i], c),
{
    let m1 = count_map(keys, counts.update(i, c));
    let m2 = count_map(keys, counts).insert(keys[i], c);
    assert forall|k: KeyView| m1.contains_key(k) == m2.contains_key(k) by {}
    assert forall|k: KeyView| #[trigger] m1.contains_key(k) implies m1[k] == m2[k] by {
        let j = choose|j: int| 0 <= j < keys.len() && keys[j] == k;
        lemma_count_map_at(keys, counts.update(i, c), j);
        if j != i {
            lemma_count_map_at(keys, counts, j);
        }
    }
    assert(m1 =~= m2);
}

proof fn lemma_count_map_push(keys: Seq<KeyView>, counts: Seq<u64>, k: KeyView, c: u64)
    requires
        distinct_keys(keys),
        keys.len() == counts.len(),
        !keys.contains(k),
    ensures
        distinct_keys(keys.push(k)),
        count_map(keys.push(k), counts.push(c)) == count_map(keys, counts).insert(k, c),
{
    let ks = keys.push(k);
    let cs = counts.push(c);
    assert forall|a: int, b: int| 0 <= a < b < ks.len() implies ks[a] != ks[b] by {
        if b == keys.len() {
            assert(keys.contains(keys[a]));
        }
    }
    let m1 = count_map(ks, cs);
    let m2 = count_map(keys, counts).insert(k, c);
    assert forall|x: KeyView| m1.contains_key(x) == m2.contains_key(x) by {
        if keys.contains(x) {
            let j = choose|j: int| 0 <= j < keys.len() && keys[j] == x;
            assert(ks[j] == x);
        }
        if ks.contains(x) && x != k {
            let j = choose|j: int| 0 <= j < ks.len() && ks[j] == x;
            assert(keys[j] == x);
        }
        if x == k {
            assert(ks[keys.len() as int] == k);
        }
    }
    assert forall|x: KeyView| #[trigger] m1.contains_key(x) implies m1[x] == m2[x] by {
        let j = choose|j: int| 0 <= j < ks.len() && ks[j] == x;
        lemma_count_map_at(ks, cs, j);
        if j < keys.len() {
            lemma_count_map_at(keys, counts, j);
        }
    }
    assert(m1 =~= m2);
}

/// Counts per value. Keys are kept in the order in which they were first counted.
#[derive(Debug)]
pub struct KeyCounts {
    keys: Vec<ValueKey>,
    counts: Vec<u64>,
}

impl Clone for KeyCounts {
    /// The same keys, in the same order, with the same counts.
    fn clone(&self) -> (r: Self)
        ensures
            r.key_views() == self.key_views(),
            r.count_seq() == self.count_seq(),
            r@ == self@,
    {
        proof {
            use_type_invariant(self);
        }
        let mut keys: Vec<ValueKey> = Vec::new();
        let mut i: usize = 0;
        while i < self.keys.len()
            invariant
                i <= self.keys@.len(),
                keys@.map_values(|k: ValueKey| k@) == self.keys@.take(i as int).map_values(|k: ValueKey| k@),
            decreases self.keys.len() - i,
        {
            let ghost before = keys@;
            let k = self.keys[i].clone();
            keys.push(k);
            proof {
                assert(keys@.map_values(|k: ValueKey| k@) =~= before.map_values(|k: ValueKey| k@).push(self.keys@[i as int]@));
                assert(self.keys@.take(i + 1).map_values(|k: ValueKey| k@) =~= self.keys@.take(i as int).map_values(|k: ValueKey| k@).push(self.keys@[i as int]@));
            }
            i = i + 1;
        }
        assert(self.keys@.take(self.keys@.len() as int) =~= self.keys@);
        let counts = self.counts.clone();
        assert(counts@ =~= self.counts@);
        KeyCounts { keys, counts }
    }
}

impl KeyCounts {
    #[verifier::type_invariant]
    spec fn well_formed(self) -> bool {
        &&& self.keys@.len() == self.counts@.len()
        &&& distinct_keys(self.key_views())
    }

    /// The keys, in first-counted order.
    pub closed spec fn key_views(&self) -> Seq<KeyView> {
        self.keys@.map_values(|k: ValueKey| k@)
    }

    /// The counts, aligned with `key_views`.
    pub closed spec fn count_seq(&self) -> Seq<u64> {
        self.counts@
    }

    /// No counts.
    pub fn new() -> (r: Self)
        ensures
            r@ == Map::<KeyView, u64>::empty(),
            r.key_views().len() == 0,
            r.count_seq().len() == 0,
    {
        let r = KeyCounts { keys: Vec::new(), counts: Vec::new() };
        assert(r@ =~= Map::<KeyView, u64>::empty());
        r
    }

    proof fn lemma_wf(&self)
        requires
            self.keys@.len() == self.counts@.len(),
            distinct_keys(self.key_views()),
        ensures
            self.keys@.len() == self.counts@.len(),
            distinct_keys(self.key_views()),
            self.key_views().len() == self.keys@.len(),
            self.key_views().to_set() == self@.dom(),
    {
        assert(self.key_views().to_set() =~= self@.dom());
    }

    /// Number of distinct keys.
    pub fn len(&self) -> (n: usize)
        ensures
            n == self.key_views().len(),
            n == self@.len(),
    {
        proof {
            use_type_invariant(&*self);
            self.lemma_wf();
            self.key_views().unique_seq_to_set();
        }
        self.keys.len()
    }

    /// Position of `key` in first-counted order.
    fn position(&self, key: &ValueKey) -> (r: Option<usize>)
        ensures
            match r {
                Some(i) => i < self.key_views().len() && self.key_views()[i as int] == key@,
                None => !self.key_views().contains(key@),
            },
    {
        proof {
            use_type_invariant(&*self);
            self.lemma_wf();
        }
        let mut i: usize = 0;
        while i < self.keys.len()
            invariant
                i <= self.keys@.len(),
                self.key_views().len() == self.keys@.len(),
                forall|j: int| 0 <= j < i ==> self.key_views()[j] != key@,
            decreases self.keys.len() - i,
        {
            if self.keys[i].same_key(key) {
                return Some(i);
            }
            i = i + 1;
        }
        None
    }

    /// The count of `key`, if counted.
    pub fn get(&self, key: &ValueKey) -> (r: Option<u64>)
        ensures
            match r {
                Some(c) => self@.contains_key(key@) && c == self@[key@],
                None => !self@.contains_key(key@),
            },
    {
        proof {
            use_type_invariant(&*self);
            self.lemma_wf();
        }
        match self.position(key) {
            Some(i) => {
                proof {
                    lemma_count_map_at(self.key_views(), self.counts@, i as int);
                }
                Some(self.counts[i])
            },
            None => None,
        }
    }

    /// Whether `key` has been counted.
    pub fn contains_key(&self, key: &ValueKey) -> (b: bool)
        ensures
            b == self@.contains_key(key@),
    {
        self.get(key).is_some()
    }

    /// Adds `n` to the count of `key`; a new key goes last.
    pub fn add(&mut self, key: &ValueKey, n: u64)
        requires
            count_in(old(self)@, key@) + n <= u64::MAX,
        ensures
            final(self)@ == old(self)@.insert(key@, (count_in(old(self)@, key@) + n) as u64),
            old(self)@.contains_key(key@) ==> final(self).key_views() == old(self).key_views(),
            !old(self)@.contains_key(key@) ==> final(self).key_views() == old(self).key_views().push(key@),
            !old(self)@.contains_key(key@) ==> final(self).count_seq() == old(self).count_seq().push(n),
    {
        proof {
            use_type_invariant(&*self);
            self.lemma_wf();
        }
        match self.position(key) {
            Some(i) => {
                proof {
                    lemma_count_map_at(self.key_views(), self.counts@, i as int);
                    lemma_count_map_set(self.key_views(), self.counts@, i as int, (self.counts@[i as int] + n) as u64);
                }
                let c = self.counts[i] + n;
                let mut taken = KeyCounts { keys: Vec::new(), counts: Vec::new() };
                std::mem::swap(&mut taken, self);
                let KeyCounts { mut keys, mut counts } = taken;
                counts.set(i, c);
                *self = KeyCounts { keys, counts };
            },
            None => {
                proof {
                    assert(!self@.contains_key(key@));
                    lemma_count_map_push(self.key_views(), self.counts@, key@, n);
                }
                let k = key.clone();
                let mut taken = KeyCounts { keys: Vec::new(), counts: Vec::new() };
                std::mem::swap(&mut taken, self);
                let KeyCounts { mut keys, mut counts } = taken;
                let ghost old_keys = keys@;
                keys.push(k);
                counts.push(n);
                assert(keys@.map_values(|x: ValueKey| x@) =~= old_keys.map_values(|x: ValueKey| x@).push(key@));
                *self = KeyCounts { keys, counts };
            },
        }
    }

    /// Removes `key` and its count; the other keys keep their order.
    pub fn remove(&mut self, key: &ValueKey)
        ensures
            final(self)@ == old(self)@.remove(key@),
            final(self).key_views() == old(self).key_views().filter(other_than(key@)),
    {
        proof {
            use_type_invariant(&*self);
            self.lemma_wf();
        }
        match self.position(key) {
            None => {
                assert(self@ =~= self@.remove(key@));
                proof { lemma_filter_keeps_all(self.key_views(), key@); }
            },
            Some(i) => {
                let mut taken = KeyCounts { keys: Vec::new(), counts: Vec::new() };
                std::mem::swap(&mut taken, self);
                let KeyCounts { mut keys, mut counts } = taken;
                let ghost ok = keys@.map_values(|x: ValueKey| x@);
                let ghost oc = counts@;
                keys.remove(i);
                counts.remove(i);
                let ghost nk = keys@.map_values(|x: ValueKey| x@);
                proof {
                    assert(nk =~= ok.remove(i as int));
                    assert(distinct_keys(nk));
                    let m1 = count_map(nk, counts@);
                    let m2 = count_map(ok, oc).remove(key@);
                    assert forall|x: KeyView| m1.contains_key(x) == m2.contains_key(x) by {
                        if ok.contains(x) && x != key@ {
                            let j = choose|j: int| 0 <= j < ok.len() && ok[j] == x;
                            if j < i { assert(nk[j] == x); } else { assert(nk[j - 1] == x); }
                        }
                        if nk.contains(x) {
                            let j = choose|j: int| 0 <= j < nk.len() && nk[j] == x;
                            if j < i { assert(ok[j] == x); } else { assert(ok[j + 1] == x); }
                        }
                    }
                    assert forall|x: KeyView| #[trigger] m1.contains_key(x) implies m1[x] == m2[x] by {
                        let j = choose|j: int| 0 <= j < nk.len() && nk[j] == x;
                        lemma_count_map_at(nk, counts@, j);
                        if j < i { lemma_count_map_at(ok, oc, j); } else { lemma_count_map_at(ok, oc, j + 1); }
                    }
                    assert(m1 =~= m2);
                    lemma_filter_removes_one(ok, i as int);
                }
                *self = KeyCounts { keys, counts };
            },
        }
    }

    /// Key and count pairs, in first-counted order.
    pub open spec fn items(&self) -> Seq<(KeyView, u64)> {
        Seq::new(self.key_views().len(), |i: int| (self.key_views()[i], self.count_seq()[i]))
    }

    /// The keys and their counts, in first-counted order.
    pub fn entries(&self) -> (v: Vec<(ValueKey, u64)>)
        ensures
            v@.map_values(|e: (ValueKey, u64)| e.0@) == self.key_views(),
            v@.map_values(|e: (ValueKey, u64)| e.1) == self.count_seq(),
            distinct_keys(self.key_views()),
            self.key_views().len() == self.count_seq().len(),
            forall|i: int|
                0 <= i < self.key_views().len() ==> #[trigger] self@[self.key_views()[i]] == self.count_seq()[i],
            self@.dom() == self.key_views().to_set(),
    {
        proof {
            use_type_invariant(&*self);
            self.lemma_wf();
            assert forall|i: int|
                0 <= i < self.key_views().len() implies #[trigger] self@[self.key_views()[i]] == self.count_seq()[i] by {
                lemma_count_map_at(self.key_views(), self.counts@, i);
            }
        }
        let mut v: Vec<(ValueKey, u64)> = Vec::new();
        let mut i: usize = 0;
        while i < self.keys.len()
            invariant
                i <= self.keys@.len(),
                self.keys@.len() == self.counts@.len(),
                v@.map_values(|e: (ValueKey, u64)| e.0@) == self.key_views().take(i as int),
                v@.map_values(|e: (ValueKey, u64)| e.1) == self.count_seq().take(i as int),
            decreases self.keys.len() - i,
        {
            let k = self.keys[i].clone();
            let ghost before = v@;
            v.push((k, self.counts[i]));
            assert(v@ == before.push((k, self.counts@[i as int])));
            assert(self.key_views()[i as int] == k@);
            assert(self.key_views().take(i + 1) =~= self.key_views().take(i as int).push(k@));
            assert(self.count_seq().take(i + 1) =~= self.count_seq().take(i as int).push(self.counts@[i as int]));
            assert(v@.map_values(|e: (ValueKey, u64)| e.0@) =~= self.key_views().take(i + 1));
            assert(v@.map_values(|e: (ValueKey, u64)| e.1) =~= self.count_seq().take(i + 1));
            i = i + 1;
        }
        assert(self.key_views().take(i as int) =~= self.key_views());
        assert(self.count_seq().take(i as int) =~= self.count_seq());
        v
    }
}

/// The predicate "differs from `key`".
pub open spec fn other_than(key: KeyView) -> spec_fn(KeyView) -> bool {
    |k: KeyView| k != key
}

proof fn lemma_filter_keeps_all(s: Seq<KeyView>, key: KeyView)
    requires
        !s.contains(key),
    ensures
        s.filter(other_than(key)) == s,
    decreases s.len(),
{
    reveal(Seq::filter);
    if s.len() > 0 {
        lemma_filter_keeps_all(s.drop_last(), key);
        assert(s.last() != key);
        assert(s =~= s.drop_last().push(s.last()));
    } else {
        assert(s.filter(other_than(key)) =~= s);
    }
}

proof fn lemma_filter_removes_one(s: Seq<KeyView>, i: int)
    requires
        distinct_keys(s),
        0 <= i < s.len(),
    ensures
        s.filter(other_than(s[i])) == s.remove(i),
    decreases s.len(),
{
    reveal(Seq::filter);
    let key = s[i];
    let t = s.drop_last();
    if i == s.len() - 1 {
        assert(!t.contains(key)) by {
            if t.contains(key) {
                let j = choose|j: int| 0 <= j < t.len() && t[j] == key;
                assert(s[j] == s[i]);
            }
        }
        lemma_filter_keeps_all(t, key);
        assert(s.remove(i) =~= t);
        assert(s.filter(other_than(key)) == t.filter(other_than(key)));
    } else {
        assert forall|a: int, b: int| 0 <= a < b < t.len() implies t[a] != t[b] by {
            assert(s[a] != s[b]);
        }
        assert(t[i] == key);
        lemma_filter_removes_one(t, i);
        assert(s.last() != key);
        assert(s.filter(other_than(key)) == t.filter(other_than(key)).push(s.last()));
        assert(s.remove(i) =~= t.remove(i).push(s.last()));
    }
}

impl View for KeyCounts {
    type V = Map<KeyView, u64>;

    closed spec fn view(&self) -> Map<KeyView, u64> {
        count_map(self.key_views(), self.counts@)
    }
}


/// The keys of key and count pairs.
pub open spec fn pair_keys(s: Seq<(KeyView, u64)>) -> Seq<KeyView> {
    s.map_values(|e: (KeyView, u64)| e.0)
}

/// The counts of key and count pairs.
pub open spec fn pair_counts(s: Seq<(KeyView, u64)>) -> Seq<u64> {
    s.map_values(|e: (KeyView, u64)| e.1)
}

/// Counts holding exactly the given pairs, in their order; the keys must be pairwise different.
pub fn counts_from_items(items: &Vec<(ValueKey, u64)>) -> (r: KeyCounts)
    requires
        distinct_keys(items@.map_values(|e: (ValueKey, u64)| e.0@)),
    ensures
        r.key_views() == items@.map_values(|e: (ValueKey, u64)| e.0@),
        r.count_seq() == items@.map_values(|e: (ValueKey, u64)| e.1),
        r@ == count_map(r.key_views(), r.count_seq()),
{
    let mut r = KeyCounts::new();
    let ghost keys = items@.map_values(|e: (ValueKey, u64)| e.0@);
    let mut i: usize = 0;
    while i < items.len()
        invariant
            i <= items.len(),
            keys == items@.map_values(|e: (ValueKey, u64)| e.0@),
            distinct_keys(keys),
            r.key_views() == keys.take(i as int),
            r.count_seq() == items@.map_values(|e: (ValueKey, u64)| e.1).take(i as int),
            r@ == count_map(r.key_views(), r.count_seq()),
        decreases items.len() - i,
    {
        proof {
            assert(!r@.contains_key(keys[i as int])) by {
                if r@.contains_key(keys[i as int]) {
                    let j = choose|j: int| 0 <= j < keys.take(i as int).len() && keys.take(i as int)[j] == keys[i as int];
                    assert(keys[j] == keys[i as int]);
                }
            }
        }
        r.add(&items[i].0, items[i].1);
        proof {
            assert(keys.take(i + 1) =~= keys.take(i as int).push(keys[i as int]));
            assert(items@.map_values(|e: (ValueKey, u64)| e.1).take(i + 1) =~= items@.map_values(|e: (ValueKey, u64)| e.1).take(i as int).push(items@[i as int].1));
            use_type_invariant(&r);
        }
        i = i + 1;
    }
    assert(keys.take(items.len() as int) =~= keys);
    assert(items@.map_values(|e: (ValueKey, u64)| e.1).take(items.len() as int) =~= items@.map_values(|e: (ValueKey, u64)| e.1));
    r
}

}
