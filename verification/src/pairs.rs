//! Unordered value pairs and their accumulated counts.

use vstd::prelude::*;

verus! {

/// The canonical key of the unordered pair `{a, b}`: the smaller value first.
pub open spec fn canonical(a: i32, b: i32) -> (i32, i32) {
    if a <= b {
        (a, b)
    } else {
        (b, a)
    }
}

/// Canonical key `(min, max)` of the unordered value pair `{a, b}`.
pub fn canonical_val_pair(a: i32, b: i32) -> (r: (i32, i32))
    ensures
        r == canonical(a, b),
{
    if a <= b {
        (a, b)
    } else {
        (b, a)
    }
}

/// Law: the canonical key does not depend on the order of the pair, and is ordered.
pub proof fn law_canonical_pair_commutes(a: i32, b: i32)
    ensures
        canonical(a, b) == canonical(b, a),
        canonical(a, b).0 <= canonical(a, b).1,
        (canonical(a, b) == (a, b)) || (canonical(a, b) == (b, a)),
{
}

/// The keys of `keys` are pairwise different.
pub open spec fn distinct_pairs(keys: Seq<(i32, i32)>) -> bool {
    forall|i: int, j: int| 0 <= i < j < keys.len() ==> keys[i] != keys[j]
}

/// The map that parallel key and count sequences denote.
pub open spec fn pair_map(keys: Seq<(i32, i32)>, counts: Seq<u64>) -> Map<(i32, i32), u64> {
    Map::new(
        |k: (i32, i32)| keys.contains(k),
        |k: (i32, i32)| counts[choose|i: int| 0 <= i < keys.len() && keys[i] == k],
    )
}

/// The count of `k` in `m`, zero when absent.
pub open spec fn pair_count(m: Map<(i32, i32), u64>, k: (i32, i32)) -> nat {
    if m.contains_key(k) {
        m[k] as nat
    } else {
        0
    }
}

proof fn lemma_pair_map_at(keys: Seq<(i32, i32)>, counts: Seq<u64>, i: int)
    requires
        distinct_pairs(keys),
        keys.len() == counts.len(),
        0 <= i < keys.len(),
    ensures
        pair_map(keys, counts).contains_key(keys[i]),
        pair_map(keys, counts)[keys[i]] == counts[i],
{
    let k = keys[i];
    assert(keys.contains(k));
    let j = choose|j: int| 0 <= j < keys.len() && keys[j] == k;
    assert(j == i);
}

proof fn lemma_pair_map_set(keys: Seq<(i32, i32)>, counts: Seq<u64>, i: int, c: u64)
    requires
        distinct_pairs(keys),
        keys.len() == counts.len(),
        0 <= i < keys.len(),
    ensures
        pair_map(keys, counts.update(i, c)) == pair_map(keys, counts).insert(keys[i], c),
{
    let m1 = pair_map(keys, counts.update(i, c));
    let m2 = pair_map(keys, counts).insert(keys[i], c);
    assert forall|k: (i32, i32)| m1.contains_key(k) == m2.contains_key(k) by {}
    assert forall|k: (i32, i32)| #[trigger] m1.contains_key(k) implies m1[k] == m2[k] by {
        let j = choose|j: int| 0 <= j < keys.len() && keys[j] == k;
        lemma_pair_map_at(keys, counts.update(i, c), j);
        if j != i {
            lemma_pair_map_at(keys, counts, j);
        }
    }
    assert(m1 =~= m2);
}

proof fn lemma_pair_map_push(keys: Seq<(i32, i32)>, counts: Seq<u64>, k: (i32, i32), c: u64)
    requires
        distinct_pairs(keys),
        keys.len() == counts.len(),
        !keys.contains(k),
    ensures
        distinct_pairs(keys.push(k)),
        pair_map(keys.push(k), counts.push(c)) == pair_map(keys, counts).insert(k, c),
{
    let ks = keys.push(k);
    let cs = counts.push(c);
    assert forall|a: int, b: int| 0 <= a < b < ks.len() implies ks[a] != ks[b] by {
        if b == keys.len() {
            assert(keys.contains(keys[a]));
        }
    }
    let m1 = pair_map(ks, cs);
    let m2 = pair_map(keys, counts).insert(k, c);
    assert forall|x: (i32, i32)| m1.contains_key(x) == m2.contains_key(x) by {
        if keys.contains(x) {
            let j = choose|j: int| 0 <= j < keys.len() && keys[j] == x;
            assert(ks[j] == x);
        }
        if ks.contains(x) && x != k {
            let j = choose|j: int| 0 <= j < ks.len() && ks[j] == x;
            assert(keys[j] == x);
        }
        if x == k {
            assert(ks[keys.len() as int] == k);
        }
    }
    assert forall|x: (i32, i32)| #[trigger] m1.contains_key(x) implies m1[x] == m2[x] by {
        let j = choose|j: int| 0 <= j < ks.len() && ks[j] == x;
        lemma_pair_map_at(ks, cs, j);
        if j < keys.len() {
            lemma_pair_map_at(keys, counts, j);
        }
    }
    assert(m1 =~= m2);
}

/// Counts per value pair, keys kept in first-seen order.
#[derive(Debug)]
pub struct PairCounts {
    keys: Vec<(i32, i32)>,
    counts: Vec<u64>,
}

impl Clone for PairCounts {
    /// The same keys, in the same order, with the same counts.
    fn clone(&self) -> (r: Self)
        ensures
            r.key_seq() == self.key_seq(),
            r.count_seq() == self.count_seq(),
            r@ == self@,
    {
        proof {
            use_type_invariant(self);
        }
        let (keys, counts) = self.entries();
        PairCounts { keys, counts }
    }
}

impl PairCounts {
    #[verifier::type_invariant]
    spec fn well_formed(self) -> bool {
        &&& self.keys@.len() == self.counts@.len()
        &&& distinct_pairs(self.keys@)
    }

    /// The keys, in first-seen order.
    pub closed spec fn key_seq(&self) -> Seq<(i32, i32)> {
        self.keys@
    }

    /// The counts, aligned with `key_seq`.
    pub closed spec fn count_seq(&self) -> Seq<u64> {
        self.counts@
    }

    /// No counts.
    pub fn new() -> (r: Self)
        ensures
            r@ == Map::<(i32, i32), u64>::empty(),
            r.key_seq().len() == 0,
    {
        let r = PairCounts { keys: Vec::new(), counts: Vec::new() };
        assert(r@ =~= Map::<(i32, i32), u64>::empty());
        r
    }

    /// Number of keys.
    pub fn len(&self) -> (n: usize)
        ensures
            n == self.key_seq().len(),
    {
        self.keys.len()
    }

    fn position(&self, key: (i32, i32)) -> (r: Option<usize>)
        ensures
            match r {
                Some(i) => i < self.key_seq().len() && self.key_seq()[i as int] == key,
                None => !self.key_seq().contains(key),
            },
    {
        let mut i: usize = 0;
        while i < self.keys.len()
            invariant
                i <= self.keys@.len(),
                forall|j: int| 0 <= j < i ==> self.keys@[j] != key,
            decreases self.keys.len() - i,
        {
            if self.keys[i].0 == key.0 && self.keys[i].1 == key.1 {
                return Some(i);
            }
            i = i + 1;
        }
        None
    }

    /// The count of `key`, if present.
    pub fn get(&self, key: (i32, i32)) -> (r: Option<u64>)
        ensures
            match r {
                Some(c) => self@.contains_key(key) && c == self@[key],
                None => !self@.contains_key(key),
            },
    {
        proof {
            use_type_invariant(self);
        }
        match self.position(key) {
            Some(i) => {
                proof {
                    lemma_pair_map_at(self.keys@, self.counts@, i as int);
                }
                Some(self.counts[i])
            },
            None => None,
        }
    }

    /// Adds `n` to the count of `key`; a new key goes last.
    pub fn add(&mut self, key: (i32, i32), n: u64)
        requires
            pair_count(old(self)@, key) + n <= u64::MAX,
        ensures
            final(self)@ == old(self)@.insert(key, (pair_count(old(self)@, key) + n) as u64),
            old(self)@.contains_key(key) ==> final(self).key_seq() == old(self).key_seq(),
            !old(self)@.contains_key(key) ==> final(self).key_seq() == old(self).key_seq().push(key),
    {
        proof {
            use_type_invariant(&*self);
        }
        let mut taken = PairCounts { keys: Vec::new(), counts: Vec::new() };
        std::mem::swap(&mut taken, self);
        let PairCounts { mut keys, mut counts } = taken;
        let ghost ok = keys@;
        let ghost oc = counts@;
        let mut i: usize = 0;
        while i < keys.len()
            invariant
                i <= keys@.len(),
                keys@ == ok,
                counts@ == oc,
                ok.len() == oc.len(),
                distinct_pairs(ok),
                old(self)@ == pair_map(ok, oc),
                old(self).keys@ == ok,
                pair_count(old(self)@, key) + n <= u64::MAX,
                forall|j: int| 0 <= j < i ==> keys@[j] != key,
            decreases keys.len() - i,
        {
            if keys[i].0 == key.0 && keys[i].1 == key.1 {
                proof {
                    lemma_pair_map_at(ok, oc, i as int);
                    lemma_pair_map_set(ok, oc, i as int, (oc[i as int] + n) as u64);
                }
                let c = counts[i] + n;
                counts.set(i, c);
                *self = PairCounts { keys, counts };
                return;
            }
            i = i + 1;
        }
        proof {
            assert(!ok.contains(key));
            lemma_pair_map_push(ok, oc, key, n);
        }
        keys.push(key);
        counts.push(n);
        *self = PairCounts { keys, counts };
    }

    /// The keys and counts, in first-seen order.
    pub fn entries(&self) -> (r: (Vec<(i32, i32)>, Vec<u64>))
        ensures
            r.0@ == self.key_seq(),
            r.1@ == self.count_seq(),
            r.0@.len() == r.1@.len(),
            distinct_pairs(r.0@),
            forall|i: int| 0 <= i < r.0@.len() ==> #[trigger] self@[r.0@[i]] == r.1@[i],
            self@.dom() == r.0@.to_set(),
    {
        proof {
            use_type_invariant(self);
            assert forall|i: int| 0 <= i < self.keys@.len() implies #[trigger] self@[self.keys@[i]] == self.counts@[i] by {
                lemma_pair_map_at(self.keys@, self.counts@, i);
            }
            assert(self@.dom() =~= self.keys@.to_set());
        }
        let mut ks: Vec<(i32, i32)> = Vec::new();
        let mut cs: Vec<u64> = Vec::new();
        let mut i: usize = 0;
        while i < self.keys.len()
            invariant
                i <= self.keys@.len(),
                self.keys@.len() == self.counts@.len(),
                ks@ == self.keys@.take(i as int),
                cs@ == self.counts@.take(i as int),
            decreases self.keys.len() - i,
        {
            ks.push(self.keys[i]);
            cs.push(self.counts[i]);
            assert(ks@ =~= self.keys@.take(i + 1));
            assert(cs@ =~= self.counts@.take(i + 1));
            i = i + 1;
        }
        assert(ks@ =~= self.keys@);
        assert(cs@ =~= self.counts@);
        (ks, cs)
    }
}

impl View for PairCounts {
    type V = Map<(i32, i32), u64>;

    closed spec fn view(&self) -> Map<(i32, i32), u64> {
        pair_map(self.keys@, self.counts@)
    }
}

}
