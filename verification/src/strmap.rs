//! A map keyed by text whose entries are kept in increasing key order: the
//! order in which `serde_json`'s default object map hands out its entries.
use vstd::prelude::*;

use crate::text::{
    lemma_text_lt_irreflexive, lemma_text_lt_transitive, lemma_text_lt_trichotomy, text_eq_exec,
    text_lt, text_lt_exec,
};

verus! {

/// Keys strictly increase along the sequence (so no key occurs twice).
pub open spec fn keys_sorted<V>(s: Seq<(Seq<char>, V)>) -> bool {
    forall|i: int, j: int| 0 <= i < j < s.len() ==> text_lt(#[trigger] s[i].0, #[trigger] s[j].0)
}

/// The value stored under `k` in a sequence of entries (the last entry
/// with that key), if any.
pub open spec fn lookup<V>(s: Seq<(Seq<char>, V)>, k: Seq<char>) -> Option<V>
    decreases s.len(),
{
    if s.len() == 0 {
        None
    } else if s.last().0 == k {
        Some(s.last().1)
    } else {
        lookup(s.drop_last(), k)
    }
}

/// In a sorted sequence, the lookup of an entry's key finds that entry.
pub proof fn lemma_lookup_sorted<V>(s: Seq<(Seq<char>, V)>, i: int)
    requires
        keys_sorted(s),
        0 <= i < s.len(),
    ensures
        lookup(s, s[i].0) == Some(s[i].1),
    decreases s.len(),
{
    if i < s.len() - 1 {
        assert(text_lt(s[i].0, s[s.len() - 1].0));
        lemma_text_lt_irreflexive(s[i].0);
        let t = s.drop_last();
        assert(keys_sorted(t));
        assert(t[i] == s[i]);
        lemma_lookup_sorted(t, i);
    }
}

/// A lookup finds something only where some entry has the key.
pub proof fn lemma_lookup_some<V>(s: Seq<(Seq<char>, V)>, k: Seq<char>)
    ensures
        lookup(s, k) is Some ==> exists|i: int| 0 <= i < s.len() && #[trigger] s[i].0 == k,
    decreases s.len(),
{
    if s.len() > 0 && s.last().0 != k {
        lemma_lookup_some(s.drop_last(), k);
        if lookup(s, k) is Some {
            let i = choose|i: int| 0 <= i < s.drop_last().len() && #[trigger] s.drop_last()[i].0 == k;
            assert(s[i].0 == k);
        }
    }
}

/// The map that a sequence of entries describes.
pub open spec fn entries_map<V>(s: Seq<(Seq<char>, V)>) -> Map<Seq<char>, V> {
    Map::new(|k: Seq<char>| lookup(s, k) is Some, |k: Seq<char>| lookup(s, k)->0)
}

/// The entries of a map in increasing key order.
pub open spec fn sorted_entries<V>(m: Map<Seq<char>, V>) -> Seq<(Seq<char>, V)> {
    choose|s: Seq<(Seq<char>, V)>| keys_sorted(s) && entries_map(s) == m
}

/// In a sorted sequence no entry before the last has the last key.
proof fn lemma_last_key_absent<V>(s: Seq<(Seq<char>, V)>)
    requires
        keys_sorted(s),
        s.len() > 0,
    ensures
        lookup(s.drop_last(), s.last().0) is None,
{
    let t = s.drop_last();
    let k = s.last().0;
    lemma_lookup_some(t, k);
    if lookup(t, k) is Some {
        let i = choose|i: int| 0 <= i < t.len() && #[trigger] t[i].0 == k;
        assert(text_lt(s[i].0, s[s.len() - 1].0));
        lemma_text_lt_irreflexive(k);
    }
}

/// Two sorted sequences that describe the same map are the same sequence.
pub proof fn lemma_sorted_unique<V>(s1: Seq<(Seq<char>, V)>, s2: Seq<(Seq<char>, V)>)
    requires
        keys_sorted(s1),
        keys_sorted(s2),
        entries_map(s1) == entries_map(s2),
    ensures
        s1 == s2,
    decreases s1.len() + s2.len(),
{
    if s1.len() == 0 && s2.len() == 0 {
        assert(s1 =~= s2);
    } else if s1.len() == 0 {
        lemma_lookup_sorted(s2, s2.len() - 1);
        assert(entries_map(s2).contains_key(s2.last().0));
        assert(lookup(s1, s2.last().0) is None);
        assert(!entries_map(s1).contains_key(s2.last().0));
    } else if s2.len() == 0 {
        lemma_lookup_sorted(s1, s1.len() - 1);
        assert(entries_map(s1).contains_key(s1.last().0));
        assert(lookup(s2, s1.last().0) is None);
        assert(!entries_map(s2).contains_key(s1.last().0));
    } else {
        let k1 = s1.last().0;
        let k2 = s2.last().0;
        lemma_lookup_sorted(s1, s1.len() - 1);
        lemma_lookup_sorted(s2, s2.len() - 1);
        assert(entries_map(s1).contains_key(k1));
        assert(entries_map(s2).contains_key(k2));
        lemma_lookup_some(s1, k2);
        lemma_lookup_some(s2, k1);
        let i = choose|i: int| 0 <= i < s1.len() && #[trigger] s1[i].0 == k2;
        let j = choose|j: int| 0 <= j < s2.len() && #[trigger] s2[j].0 == k1;
        if k1 != k2 {
            lemma_text_lt_trichotomy(k1, k2);
            assert(i < s1.len() - 1);
            assert(j < s2.len() - 1);
            assert(text_lt(s1[i].0, s1[s1.len() - 1].0));
            assert(text_lt(s2[j].0, s2[s2.len() - 1].0));
        }
        assert(k1 == k2);
        assert(entries_map(s1)[k1] == entries_map(s2)[k1]);
        let t1 = s1.drop_last();
        let t2 = s2.drop_last();
        lemma_last_key_absent(s1);
        lemma_last_key_absent(s2);
        assert(keys_sorted(t1));
        assert(keys_sorted(t2));
        assert forall|k: Seq<char>| #[trigger] lookup(t1, k) == lookup(t2, k) by {
            if k != k1 {
                assert(lookup(s1, k) == lookup(t1, k));
                assert(lookup(s2, k) == lookup(t2, k));
                assert(entries_map(s1).contains_key(k) == (lookup(s1, k) is Some));
                assert(entries_map(s2).contains_key(k) == (lookup(s2, k) is Some));
                if lookup(s1, k) is Some {
                    assert(entries_map(s1)[k] == lookup(s1, k)->0);
                    assert(entries_map(s2)[k] == lookup(s2, k)->0);
                    assert(entries_map(s1)[k] == entries_map(s2)[k]);
                }
            } else {
                assert(lookup(t1, k) is None);
                assert(lookup(t2, k) is None);
            }
        }
        assert(entries_map(t1) =~= entries_map(t2));
        lemma_sorted_unique(t1, t2);
        assert(lookup(s1, k1) == Some(s1.last().1));
        assert(lookup(s2, k1) == Some(s2.last().1));
        assert(entries_map(s1)[k1] == s1.last().1);
        assert(entries_map(s2)[k1] == s2.last().1);
        assert(s1.last() == s2.last());
        assert(s1 =~= t1.push(s1.last()));
        assert(s2 =~= t2.push(s2.last()));
    }
}

/// A sorted sequence is the sorted entry list of the map it describes.
pub proof fn lemma_sorted_entries_of<V>(s: Seq<(Seq<char>, V)>)
    requires
        keys_sorted(s),
    ensures
        sorted_entries(entries_map(s)) == s,
{
    let m = entries_map(s);
    assert(keys_sorted(s) && entries_map(s) == m);
    let t = sorted_entries(m);
    lemma_sorted_unique(t, s);
}

/// A text-keyed map with its entries in increasing key order.
pub struct StrMap<V> {
    entries: Vec<(Vec<char>, V)>,
}

impl<V> View for StrMap<V> {
    type V = Map<Seq<char>, V>;

    open spec fn view(&self) -> Map<Seq<char>, V> {
        entries_map(self.pairs())
    }
}

impl<V> StrMap<V> {
    /// The entries, in order, with keys as texts.
    pub closed spec fn pairs(self) -> Seq<(Seq<char>, V)> {
        self.entries@.map_values(|e: (Vec<char>, V)| (e.0@, e.1))
    }

    /// The keys, in order.
    pub open spec fn key_seq(self) -> Seq<Seq<char>> {
        self.pairs().map_values(|e: (Seq<char>, V)| e.0)
    }

    /// Well-formed: keys strictly increase.
    pub open spec fn wf(self) -> bool {
        keys_sorted(self.pairs())
    }

    pub proof fn lemma_view_entry(self, i: int)
        requires
            self.wf(),
            0 <= i < self.pairs().len(),
        ensures
            self@.contains_key(self.pairs()[i].0),
            self@[self.pairs()[i].0] == self.pairs()[i].1,
    {
        lemma_lookup_sorted(self.pairs(), i);
    }

    /// Every key of the map is the key of some entry.
    pub proof fn lemma_view_key(self, k: Seq<char>)
        requires
            self.wf(),
            self@.contains_key(k),
        ensures
            exists|i: int| 0 <= i < self.pairs().len() && #[trigger] self.pairs()[i].0 == k,
    {
        lemma_lookup_some(self.pairs(), k);
    }

    pub fn new() -> (m: Self)
        ensures
            m.wf(),
            m@ == Map::<Seq<char>, V>::empty(),
            m.pairs().len() == 0,
    {
        let m = StrMap { entries: Vec::new() };
        assert(m.pairs() =~= Seq::empty());
        assert(m@ =~= Map::<Seq<char>, V>::empty());
        m
    }

    pub fn len(&self) -> (n: usize)
        ensures
            n == self.pairs().len(),
    {
        self.entries.len()
    }

    /// The key of the `i`-th entry.
    pub fn key_at(&self, i: usize) -> (k: &Vec<char>)
        requires
            i < self.pairs().len(),
        ensures
            k@ == self.pairs()[i as int].0,
    {
        &self.entries[i].0
    }

    /// The value of the `i`-th entry.
    pub fn value_at(&self, i: usize) -> (v: &V)
        requires
            i < self.pairs().len(),
        ensures
            *v == self.pairs()[i as int].1,
    {
        &self.entries[i].1
    }

    /// The index of the entry with key `k`, if there is one.
    fn find(&self, k: &Vec<char>) -> (r: Option<usize>)
        requires
            self.wf(),
        ensures
            match r {
                Some(i) => i < self.pairs().len() && self.pairs()[i as int].0 == k@,
                None => !self@.contains_key(k@),
            },
    {
        let mut i: usize = 0;
        while i < self.entries.len()
            invariant
                i <= self.entries.len(),
                self.pairs().len() == self.entries.len(),
                forall|j: int| 0 <= j < i ==> self.pairs()[j].0 != k@,
            decreases self.entries.len() - i,
        {
            assert(self.pairs()[i as int].0 == self.entries@[i as int].0@);
            if text_eq_exec(&self.entries[i].0, k) {
                return Some(i);
            }
            i = i + 1;
        }
        proof {
            lemma_lookup_some(self.pairs(), k@);
        }
        None
    }

    pub fn contains_key(&self, k: &Vec<char>) -> (b: bool)
        requires
            self.wf(),
        ensures
            b == self@.contains_key(k@),
    {
        match self.find(k) {
            Some(i) => {
                proof {
                    self.lemma_view_entry(i as int);
                }
                true
            },
            None => false,
        }
    }

    pub fn get(&self, k: &Vec<char>) -> (r: Option<&V>)
        requires
            self.wf(),
        ensures
            r.is_some() == self@.contains_key(k@),
            r matches Some(v) ==> *v == self@[k@],
    {
        match self.find(k) {
            Some(i) => {
                proof {
                    self.lemma_view_entry(i as int);
                }
                Some(&self.entries[i].1)
            },
            None => None,
        }
    }

    /// Stores `v` under `k`, replacing any value stored there before.
    pub fn insert(&mut self, k: Vec<char>, v: V)
        requires
            old(self).wf(),
        ensures
            final(self).wf(),
            final(self)@ == old(self)@.insert(k@, v),
    {
        let ghost old_pairs = self.pairs();
        let ghost kk = k@;
        let mut i: usize = 0;
        while i < self.entries.len() && text_lt_exec(&self.entries[i].0, &k)
            invariant
                i <= self.entries.len(),
                self.pairs() == old_pairs,
                old_pairs.len() == self.entries.len(),
                kk == k@,
                forall|j: int| 0 <= j < i ==> text_lt(#[trigger] old_pairs[j].0, kk),
            decreases self.entries.len() - i,
        {
            assert(old_pairs[i as int].0 == self.entries@[i as int].0@);
            i = i + 1;
        }
        // Every entry from `i` on has a key at least `k`.
        proof {
            if i < old_pairs.len() {
                assert(old_pairs[i as int].0 == self.entries@[i as int].0@);
                lemma_text_lt_trichotomy(old_pairs[i as int].0, kk);
            }
        }
        if i < self.entries.len() && text_eq_exec(&self.entries[i].0, &k) {
            self.entries.set(i, (k, v));
            let ghost np = self.pairs();
            assert(np =~= old_pairs.update(i as int, (kk, v)));
            assert(keys_sorted(np)) by {
                assert forall|a: int, b: int| 0 <= a < b < np.len() implies text_lt(
                    #[trigger] np[a].0,
                    #[trigger] np[b].0,
                ) by {
                    assert(np[a].0 == old_pairs[a].0);
                    assert(np[b].0 == old_pairs[b].0);
                }
            }
            assert(self@ =~= old(self)@.insert(kk, v)) by {
                assert forall|q: Seq<char>| #[trigger] self@.contains_key(q) <==> old(
                    self,
                )@.insert(kk, v).contains_key(q) by {
                    if lookup(np, q) is Some {
                        lemma_lookup_some(np, q);
                        let j = choose|j: int| 0 <= j < np.len() && #[trigger] np[j].0 == q;
                        if j != i {
                            lemma_lookup_sorted(old_pairs, j);
                        }
                    }
                    if lookup(old_pairs, q) is Some {
                        lemma_lookup_some(old_pairs, q);
                        let j = choose|j: int| 0 <= j < old_pairs.len() && #[trigger] old_pairs[j].0 == q;
                        lemma_lookup_sorted(np, j);
                    }
                    if q == kk {
                        lemma_lookup_sorted(np, i as int);
                    }
                }
                assert forall|q: Seq<char>| #[trigger] self@.contains_key(q) implies self@[q]
                    == old(self)@.insert(kk, v)[q] by {
                    lemma_lookup_some(np, q);
                        let j = choose|j: int| 0 <= j < np.len() && #[trigger] np[j].0 == q;
                    lemma_lookup_sorted(np, j);
                    if j != i {
                        lemma_lookup_sorted(old_pairs, j);
                    } else {
                    }
                }
            }
        } else {
            proof {
                if i < old_pairs.len() {
                    assert(old_pairs[i as int].0 == self.entries@[i as int].0@);
                }
            }
            self.entries.insert(i, (k, v));
            let ghost np = self.pairs();
            assert(np =~= old_pairs.insert(i as int, (kk, v)));
            // Keys after position `i` exceed `k`.
            assert forall|j: int| i <= j < old_pairs.len() implies text_lt(
                kk,
                #[trigger] old_pairs[j].0,
            ) by {
                if j > i {
                    assert(text_lt(old_pairs[i as int].0, old_pairs[j].0));
                    lemma_text_lt_transitive(kk, old_pairs[i as int].0, old_pairs[j].0);
                }
            }
            assert(keys_sorted(np)) by {
                assert forall|a: int, b: int| 0 <= a < b < np.len() implies text_lt(
                    #[trigger] np[a].0,
                    #[trigger] np[b].0,
                ) by {
                    if b < i {
                    } else if b == i {
                    } else if a < i {
                        lemma_text_lt_transitive(np[a].0, kk, np[b].0);
                    } else if a == i {
                    } else {
                        assert(np[a].0 == old_pairs[a - 1].0);
                        assert(np[b].0 == old_pairs[b - 1].0);
                    }
                }
            }
            assert(self@ =~= old(self)@.insert(kk, v)) by {
                assert forall|q: Seq<char>| #[trigger] self@.contains_key(q) <==> old(
                    self,
                )@.insert(kk, v).contains_key(q) by {
                    if lookup(np, q) is Some {
                        lemma_lookup_some(np, q);
                        let j = choose|j: int| 0 <= j < np.len() && #[trigger] np[j].0 == q;
                        if j < i {
                            lemma_lookup_sorted(old_pairs, j);
                        } else if j > i {
                            lemma_lookup_sorted(old_pairs, j - 1);
                        }
                    }
                    if lookup(old_pairs, q) is Some {
                        lemma_lookup_some(old_pairs, q);
                        let j = choose|j: int| 0 <= j < old_pairs.len() && #[trigger] old_pairs[j].0 == q;
                        if j < i {
                            lemma_lookup_sorted(np, j);
                        } else {
                            lemma_lookup_sorted(np, j + 1);
                        }
                    }
                    if q == kk {
                        lemma_lookup_sorted(np, i as int);
                    }
                }
                assert forall|q: Seq<char>| #[trigger] self@.contains_key(q) implies self@[q]
                    == old(self)@.insert(kk, v)[q] by {
                    lemma_lookup_some(np, q);
                        let j = choose|j: int| 0 <= j < np.len() && #[trigger] np[j].0 == q;
                    lemma_lookup_sorted(np, j);
                    if j < i {
                        lemma_lookup_sorted(old_pairs, j);
                        lemma_text_lt_irreflexive(kk);
                    } else if j > i {
                        lemma_lookup_sorted(old_pairs, j - 1);
                        lemma_text_lt_irreflexive(kk);
                    }
                }
            }
        }
    }

    /// Stores `v` under `k` unless `k` already has a value.
    pub fn insert_if_absent(&mut self, k: Vec<char>, v: V)
        requires
            old(self).wf(),
        ensures
            final(self).wf(),
            final(self)@ == if old(self)@.contains_key(k@) {
                old(self)@
            } else {
                old(self)@.insert(k@, v)
            },
    {
        if !self.contains_key(&k) {
            self.insert(k, v);
        }
    }

    /// Removes the value stored under `k`, if any.
    pub fn remove(&mut self, k: &Vec<char>)
        requires
            old(self).wf(),
        ensures
            final(self).wf(),
            final(self)@ == old(self)@.remove(k@),
    {
        let ghost old_pairs = self.pairs();
        match self.find(k) {
            None => {
                assert(self@ =~= old(self)@.remove(k@));
            },
            Some(i) => {
                self.entries.remove(i);
                let ghost np = self.pairs();
                assert(np =~= old_pairs.remove(i as int));
                assert(keys_sorted(np)) by {
                    assert forall|a: int, b: int| 0 <= a < b < np.len() implies text_lt(
                        #[trigger] np[a].0,
                        #[trigger] np[b].0,
                    ) by {
                        let a0 = if a < i {
                            a
                        } else {
                            a + 1
                        };
                        let b0 = if b < i {
                            b
                        } else {
                            b + 1
                        };
                        assert(np[a].0 == old_pairs[a0].0);
                        assert(np[b].0 == old_pairs[b0].0);
                    }
                }
                assert(self@ =~= old(self)@.remove(k@)) by {
                    assert forall|q: Seq<char>| #[trigger] self@.contains_key(q) <==> old(
                        self,
                    )@.remove(k@).contains_key(q) by {
                        if lookup(np, q) is Some {
                            lemma_lookup_some(np, q);
                        let j = choose|j: int| 0 <= j < np.len() && #[trigger] np[j].0 == q;
                            let j0 = if j < i {
                                j
                            } else {
                                j + 1
                            };
                            lemma_lookup_sorted(old_pairs, j0);
                            assert(text_lt(old_pairs[i as int].0, old_pairs[j0].0) || text_lt(
                                old_pairs[j0].0,
                                old_pairs[i as int].0,
                            ));
                            lemma_text_lt_irreflexive(q);
                        }
                        if lookup(old_pairs, q) is Some && q != k@ {
                            lemma_lookup_some(old_pairs, q);
                            let j = choose|j: int| 0 <= j < old_pairs.len() && #[trigger] old_pairs[j].0 == q;
                            if j < i {
                                lemma_lookup_sorted(np, j);
                            } else if j > i {
                                lemma_lookup_sorted(np, j - 1);
                            }
                        }
                    }
                    assert forall|q: Seq<char>| #[trigger] self@.contains_key(q) implies self@[q]
                        == old(self)@.remove(k@)[q] by {
                        lemma_lookup_some(np, q);
                        let j = choose|j: int| 0 <= j < np.len() && #[trigger] np[j].0 == q;
                        lemma_lookup_sorted(np, j);
                        let j0 = if j < i {
                            j
                        } else {
                            j + 1
                        };
                        lemma_lookup_sorted(old_pairs, j0);
                    }
                }
            },
        }
    }

    /// The values, in key order.
    pub fn into_values(self) -> (r: Vec<V>)
        ensures
            r@ == self.pairs().map_values(|e: (Seq<char>, V)| e.1),
    {
        let ghost ps = self.pairs();
        let mut entries = self.entries;
        let mut out: Vec<V> = Vec::new();
        let ghost n = entries.len();
        // Values are taken from the back and then reversed into place.
        let mut rev: Vec<V> = Vec::new();
        while entries.len() > 0
            invariant
                entries.len() <= n,
                n == ps.len(),
                ps == self.pairs(),
                forall|j: int| 0 <= j < entries.len() ==> (#[trigger] entries@[j]).1 == ps[j].1,
                rev.len() == n - entries.len(),
                forall|j: int| 0 <= j < rev.len() ==> #[trigger] rev@[j] == ps[n - 1 - j].1,
            decreases entries.len(),
        {
            let e = entries.pop().unwrap();
            rev.push(e.1);
        }
        while rev.len() > 0
            invariant
                rev.len() + out.len() == n,
                n == ps.len(),
                forall|j: int| 0 <= j < rev.len() ==> #[trigger] rev@[j] == ps[n - 1 - j].1,
                forall|j: int| 0 <= j < out.len() ==> #[trigger] out@[j] == ps[j].1,
            decreases rev.len(),
        {
            let v = rev.pop().unwrap();
            out.push(v);
        }
        assert(out@ =~= ps.map_values(|e: (Seq<char>, V)| e.1));
        out
    }
}

} // verus!
