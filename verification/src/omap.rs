//! An ordered mapping from byte-string keys to values, kept as a vector of
//! entries sorted by strict lexicographic key order.
//!
//! The store's KeyDir and the transaction layer's backing engine are both
//! instances of this type. The model of a map is `map_of` over the entry
//! sequence; sortedness makes keys unique, so the model is well defined.
use vstd::prelude::*;

use crate::bytes::{bytes_eq, bytes_lt, lemma_lex_lt_asym, lemma_lex_lt_irrefl,
    lemma_lex_lt_total, lemma_lex_lt_trans, lex_lt};

verus! {

/// The keys of an entry sequence, strictly ascending.
pub open spec fn sorted_keys<V>(s: Seq<(Seq<u8>, V)>) -> bool {
    forall|i: int, j: int| 0 <= i < j < s.len() ==> lex_lt(#[trigger] s[i].0, #[trigger] s[j].0)
}

/// Some entry of `s` carries the key `k`.
pub open spec fn has_key<V>(s: Seq<(Seq<u8>, V)>, k: Seq<u8>) -> bool {
    exists|i: int| 0 <= i < s.len() && (#[trigger] s[i]).0 == k
}

/// The position of the entry carrying `k`; meaningful only under `has_key`.
pub open spec fn index_of<V>(s: Seq<(Seq<u8>, V)>, k: Seq<u8>) -> int {
    choose|i: int| 0 <= i < s.len() && (#[trigger] s[i]).0 == k
}

/// The mapping that an entry sequence represents.
pub open spec fn map_of<V>(s: Seq<(Seq<u8>, V)>) -> Map<Seq<u8>, V> {
    Map::new(|k: Seq<u8>| has_key(s, k), |k: Seq<u8>| s[index_of(s, k)].1)
}

/// In a sorted entry sequence, a key appears in at most one position.
pub proof fn lemma_sorted_key_unique<V>(s: Seq<(Seq<u8>, V)>, i: int, j: int)
    requires
        sorted_keys(s),
        0 <= i < s.len(),
        0 <= j < s.len(),
        s[i].0 == s[j].0,
    ensures
        i == j,
{
    if i < j || j < i {
        lemma_lex_lt_irrefl(s[i].0);
    }
}

/// The entry at any position of a sorted sequence agrees with the map model.
pub proof fn lemma_entry_in_map<V>(s: Seq<(Seq<u8>, V)>, i: int)
    requires
        sorted_keys(s),
        0 <= i < s.len(),
    ensures
        map_of(s).contains_key(s[i].0),
        map_of(s)[s[i].0] == s[i].1,
        index_of(s, s[i].0) == i,
{
    assert(has_key(s, s[i].0));
    let j = index_of(s, s[i].0);
    lemma_sorted_key_unique(s, i, j);
}

pub struct OrderedMap<V> {
    entries: Vec<(Vec<u8>, V)>,
}

impl<V> OrderedMap<V> {
    /// The entries as mathematical pairs, in storage order.
    pub closed spec fn entry_seq(self) -> Seq<(Seq<u8>, V)> {
        self.entries@.map_values(|e: (Vec<u8>, V)| (e.0@, e.1))
    }

    /// Well-formed: entries are strictly sorted by key.
    pub open spec fn wf(self) -> bool {
        sorted_keys(self.entry_seq())
    }

    /// The mapping this ordered map represents.
    pub open spec fn as_map(self) -> Map<Seq<u8>, V> {
        map_of(self.entry_seq())
    }

    pub fn new() -> (r: Self)
        ensures
            r.wf(),
            r.entry_seq() == Seq::<(Seq<u8>, V)>::empty(),
            r.as_map() == Map::<Seq<u8>, V>::empty(),
    {
        let r = OrderedMap { entries: Vec::new() };
        proof {
            assert(r.entry_seq() =~= Seq::<(Seq<u8>, V)>::empty());
            assert(r.as_map() =~= Map::<Seq<u8>, V>::empty());
        }
        r
    }

    pub fn len(&self) -> (n: usize)
        ensures
            n == self.entry_seq().len(),
    {
        self.entries.len()
    }

    pub fn key_at(&self, i: usize) -> (k: &Vec<u8>)
        requires
            i < self.entry_seq().len(),
        ensures
            k@ == self.entry_seq()[i as int].0,
    {
        &self.entries[i].0
    }

    pub fn val_at(&self, i: usize) -> (v: &V)
        requires
            i < self.entry_seq().len(),
        ensures
            *v == self.entry_seq()[i as int].1,
    {
        &self.entries[i].1
    }

    pub fn get(&self, key: &[u8]) -> (r: Option<&V>)
        requires
            self.wf(),
        ensures
            match r {
                Some(v) => self.as_map().contains_key(key@) && *v == self.as_map()[key@],
                None => !self.as_map().contains_key(key@),
            },
    {
        let ghost s = self.entry_seq();
        let n = self.entries.len();
        let mut i: usize = 0;
        while i < n
            invariant
                self.wf(),
                s == self.entry_seq(),
                n == s.len(),
                i <= n,
                forall|j: int| 0 <= j < i ==> (#[trigger] s[j]).0 != key@,
            decreases n - i,
        {
            if bytes_eq(self.entries[i].0.as_slice(), key) {
                proof {
                    lemma_entry_in_map(s, i as int);
                }
                return Some(&self.entries[i].1);
            }
            i = i + 1;
        }
        proof {
            assert(!has_key(s, key@));
        }
        None
    }

    /// The position of the first entry whose key does not sort before `key`.
    fn lower_bound(&self, key: &[u8]) -> (i: usize)
        requires
            self.wf(),
        ensures
            i <= self.entry_seq().len(),
            forall|j: int| 0 <= j < i ==> lex_lt((#[trigger] self.entry_seq()[j]).0, key@),
            i < self.entry_seq().len() ==> !lex_lt(self.entry_seq()[i as int].0, key@),
    {
        let ghost s = self.entry_seq();
        let n = self.entries.len();
        let mut i: usize = 0;
        while i < n
            invariant
                self.wf(),
                s == self.entry_seq(),
                n == s.len(),
                i <= n,
                forall|j: int| 0 <= j < i ==> lex_lt((#[trigger] s[j]).0, key@),
            decreases n - i,
        {
            if !bytes_lt(self.entries[i].0.as_slice(), key) {
                return i;
            }
            i = i + 1;
        }
        i
    }

    /// Inserts or replaces the entry for `key`.
    pub fn insert(&mut self, key: Vec<u8>, value: V)
        requires
            old(self).wf(),
        ensures
            final(self).wf(),
            final(self).as_map() == old(self).as_map().insert(key@, value),
            forall|i: int| 0 <= i < final(self).entry_seq().len()
                ==> (#[trigger] final(self).entry_seq()[i]) == (key@, value) || old(
                self,
            ).entry_seq().contains(final(self).entry_seq()[i]),
    {
        let ghost s = self.entry_seq();
        let n = self.entries.len();
        let i = self.lower_bound(key.as_slice());
        let replace = i < n && bytes_eq(self.entries[i].0.as_slice(), key.as_slice());
        proof {
            if i < n && !replace {
                lemma_lex_lt_total(s[i as int].0, key@);
                assert(lex_lt(key@, s[i as int].0));
            }
            assert forall|j: int| i <= j < n && !replace implies lex_lt(
                key@,
                (#[trigger] s[j]).0,
            ) by {
                if i < j {
                    lemma_lex_lt_trans(key@, s[i as int].0, s[j].0);
                }
            }
        }
        if replace {
            self.entries.remove(i);
            self.entries.insert(i, (key, value));
            proof {
                let t = self.entry_seq();
                assert(t =~= s.remove(i as int).insert(i as int, (key@, value)));
                assert(t =~= s.update(i as int, (key@, value)));
                assert forall|p: int, q: int| 0 <= p < q < t.len() implies lex_lt(
                    t[p].0,
                    t[q].0,
                ) by {
                    assert(t[p].0 == s[p].0);
                    assert(t[q].0 == s[q].0);
                }
                lemma_map_after_update(s, t, i as int, key@, value);
            }
        } else {
            self.entries.insert(i, (key, value));
            proof {
                let t = self.entry_seq();
                assert(t =~= s.insert(i as int, (key@, value)));
                assert forall|p: int, q: int| 0 <= p < q < t.len() implies lex_lt(
                    t[p].0,
                    t[q].0,
                ) by {
                    if q < i {
                        assert(t[p] == s[p] && t[q] == s[q]);
                    } else if p < i && q == i {
                        assert(t[p] == s[p]);
                    } else if p == i && q > i {
                        assert(t[q] == s[q - 1]);
                    } else if p < i && q > i {
                        assert(t[p] == s[p] && t[q] == s[q - 1]);
                    } else {
                        assert(t[p] == s[p - 1] && t[q] == s[q - 1]);
                    }
                }
                assert forall|j: int| 0 <= j < s.len() implies (#[trigger] s[j]).0 != key@ by {
                    if j < i {
                        lemma_lex_lt_asym(s[j].0, key@);
                    } else {
                        lemma_lex_lt_asym(key@, s[j].0);
                    }
                }
                assert(!has_key(s, key@));
                lemma_map_after_insert(s, t, i as int, key@, value);
            }
        }
    }

    /// Removes the entry for `key`, returning its value when one was there.
    pub fn remove(&mut self, key: &[u8]) -> (r: Option<V>)
        requires
            old(self).wf(),
        ensures
            final(self).wf(),
            final(self).as_map() == old(self).as_map().remove(key@),
            forall|i: int| 0 <= i < final(self).entry_seq().len()
                ==> old(self).entry_seq().contains(#[trigger] final(self).entry_seq()[i]),
            match r {
                Some(v) => old(self).as_map().contains_key(key@) && v == old(self).as_map()[key@],
                None => !old(self).as_map().contains_key(key@),
            },
    {
        let ghost s = self.entry_seq();
        let n = self.entries.len();
        let mut i: usize = 0;
        while i < n
            invariant
                self.wf(),
                s == self.entry_seq(),
                s == old(self).entry_seq(),
                n == s.len(),
                i <= n,
                forall|j: int| 0 <= j < i ==> (#[trigger] s[j]).0 != key@,
            decreases n - i,
        {
            if bytes_eq(self.entries[i].0.as_slice(), key) {
                proof {
                    assert(s[i as int] == (self.entries@[i as int].0@, self.entries@[i as int].1));
                    assert(s[i as int].0 == key@);
                    lemma_entry_in_map(s, i as int);
                    assert(map_of(s).contains_key(key@));
                    assert(map_of(s)[key@] == s[i as int].1);
                }
                let e = self.entries.remove(i);
                proof {
                    let t = self.entry_seq();
                    assert(t =~= s.remove(i as int));
                    assert forall|p: int, q: int| 0 <= p < q < t.len() implies lex_lt(
                        t[p].0,
                        t[q].0,
                    ) by {
                        assert(t[p] == if p < i { s[p] } else { s[p + 1] });
                        assert(t[q] == if q < i { s[q] } else { s[q + 1] });
                    }
                    lemma_map_after_remove(s, t, i as int, key@);
                }
                return Some(e.1);
            }
            i = i + 1;
        }
        proof {
            assert(!has_key(s, key@));
            assert(self.as_map() =~= old(self).as_map().remove(key@));
        }
        None
    }
}

/// After replacing the entry at `i` in place, the map gains exactly the
/// binding `k -> v`.
proof fn lemma_map_after_update<V>(s: Seq<(Seq<u8>, V)>, t: Seq<(Seq<u8>, V)>, i: int, k: Seq<u8>, v: V)
    requires
        sorted_keys(s),
        sorted_keys(t),
        0 <= i < s.len(),
        s[i].0 == k,
        t == s.update(i, (k, v)),
    ensures
        map_of(t) == map_of(s).insert(k, v),
{
    assert forall|x: Seq<u8>| true implies #[trigger] has_key(t, x) == has_key(s, x) by {
        if has_key(t, x) {
            let j = index_of(t, x);
            assert(s[j].0 == t[j].0);
        }
        if has_key(s, x) {
            let j = index_of(s, x);
            assert(t[j].0 == s[j].0);
        }
    }
    assert forall|x: Seq<u8>| has_key(t, x) implies map_of(t)[x] == map_of(s).insert(k, v)[x] by {
        let j = index_of(t, x);
        assert(0 <= j < t.len() && t[j].0 == x);
        lemma_entry_in_map(t, j);
        if x == k {
            lemma_sorted_key_unique(t, j, i);
        } else {
            assert(s[j].0 == x);
            lemma_entry_in_map(s, j);
        }
    }
    assert(map_of(t) =~= map_of(s).insert(k, v));
}

/// After inserting a fresh entry at `i`, the map gains exactly `k -> v`.
proof fn lemma_map_after_insert<V>(s: Seq<(Seq<u8>, V)>, t: Seq<(Seq<u8>, V)>, i: int, k: Seq<u8>, v: V)
    requires
        sorted_keys(s),
        sorted_keys(t),
        0 <= i <= s.len(),
        t == s.insert(i, (k, v)),
        !has_key(s, k),
    ensures
        map_of(t) == map_of(s).insert(k, v),
{
    assert forall|x: Seq<u8>| true implies #[trigger] has_key(t, x) == (has_key(s, x) || x
        == k) by {
        if has_key(t, x) {
            let j = index_of(t, x);
            if j < i {
                assert(s[j].0 == x);
            } else if j > i {
                assert(s[j - 1].0 == x);
            }
        }
        if has_key(s, x) {
            let j = index_of(s, x);
            if j < i {
                assert(t[j].0 == x);
            } else {
                assert(t[j + 1].0 == x);
            }
        }
        if x == k {
            assert(t[i].0 == k);
        }
    }
    assert forall|x: Seq<u8>| has_key(t, x) implies map_of(t)[x] == map_of(s).insert(k, v)[x] by {
        let j = index_of(t, x);
        assert(0 <= j < t.len() && t[j].0 == x);
        lemma_entry_in_map(t, j);
        if x == k {
            lemma_sorted_key_unique(t, j, i);
        } else {
            if j < i {
                assert(s[j].0 == x && s[j].1 == t[j].1);
                lemma_entry_in_map(s, j);
            } else {
                assert(j > i);
                assert(s[j - 1].0 == x && s[j - 1].1 == t[j].1);
                lemma_entry_in_map(s, j - 1);
            }
        }
    }
    assert(map_of(t) =~= map_of(s).insert(k, v));
}

/// After removing the entry at `i`, the map loses exactly the binding of `k`.
proof fn lemma_map_after_remove<V>(s: Seq<(Seq<u8>, V)>, t: Seq<(Seq<u8>, V)>, i: int, k: Seq<u8>)
    requires
        sorted_keys(s),
        sorted_keys(t),
        0 <= i < s.len(),
        s[i].0 == k,
        t == s.remove(i),
    ensures
        map_of(t) == map_of(s).remove(k),
{
    assert forall|x: Seq<u8>| true implies #[trigger] has_key(t, x) == (has_key(s, x) && x
        != k) by {
        if has_key(t, x) {
            let j = index_of(t, x);
            if j < i {
                assert(s[j].0 == x);
                if x == k {
                    lemma_sorted_key_unique(s, j, i);
                }
            } else {
                assert(s[j + 1].0 == x);
                if x == k {
                    lemma_sorted_key_unique(s, j + 1, i);
                }
            }
        }
        if has_key(s, x) && x != k {
            let j = index_of(s, x);
            assert(j != i);
            if j < i {
                assert(t[j].0 == x);
            } else {
                assert(t[j - 1].0 == x);
            }
        }
    }
    assert forall|x: Seq<u8>| has_key(t, x) implies map_of(t)[x] == map_of(s).remove(k)[x] by {
        let j = index_of(t, x);
        assert(0 <= j < t.len() && t[j].0 == x);
        lemma_entry_in_map(t, j);
        if j < i {
            assert(s[j].0 == x && s[j].1 == t[j].1);
            lemma_entry_in_map(s, j);
        } else {
            assert(s[j + 1].0 == x && s[j + 1].1 == t[j].1);
            lemma_entry_in_map(s, j + 1);
        }
    }
    assert(map_of(t) =~= map_of(s).remove(k));
}

} // verus!
