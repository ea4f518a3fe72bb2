//! An association table keyed by strings.
//!
//! This is the crate's map from terms to per-term data: entries are kept in
//! a vector with pairwise-distinct keys, and the table is viewed as the
//! `Map` from key views to values.

use vstd::prelude::*;
use vstd::string::StrSliceExecFns;

verus! {

/// Compares two strings character by character.
pub fn str_eq(a: &str, b: &str) -> (r: bool)
    ensures
        r == (a@ == b@),
{
    let la = a.unicode_len();
    let lb = b.unicode_len();
    if la != lb {
        return false;
    }
    let mut i: usize = 0;
    while i < la
        invariant
            i <= la,
            la == a@.len(),
            lb == b@.len(),
            la == lb,
            forall|m: int| 0 <= m < i ==> a@[m] == b@[m],
        decreases la - i,
    {
        let ca = a.get_char(i);
        let cb = b.get_char(i);
        if ca != cb {
            return false;
        }
        i += 1;
    }
    proof {
        assert(a@ =~= b@);
    }
    true
}

/// The views of the keys of `s`, in entry order.
pub open spec fn seq_keys<V>(s: Seq<(String, V)>) -> Seq<Seq<char>> {
    s.map_values(|e: (String, V)| e.0@)
}

/// The map an entry sequence stands for; later entries win.
pub open spec fn entry_map<V>(s: Seq<(String, V)>) -> Map<Seq<char>, V>
    decreases s.len(),
{
    if s.len() == 0 {
        Map::empty()
    } else {
        entry_map(s.drop_last()).insert(s.last().0@, s.last().1)
    }
}

proof fn lemma_entry_map_contains<V>(s: Seq<(String, V)>)
    ensures
        forall|k: Seq<char>| #[trigger] entry_map(s).contains_key(k) <==> seq_keys(s).contains(k),
    decreases s.len(),
{
    if s.len() == 0 {
    } else {
        lemma_entry_map_contains(s.drop_last());
        assert(seq_keys(s).drop_last() =~= seq_keys(s.drop_last()));
        assert forall|k: Seq<char>| #[trigger]
            entry_map(s).contains_key(k) <==> seq_keys(s).contains(k) by {
            if entry_map(s).contains_key(k) {
                if k == s.last().0@ {
                    assert(seq_keys(s)[s.len() - 1] == k);
                } else {
                    assert(entry_map(s.drop_last()).contains_key(k));
                    assert(seq_keys(s.drop_last()).contains(k));
                    let i = choose|i: int|
                        0 <= i < seq_keys(s.drop_last()).len() && seq_keys(s.drop_last())[i] == k;
                    assert(seq_keys(s)[i] == seq_keys(s).drop_last()[i]);
                    assert(seq_keys(s)[i] == k);
                }
            }
            if seq_keys(s).contains(k) {
                let i = choose|i: int| 0 <= i < seq_keys(s).len() && seq_keys(s)[i] == k;
                if i < s.len() - 1 {
                    assert(seq_keys(s.drop_last())[i] == k);
                    assert(seq_keys(s.drop_last()).contains(k));
                    assert(entry_map(s.drop_last()).contains_key(k));
                } else {
                    assert(k == s.last().0@);
                }
            }
        }
    }
}

proof fn lemma_entry_map_index<V>(s: Seq<(String, V)>, i: int)
    requires
        seq_keys(s).no_duplicates(),
        0 <= i < s.len(),
    ensures
        entry_map(s).contains_key(s[i].0@),
        entry_map(s)[s[i].0@] == s[i].1,
    decreases s.len(),
{
    if i == s.len() - 1 {
    } else {
        assert(seq_keys(s).drop_last() =~= seq_keys(s.drop_last()));
        assert(seq_keys(s.drop_last()).no_duplicates());
        lemma_entry_map_index(s.drop_last(), i);
        assert(seq_keys(s)[i] != seq_keys(s)[s.len() - 1]);
        assert(s[i].0@ != s.last().0@);
    }
}

proof fn lemma_entry_map_push<V>(s: Seq<(String, V)>, e: (String, V))
    ensures
        entry_map(s.push(e)) == entry_map(s).insert(e.0@, e.1),
{
    assert(s.push(e).drop_last() =~= s);
    assert(s.push(e).last() == e);
}

proof fn lemma_entry_map_remove<V>(s: Seq<(String, V)>, i: int)
    requires
        seq_keys(s).no_duplicates(),
        0 <= i < s.len(),
    ensures
        entry_map(s.remove(i)) =~= entry_map(s).remove(s[i].0@),
    decreases s.len(),
{
    lemma_entry_map_contains(s.drop_last());
    assert(seq_keys(s).drop_last() =~= seq_keys(s.drop_last()));
    assert(seq_keys(s.drop_last()).no_duplicates());
    if i == s.len() - 1 {
        assert(s.remove(i) =~= s.drop_last());
        assert(!seq_keys(s.drop_last()).contains(s.last().0@)) by {
            if seq_keys(s.drop_last()).contains(s.last().0@) {
                let m = choose|m: int|
                    0 <= m < seq_keys(s.drop_last()).len() && seq_keys(s.drop_last())[m] == s.last().0@;
                assert(seq_keys(s)[m] == seq_keys(s).drop_last()[m]);
                assert(seq_keys(s)[m] == seq_keys(s)[s.len() - 1]);
            }
        }
        assert(!entry_map(s.drop_last()).contains_key(s.last().0@));
        assert(entry_map(s.drop_last()).insert(s.last().0@, s.last().1).remove(s.last().0@)
            =~= entry_map(s.drop_last()));
    } else {
        lemma_entry_map_remove(s.drop_last(), i);
        assert(s.remove(i).drop_last() =~= s.drop_last().remove(i));
        assert(s.remove(i).last() == s.last());
        assert(s.drop_last()[i] == s[i]);
        assert(seq_keys(s)[i] != seq_keys(s)[s.len() - 1]);
        assert(s[i].0@ != s.last().0@);
        assert(entry_map(s.drop_last()).remove(s[i].0@).insert(s.last().0@, s.last().1)
            =~= entry_map(s.drop_last()).insert(s.last().0@, s.last().1).remove(s[i].0@));
    }
}

pub proof fn lemma_no_duplicates_push<A>(s: Seq<A>, k: A)
    requires
        s.no_duplicates(),
        !s.contains(k),
    ensures
        s.push(k).no_duplicates(),
{
    let t = s.push(k);
    assert forall|p: int, q: int|
        0 <= p < t.len() && 0 <= q < t.len() && p != q implies t[p] != t[q] by {
        if p < s.len() && q < s.len() {
            assert(t[p] == s[p] && t[q] == s[q]);
        } else if p == s.len() {
            assert(t[q] == s[q] && t[p] == k);
        } else {
            assert(t[p] == s[p] && t[q] == k);
        }
    }
}

proof fn lemma_seq_keys_remove<V>(s: Seq<(String, V)>, i: int)
    requires
        0 <= i < s.len(),
    ensures
        seq_keys(s.remove(i)) =~= seq_keys(s).remove(i),
{
}

pub proof fn lemma_no_duplicates_remove<A>(s: Seq<A>, i: int)
    requires
        s.no_duplicates(),
        0 <= i < s.len(),
    ensures
        s.remove(i).no_duplicates(),
{
    let t = s.remove(i);
    assert forall|p: int, q: int|
        0 <= p < t.len() && 0 <= q < t.len() && p != q implies t[p] != t[q] by {
        let p0 = if p < i {
            p
        } else {
            p + 1
        };
        let q0 = if q < i {
            q
        } else {
            q + 1
        };
        assert(t[p] == s[p0] && t[q] == s[q0]);
    }
}

/// A map from terms to values, with pairwise-distinct keys.
pub struct StrTable<V> {
    entries: Vec<(String, V)>,
}

impl<V> View for StrTable<V> {
    type V = Map<Seq<char>, V>;

    closed spec fn view(&self) -> Map<Seq<char>, V> {
        entry_map(self.entries@)
    }
}

impl<V> StrTable<V> {
    /// The key views in entry order.
    pub closed spec fn keys(&self) -> Seq<Seq<char>> {
        seq_keys(self.entries@)
    }

    /// Well-formed: no key occurs twice.
    pub open spec fn wf(&self) -> bool {
        self.keys().no_duplicates()
    }

    /// The table's keys are exactly the domain of its map, so the map is
    /// finite and has one entry per key.
    pub proof fn lemma_dom(&self)
        requires
            self.wf(),
        ensures
            self@.dom() =~= self.keys().to_set(),
            self@.dom().len() == self.keys().len(),
            self@.dom().finite(),
    {
        lemma_entry_map_contains(self.entries@);
        broadcast use vstd::seq_lib::seq_to_set_is_finite;

        assert(self@.dom() =~= self.keys().to_set());
        self.keys().unique_seq_to_set();
    }

    pub fn new() -> (t: Self)
        ensures
            t@ == Map::<Seq<char>, V>::empty(),
            t.wf(),
            t.keys().len() == 0,
    {
        StrTable { entries: Vec::new() }
    }

    pub fn len(&self) -> (n: usize)
        ensures
            n == self.keys().len(),
    {
        self.entries.len()
    }

    fn position(&self, key: &str) -> (r: Option<usize>)
        ensures
            match r {
                Some(i) => 0 <= i < self.keys().len() && self.keys()[i as int] == key@,
                None => !self.keys().contains(key@),
            },
    {
        let n = self.entries.len();
        let mut i: usize = 0;
        while i < n
            invariant
                i <= n,
                n == self.entries@.len(),
                forall|m: int| 0 <= m < i ==> self.keys()[m] != key@,
            decreases n - i,
        {
            let e = &self.entries[i];
            if str_eq(e.0.as_str(), key) {
                return Some(i);
            }
            i += 1;
        }
        None
    }

    pub fn get(&self, key: &str) -> (r: Option<&V>)
        requires
            self.wf(),
        ensures
            match r {
                Some(v) => self@.contains_key(key@) && *v == self@[key@],
                None => !self@.contains_key(key@),
            },
    {
        proof {
            lemma_entry_map_contains(self.entries@);
        }
        match self.position(key) {
            Some(i) => {
                proof {
                    lemma_entry_map_index(self.entries@, i as int);
                }
                let e = &self.entries[i];
                Some(&e.1)
            },
            None => None,
        }
    }

    /// Inserts `value` under `key`, replacing any earlier entry.
    pub fn set_value(&mut self, key: String, value: V)
        requires
            old(self).wf(),
        ensures
            final(self).wf(),
            final(self)@ == old(self)@.insert(key@, value),
    {
        proof {
            lemma_entry_map_contains(self.entries@);
        }
        let ghost s0 = self.entries@;
        match self.position(key.as_str()) {
            Some(i) => {
                proof {
                    lemma_entry_map_remove(s0, i as int);
                    lemma_seq_keys_remove(s0, i as int);
                    lemma_no_duplicates_remove(seq_keys(s0), i as int);
                }
                self.entries.remove(i);
                let ghost s1 = self.entries@;
                proof {
                    assert forall|m: int| 0 <= m < seq_keys(s1).len() implies seq_keys(s1)[m]
                        != key@ by {
                        let m0 = if m < i {
                            m
                        } else {
                            m + 1
                        };
                        assert(seq_keys(s1)[m] == seq_keys(s0)[m0]);
                        assert(seq_keys(s0)[i as int] == key@);
                    }
                    assert(!seq_keys(s1).contains(key@));
                    lemma_no_duplicates_push(seq_keys(s1), key@);
                    lemma_entry_map_push(s1, (key, value));
                }
                self.entries.push((key, value));
                proof {
                    assert(seq_keys(s1.push((key, value))) =~= seq_keys(s1).push(key@));
                    assert(final(self).keys().no_duplicates());
                    assert(final(self)@ =~= old(self)@.insert(key@, value));
                }
            },
            None => {
                proof {
                    lemma_no_duplicates_push(seq_keys(s0), key@);
                    lemma_entry_map_push(s0, (key, value));
                    assert(seq_keys(s0.push((key, value))) =~= seq_keys(s0).push(key@));
                }
                self.entries.push((key, value));
                proof {
                    assert(final(self).keys().no_duplicates());
                }
            },
        }
    }

    /// Removes the entry under `key`, if there is one.
    pub fn remove_entry(&mut self, key: &str)
        requires
            old(self).wf(),
        ensures
            final(self).wf(),
            final(self)@ == old(self)@.remove(key@),
    {
        proof {
            lemma_entry_map_contains(self.entries@);
        }
        let ghost s0 = self.entries@;
        match self.position(key) {
            Some(i) => {
                proof {
                    lemma_entry_map_remove(s0, i as int);
                    lemma_seq_keys_remove(s0, i as int);
                    lemma_no_duplicates_remove(seq_keys(s0), i as int);
                }
                self.entries.remove(i);
                proof {
                    assert(final(self)@ =~= old(self)@.remove(key@));
                }
            },
            None => {
                proof {
                    assert(!old(self)@.contains_key(key@));
                    assert(final(self)@ =~= old(self)@.remove(key@));
                }
            },
        }
    }

    pub fn key_at(&self, i: usize) -> (k: &String)
        requires
            i < self.keys().len(),
        ensures
            k@ == self.keys()[i as int],
    {
        let e = &self.entries[i];
        &e.0
    }

}

} // verus!
