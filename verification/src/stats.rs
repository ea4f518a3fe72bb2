//! Per-document statistics and the store that keeps them.
//!
//! Each indexed document is described by its id, its length in terms
//! (repeats included) and its term-frequency table. The store maps each
//! document id to at most one such record and is viewed as a `Map`.

use vstd::prelude::*;
use crate::table::StrTable;
use crate::table::lemma_no_duplicates_push;
use crate::table::lemma_no_duplicates_remove;

verus! {

/// How often the term `t` occurs in the term sequence `ts`.
pub open spec fn occurrences(ts: Seq<Seq<char>>, t: Seq<char>) -> nat
    decreases ts.len(),
{
    if ts.len() == 0 {
        0
    } else {
        occurrences(ts.drop_last(), t) + if ts.last() == t {
            1nat
        } else {
            0nat
        }
    }
}

pub proof fn lemma_occurrences_le(ts: Seq<Seq<char>>, t: Seq<char>)
    ensures
        occurrences(ts, t) <= ts.len(),
    decreases ts.len(),
{
    if ts.len() > 0 {
        lemma_occurrences_le(ts.drop_last(), t);
    }
}

/// Builds the term-frequency table of a term sequence: each distinct term
/// is mapped to its number of occurrences.
pub fn count_terms(terms: &[String]) -> (tf: StrTable<u64>)
    ensures
        tf.wf(),
        forall|t: Seq<char>|
            #[trigger] tf@.contains_key(t) <==> occurrences(terms.deep_view(), t) > 0,
        forall|t: Seq<char>|
            tf@.contains_key(t) ==> tf@[t] == occurrences(terms.deep_view(), t),
{
    let ghost ts = terms.deep_view();
    let n = terms.len();
    let mut tf: StrTable<u64> = StrTable::new();
    let mut i: usize = 0;
    while i < n
        invariant
            i <= n,
            n == ts.len(),
            ts == terms.deep_view(),
            tf.wf(),
            forall|t: Seq<char>|
                #[trigger] tf@.contains_key(t) <==> occurrences(ts.take(i as int), t) > 0,
            forall|t: Seq<char>|
                tf@.contains_key(t) ==> tf@[t] == occurrences(ts.take(i as int), t),
        decreases n - i,
    {
        let term = &terms[i];
        let ghost pre = ts.take(i as int);
        let ghost post = ts.take(i as int + 1);
        proof {
            assert(post.drop_last() =~= pre);
            assert(post.last() == ts[i as int]);
            assert(ts[i as int] == term@);
            lemma_occurrences_le(pre, term@);
        }
        let count: u64 = match tf.get(term.as_str()) {
            Some(c) => *c + 1,
            None => 1,
        };
        tf.set_value(term.clone(), count);
        proof {
            assert forall|t: Seq<char>| #[trigger]
                tf@.contains_key(t) <==> occurrences(post, t) > 0 by {
                if t != term@ {
                    assert(occurrences(post, t) == occurrences(pre, t));
                }
            }
            assert forall|t: Seq<char>| tf@.contains_key(t) implies tf@[t] == occurrences(
                post,
                t,
            ) by {
                if t != term@ {
                    assert(occurrences(post, t) == occurrences(pre, t));
                }
            }
        }
        i += 1;
    }
    proof {
        assert(ts.take(n as int) =~= ts);
    }
    tf
}

/// The statistics kept for one indexed document.
pub struct DocumentStats {
    /// The caller-supplied identifier of the document.
    pub doc_id: u32,
    /// The number of terms of the document, repeats included.
    pub doc_length: u64,
    /// How often each distinct term occurs in the document.
    pub term_freq: StrTable<u64>,
}

impl DocumentStats {
    pub open spec fn wf(&self) -> bool {
        &&& self.term_freq.wf()
        &&& forall|t: Seq<char>| #[trigger]
            self.term_freq@.contains_key(t) ==> self.term_freq@[t] >= 1
    }
}

/// The views of the ids of `s`, in entry order.
pub open spec fn seq_ids(s: Seq<(u32, DocumentStats)>) -> Seq<u32> {
    s.map_values(|e: (u32, DocumentStats)| e.0)
}

/// The map an id-keyed entry sequence stands for; later entries win.
pub open spec fn id_map(s: Seq<(u32, DocumentStats)>) -> Map<u32, DocumentStats>
    decreases s.len(),
{
    if s.len() == 0 {
        Map::empty()
    } else {
        id_map(s.drop_last()).insert(s.last().0, s.last().1)
    }
}

/// The sum of the document lengths recorded in `s`.
pub open spec fn total_lengths(s: Seq<(u32, DocumentStats)>) -> int
    decreases s.len(),
{
    if s.len() == 0 {
        0
    } else {
        total_lengths(s.drop_last()) + s.last().1.doc_length
    }
}

pub proof fn lemma_total_lengths_nonneg(s: Seq<(u32, DocumentStats)>)
    ensures
        total_lengths(s) >= 0,
    decreases s.len(),
{
    if s.len() > 0 {
        lemma_total_lengths_nonneg(s.drop_last());
    }
}

pub proof fn lemma_total_lengths_remove(s: Seq<(u32, DocumentStats)>, i: int)
    requires
        0 <= i < s.len(),
    ensures
        total_lengths(s.remove(i)) == total_lengths(s) - s[i].1.doc_length,
    decreases s.len(),
{
    if i == s.len() - 1 {
        assert(s.remove(i) =~= s.drop_last());
    } else {
        lemma_total_lengths_remove(s.drop_last(), i);
        assert(s.remove(i).drop_last() =~= s.drop_last().remove(i));
        assert(s.remove(i).last() == s.last());
        assert(s.drop_last()[i] == s[i]);
    }
}

proof fn lemma_id_map_contains(s: Seq<(u32, DocumentStats)>)
    ensures
        forall|k: u32| #[trigger] id_map(s).contains_key(k) <==> seq_ids(s).contains(k),
    decreases s.len(),
{
    if s.len() == 0 {
    } else {
        lemma_id_map_contains(s.drop_last());
        assert(seq_ids(s).drop_last() =~= seq_ids(s.drop_last()));
        assert forall|k: u32| #[trigger]
            id_map(s).contains_key(k) <==> seq_ids(s).contains(k) by {
            if id_map(s).contains_key(k) {
                if k == s.last().0 {
                    assert(seq_ids(s)[s.len() - 1] == k);
                } else {
                    assert(id_map(s.drop_last()).contains_key(k));
                    assert(seq_ids(s.drop_last()).contains(k));
                    let i = choose|i: int|
                        0 <= i < seq_ids(s.drop_last()).len() && seq_ids(s.drop_last())[i] == k;
                    assert(seq_ids(s)[i] == seq_ids(s).drop_last()[i]);
                    assert(seq_ids(s)[i] == k);
                }
            }
            if seq_ids(s).contains(k) {
                let i = choose|i: int| 0 <= i < seq_ids(s).len() && seq_ids(s)[i] == k;
                if i < s.len() - 1 {
                    assert(seq_ids(s.drop_last())[i] == k);
                    assert(seq_ids(s.drop_last()).contains(k));
                    assert(id_map(s.drop_last()).contains_key(k));
                } else {
                    assert(k == s.last().0);
                }
            }
        }
    }
}

proof fn lemma_id_map_index(s: Seq<(u32, DocumentStats)>, i: int)
    requires
        seq_ids(s).no_duplicates(),
        0 <= i < s.len(),
    ensures
        id_map(s).contains_key(s[i].0),
        id_map(s)[s[i].0] == s[i].1,
    decreases s.len(),
{
    if i == s.len() - 1 {
    } else {
        assert(seq_ids(s).drop_last() =~= seq_ids(s.drop_last()));
        assert(seq_ids(s.drop_last()).no_duplicates());
        lemma_id_map_index(s.drop_last(), i);
        assert(seq_ids(s)[i] != seq_ids(s)[s.len() - 1]);
    }
}

proof fn lemma_id_map_push(s: Seq<(u32, DocumentStats)>, e: (u32, DocumentStats))
    ensures
        id_map(s.push(e)) == id_map(s).insert(e.0, e.1),
{
    assert(s.push(e).drop_last() =~= s);
    assert(s.push(e).last() == e);
}

proof fn lemma_id_map_remove(s: Seq<(u32, DocumentStats)>, i: int)
    requires
        seq_ids(s).no_duplicates(),
        0 <= i < s.len(),
    ensures
        id_map(s.remove(i)) =~= id_map(s).remove(s[i].0),
    decreases s.len(),
{
    lemma_id_map_contains(s.drop_last());
    assert(seq_ids(s).drop_last() =~= seq_ids(s.drop_last()));
    assert(seq_ids(s.drop_last()).no_duplicates());
    if i == s.len() - 1 {
        assert(s.remove(i) =~= s.drop_last());
        assert(!seq_ids(s.drop_last()).contains(s.last().0)) by {
            if seq_ids(s.drop_last()).contains(s.last().0) {
                let m = choose|m: int|
                    0 <= m < seq_ids(s.drop_last()).len() && seq_ids(s.drop_last())[m] == s.last().0;
                assert(seq_ids(s)[m] == seq_ids(s).drop_last()[m]);
                assert(seq_ids(s)[m] == seq_ids(s)[s.len() - 1]);
            }
        }
        assert(!id_map(s.drop_last()).contains_key(s.last().0));
        assert(id_map(s.drop_last()).insert(s.last().0, s.last().1).remove(s.last().0) =~= id_map(
            s.drop_last(),
        ));
    } else {
        lemma_id_map_remove(s.drop_last(), i);
        assert(s.remove(i).drop_last() =~= s.drop_last().remove(i));
        assert(s.remove(i).last() == s.last());
        assert(s.drop_last()[i] == s[i]);
        assert(seq_ids(s)[i] != seq_ids(s)[s.len() - 1]);
        assert(id_map(s.drop_last()).remove(s[i].0).insert(s.last().0, s.last().1) =~= id_map(
            s.drop_last(),
        ).insert(s.last().0, s.last().1).remove(s[i].0));
    }
}

/// The store of per-document statistics, keyed by document id.
pub struct DocTable {
    /// The records, one per currently indexed document.
    pub entries: Vec<(u32, DocumentStats)>,
}

impl View for DocTable {
    type V = Map<u32, DocumentStats>;

    open spec fn view(&self) -> Map<u32, DocumentStats> {
        id_map(self.entries@)
    }
}

impl DocTable {
    /// Well-formed: no document id occurs twice.
    pub open spec fn wf(&self) -> bool {
        seq_ids(self.entries@).no_duplicates()
    }

    /// The sum of the recorded document lengths.
    pub open spec fn spec_total(&self) -> int {
        total_lengths(self.entries@)
    }

    /// The store's ids are exactly the domain of its map, so the map is
    /// finite and has one record per id.
    pub proof fn lemma_dom(&self)
        requires
            self.wf(),
        ensures
            self@.dom() =~= seq_ids(self.entries@).to_set(),
            self@.dom().len() == self.entries@.len(),
            self@.dom().finite(),
    {
        lemma_id_map_contains(self.entries@);
        broadcast use vstd::seq_lib::seq_to_set_is_finite;

        assert(self@.dom() =~= seq_ids(self.entries@).to_set());
        seq_ids(self.entries@).unique_seq_to_set();
    }

    pub fn new() -> (t: Self)
        ensures
            t@ == Map::<u32, DocumentStats>::empty(),
            t.wf(),
            t.entries@.len() == 0,
    {
        DocTable { entries: Vec::new() }
    }

    /// Each stored record's length is part of the sum of all lengths.
    pub proof fn lemma_doc_length_le_total(&self, id: u32)
        requires
            self.wf(),
            self@.contains_key(id),
        ensures
            0 <= self@[id].doc_length <= self.spec_total(),
    {
        lemma_id_map_contains(self.entries@);
        let i = choose|i: int|
            0 <= i < seq_ids(self.entries@).len() && seq_ids(self.entries@)[i] == id;
        lemma_id_map_index(self.entries@, i);
        lemma_total_lengths_remove(self.entries@, i);
        lemma_total_lengths_nonneg(self.entries@.remove(i));
    }

    pub fn len(&self) -> (n: usize)
        ensures
            n == self.entries@.len(),
    {
        self.entries.len()
    }

    fn position(&self, id: u32) -> (r: Option<usize>)
        ensures
            match r {
                Some(i) => 0 <= i < self.entries@.len() && self.entries@[i as int].0 == id,
                None => !seq_ids(self.entries@).contains(id),
            },
    {
        let n = self.entries.len();
        let mut i: usize = 0;
        while i < n
            invariant
                i <= n,
                n == self.entries@.len(),
                forall|m: int| 0 <= m < i ==> seq_ids(self.entries@)[m] != id,
            decreases n - i,
    {
            let e = &self.entries[i];
            if e.0 == id {
                return Some(i);
            }
            i += 1;
        }
        None
    }

    pub fn contains(&self, id: u32) -> (r: bool)
        ensures
            r == self@.contains_key(id),
    {
        proof {
            lemma_id_map_contains(self.entries@);
        }
        match self.position(id) {
            Some(i) => {
                proof {
                    assert(seq_ids(self.entries@)[i as int] == id);
                }
                true
            },
            None => false,
        }
    }

    pub fn get(&self, id: u32) -> (r: Option<&DocumentStats>)
        requires
            self.wf(),
        ensures
            match r {
                Some(d) => self@.contains_key(id) && *d == self@[id],
                None => !self@.contains_key(id),
            },
    {
        proof {
            lemma_id_map_contains(self.entries@);
        }
        match self.position(id) {
            Some(i) => {
                proof {
                    lemma_id_map_index(self.entries@, i as int);
                    assert(seq_ids(self.entries@)[i as int] == id);
                }
                let e = &self.entries[i];
                Some(&e.1)
            },
            None => None,
        }
    }

    /// Registers a record for an id that is not yet present.
    pub fn insert_new(&mut self, id: u32, stats: DocumentStats)
        requires
            old(self).wf(),
            !old(self)@.contains_key(id),
        ensures
            final(self).wf(),
            final(self)@ == old(self)@.insert(id, stats),
            final(self).spec_total() == old(self).spec_total() + stats.doc_length,
            final(self).entries@.len() == old(self).entries@.len() + 1,
    {
        proof {
            lemma_id_map_contains(self.entries@);
            lemma_id_map_push(self.entries@, (id, stats));
            lemma_no_duplicates_push(seq_ids(self.entries@), id);
            assert(seq_ids(self.entries@.push((id, stats))) =~= seq_ids(self.entries@).push(id));
            assert(self.entries@.push((id, stats)).drop_last() =~= self.entries@);
        }
        self.entries.push((id, stats));
    }

    /// Removes and returns the record of `id`, if one is present.
    pub fn remove(&mut self, id: u32) -> (r: Option<DocumentStats>)
        requires
            old(self).wf(),
        ensures
            final(self).wf(),
            match r {
                Some(d) => {
                    &&& old(self)@.contains_key(id)
                    &&& d == old(self)@[id]
                    &&& final(self)@ == old(self)@.remove(id)
                    &&& final(self).spec_total() == old(self).spec_total() - d.doc_length
                    &&& final(self).entries@.len() + 1 == old(self).entries@.len()
                },
                None => {
                    &&& !old(self)@.contains_key(id)
                    &&& *final(self) == *old(self)
                },
            },
    {
        proof {
            lemma_id_map_contains(self.entries@);
        }
        match self.position(id) {
            Some(i) => {
                proof {
                    assert(seq_ids(self.entries@)[i as int] == id);
                    lemma_id_map_index(self.entries@, i as int);
                    lemma_id_map_remove(self.entries@, i as int);
                    lemma_total_lengths_remove(self.entries@, i as int);
                    assert(seq_ids(self.entries@.remove(i as int)) =~= seq_ids(
                        self.entries@,
                    ).remove(i as int));
                    lemma_no_duplicates_remove(seq_ids(self.entries@), i as int);
                }
                let e = self.entries.remove(i);
                Some(e.1)
            },
            None => None,
        }
    }
}

} // verus!
