//! The index: insertion, replacement, deletion and top-k search over the
//! inverted index and the per-document statistics.

use vstd::prelude::*;
use vstd::arithmetic::mul::lemma_mul_inequality;
use vstd::set_lib::lemma_len_subset;
use crate::postings::Postings;
use crate::postings::asc_seq_of;
use crate::postings::insert_sorted;
use crate::postings::lemma_sorted_unique;
use crate::postings::lemma_to_set_push;
use crate::rank::spec_top_k;
use crate::rank::top_k_select;
use crate::score::term_score;
use crate::table::str_eq;
use crate::postings::sorted_strict;
use crate::stats::DocTable;
use crate::stats::DocumentStats;
use crate::stats::count_terms;
use crate::stats::lemma_occurrences_le;
use crate::stats::occurrences;
use crate::stats::total_lengths;
use crate::table::StrTable;
use crate::tokenizer::spec_tokens;
use crate::tokenizer::stemmer;
use crate::tokenizer::tokenize;

verus! {

/// What can go wrong: an insert-only call on an id that is already
/// indexed, or construction with tuning constants out of range.
#[derive(Clone, Copy, Debug, PartialEq, Eq, Structural)]
pub enum IndexError {
    DuplicateDocument,
    InvalidConfig,
}

/// The abstract content of one document's statistics.
#[verifier::ext_equal]
pub ghost struct DocModel {
    pub doc_length: u64,
    pub tf: Map<Seq<char>, u64>,
}

/// The abstract content of the index: the posting sets, the document
/// records, the corpus length aggregate, and the tuning constants in
/// thousandths.
#[verifier::ext_equal]
pub ghost struct IndexModel {
    pub postings: Map<Seq<char>, Set<u32>>,
    pub docs: Map<u32, DocModel>,
    pub total: int,
    pub k_milli: int,
    pub b_milli: int,
}

/// The term-frequency map of a term sequence.
pub open spec fn counts_map(ts: Seq<Seq<char>>) -> Map<Seq<char>, u64> {
    Map::new(|t: Seq<char>| occurrences(ts, t) > 0, |t: Seq<char>| occurrences(ts, t) as u64)
}

/// The document record a term sequence gives rise to.
pub open spec fn doc_model_of(ts: Seq<Seq<char>>) -> DocModel {
    DocModel { doc_length: ts.len() as u64, tf: counts_map(ts) }
}

impl IndexModel {
    /// The ids of the documents that contain `t`; empty for unseen terms.
    pub open spec fn posting_set(self, t: Seq<char>) -> Set<u32> {
        if self.postings.contains_key(t) {
            self.postings[t]
        } else {
            Set::empty()
        }
    }

    /// The document frequency of `t`.
    pub open spec fn df(self, t: Seq<char>) -> int {
        self.posting_set(t).len() as int
    }

    /// The number of indexed documents.
    pub open spec fn num_docs(self) -> int {
        self.docs.dom().len() as int
    }

    /// The ids of the indexed documents whose term-frequency map
    /// contains `t`.
    pub open spec fn docs_containing(self, t: Seq<char>) -> Set<u32> {
        self.docs.dom().filter(|id: u32| self.docs[id].tf.contains_key(t))
    }

    /// The invariants every reachable index satisfies: posting sets are
    /// exactly the sets of documents containing each term, posting sets
    /// are pruned when empty, term frequencies are positive and no larger
    /// than the document length, and the tuning constants are in range.
    pub open spec fn inv(self) -> bool {
        &&& self.docs.dom().finite()
        &&& forall|t: Seq<char>| #[trigger]
            self.postings.contains_key(t) ==> self.postings[t].len() > 0 && self.postings[t].finite()
        &&& forall|t: Seq<char>| #[trigger] self.posting_set(t) == self.docs_containing(t)
        &&& forall|id: u32| #[trigger]
            self.docs.contains_key(id) ==> {
                forall|t: Seq<char>| #[trigger]
                    self.docs[id].tf.contains_key(t) ==> 1 <= self.docs[id].tf[t] <= self.docs[id].doc_length
            }
        &&& 0 <= self.b_milli <= 1000
        &&& 0 <= self.k_milli < 0x100000000
    }

    /// The term frequency of `t` in document `id`; zero when absent.
    pub open spec fn tf_of(self, id: u32, t: Seq<char>) -> int {
        if self.docs.contains_key(id) && self.docs[id].tf.contains_key(t) {
            self.docs[id].tf[t] as int
        } else {
            0
        }
    }

    /// The length of document `id`; zero when absent.
    pub open spec fn doc_len_of(self, id: u32) -> int {
        if self.docs.contains_key(id) {
            self.docs[id].doc_length as int
        } else {
            0
        }
    }

    /// The BM25 contribution of query term `t` to document `id`.
    pub open spec fn term_contrib(self, id: u32, t: Seq<char>) -> int {
        crate::score::term_score_micro_spec(
            self.tf_of(id, t),
            self.doc_len_of(id),
            self.df(t),
            self.num_docs(),
            self.total,
            self.k_milli,
            self.b_milli,
        )
    }

    /// The BM25 score of document `id` for the query terms `q`: the sum
    /// of the contributions of the distinct terms of `q`.
    pub open spec fn doc_score(self, q: Seq<Seq<char>>, id: u32) -> int
        decreases q.len(),
    {
        if q.len() == 0 {
            0
        } else {
            self.doc_score(q.drop_last(), id) + if q.drop_last().contains(q.last()) {
                0
            } else {
                self.term_contrib(id, q.last())
            }
        }
    }

    /// The score clamped into `u64`; scores beyond the range saturate.
    pub open spec fn doc_score_clamped(self, q: Seq<Seq<char>>, id: u32) -> u64 {
        let s = self.doc_score(q, id);
        if s > 0xffffffffffffffff {
            0xffffffffffffffffu64
        } else if s < 0 {
            0u64
        } else {
            s as u64
        }
    }

    /// The candidates of a query: every document that contains at least
    /// one query term.
    pub open spec fn cand_set(self, q: Seq<Seq<char>>) -> Set<u32> {
        Set::new(
            |id: u32| exists|i: int| 0 <= i < q.len() && #[trigger] self.posting_set(q[i]).contains(id),
        )
    }

    /// The candidates that contain a term among the first `upto` query
    /// terms.
    pub open spec fn cand_union(self, q: Seq<Seq<char>>, upto: int) -> Set<u32> {
        Set::new(
            |id: u32| exists|i: int| 0 <= i < upto && i < q.len() && #[trigger] self.posting_set(
                q[i],
            ).contains(id),
        )
    }

    /// The scored candidates, in candidate order, keeping only positive
    /// scores.
    pub open spec fn scored_of(self, q: Seq<Seq<char>>, ids: Seq<u32>) -> Seq<(u64, u32)>
        decreases ids.len(),
    {
        if ids.len() == 0 {
            Seq::empty()
        } else {
            self.scored_of(q, ids.drop_last()) + if self.doc_score_clamped(q, ids.last()) > 0 {
                seq![(self.doc_score_clamped(q, ids.last()), ids.last())]
            } else {
                Seq::empty()
            }
        }
    }

    /// What a search returns: the candidates in ascending id order are
    /// scored, zero scores are dropped, and the `k` best remain, best
    /// first.
    pub open spec fn spec_search(self, q: Seq<Seq<char>>, k: nat) -> Seq<(u64, u32)> {
        spec_top_k(self.scored_of(q, asc_seq_of(self.cand_set(q))), k)
    }

    /// The index after registering a fresh document with term sequence
    /// `ts` under `id`.
    pub open spec fn after_insert(self, ts: Seq<Seq<char>>, id: u32) -> IndexModel {
        IndexModel {
            postings: Map::new(
                |t: Seq<char>| self.postings.contains_key(t) || occurrences(ts, t) > 0,
                |t: Seq<char>|
                    if occurrences(ts, t) > 0 {
                        self.posting_set(t).insert(id)
                    } else {
                        self.postings[t]
                    },
            ),
            docs: self.docs.insert(id, doc_model_of(ts)),
            total: self.total + ts.len(),
            k_milli: self.k_milli,
            b_milli: self.b_milli,
        }
    }

    /// The index after erasing the document `id`; erasing an absent id
    /// changes nothing.
    pub open spec fn after_delete(self, id: u32) -> IndexModel {
        if !self.docs.contains_key(id) {
            self
        } else {
            IndexModel {
                postings: Map::new(
                    |t: Seq<char>| self.postings.contains_key(t) && self.postings[t].remove(id).len() > 0,
                    |t: Seq<char>| self.postings[t].remove(id),
                ),
                docs: self.docs.remove(id),
                total: self.total - self.docs[id].doc_length,
                k_milli: self.k_milli,
                b_milli: self.b_milli,
            }
        }
    }
}

/// The in-memory full-text index.
pub struct Index {
    /// Term to posting-set store.
    pub postings: Postings,
    /// Document id to statistics store.
    pub docs: DocTable,
    /// The sum of all indexed documents' lengths.
    pub total_doc_lengths: u64,
    /// BM25 term-frequency saturation `k`, in thousandths.
    pub k_milli: u32,
    /// BM25 length-normalization strength `b`, in thousandths.
    pub b_milli: u32,
}

impl Index {
    /// The abstract content of the index.
    pub open spec fn model(&self) -> IndexModel {
        IndexModel {
            postings: self.postings.table@.map_values(|v: Vec<u32>| v@.to_set()),
            docs: self.docs@.map_values(
                |d: DocumentStats| DocModel { doc_length: d.doc_length, tf: d.term_freq@ },
            ),
            total: self.total_doc_lengths as int,
            k_milli: self.k_milli as int,
            b_milli: self.b_milli as int,
        }
    }

    /// Well-formed: the stores are well-formed, the length aggregate is
    /// the sum of the stored lengths, and the abstract invariants hold.
    pub open spec fn wf(&self) -> bool {
        &&& self.postings.wf()
        &&& self.docs.wf()
        &&& forall|id: u32| #[trigger]
            self.docs@.contains_key(id) ==> self.docs@[id].wf() && self.docs@[id].doc_id == id
        &&& self.total_doc_lengths as int == total_lengths(self.docs.entries@)
        &&& self.b_milli <= 1000
        &&& self.model().inv()
    }

    /// The posting store and the abstract model agree on every term's
    /// posting set.
    pub proof fn lemma_model_postings(&self)
        requires
            self.postings.wf(),
        ensures
            forall|t: Seq<char>| #[trigger]
                self.model().postings.contains_key(t) <==> self.postings.table@.contains_key(t),
            forall|t: Seq<char>| #[trigger]
                self.model().posting_set(t) == self.postings.posting_set(t),
    {
        assert forall|t: Seq<char>| #[trigger]
            self.model().posting_set(t) == self.postings.posting_set(t) by {
            if self.postings.table@.contains_key(t) {
                assert(self.model().postings[t] == self.postings.table@[t]@.to_set());
            }
        }
    }

    /// The document store and the abstract model agree on every record.
    pub proof fn lemma_model_docs(&self)
        ensures
            forall|id: u32| #[trigger]
                self.model().docs.contains_key(id) <==> self.docs@.contains_key(id),
            forall|id: u32| #[trigger]
                self.docs@.contains_key(id) ==> self.model().docs[id] == (DocModel {
                    doc_length: self.docs@[id].doc_length,
                    tf: self.docs@[id].term_freq@,
                }),
    {
    }

    /// A new empty index with the given tuning constants in thousandths.
    fn mk(k_milli: u32, b_milli: u32) -> (r: Index)
        requires
            b_milli <= 1000,
        ensures
            r.wf(),
            r.model().docs == Map::<u32, DocModel>::empty(),
            forall|t: Seq<char>| #[trigger] r.model().posting_set(t) == Set::<u32>::empty(),
            r.model().total == 0,
            r.model().k_milli == k_milli,
            r.model().b_milli == b_milli,
    {
        let r = Index {
            postings: Postings::new(),
            docs: DocTable::new(),
            total_doc_lengths: 0,
            k_milli,
            b_milli,
        };
        proof {
            assert(r.model().docs =~= Map::<u32, DocModel>::empty());
            assert(r.model().docs.dom() =~= Set::<u32>::empty());
            r.lemma_model_postings();
            assert forall|t: Seq<char>| #[trigger]
                r.model().posting_set(t) == Set::<u32>::empty() by {
                assert(r.postings.posting_set(t) == Set::<u32>::empty());
            }
            assert forall|t: Seq<char>| !(#[trigger] r.model().postings.contains_key(t)) by {
                if r.model().postings.contains_key(t) {
                    assert(r.postings.table@.contains_key(t));
                    assert(r.postings.table@[t]@.len() > 0);
                    assert(r.postings.posting_set(t).contains(r.postings.table@[t]@[0]));
                }
            }
            assert forall|t: Seq<char>| #[trigger]
                r.model().posting_set(t) == r.model().docs_containing(t) by {
                assert(r.model().docs_containing(t) =~= Set::<u32>::empty());
            }
        }
        r
    }

    /// A new index with the default tuning constants `k = 1.5` and
    /// `b = 0.75`.
    pub fn new() -> (r: Index)
        ensures
            r.wf(),
            r.model().docs == Map::<u32, DocModel>::empty(),
            forall|t: Seq<char>| #[trigger] r.model().posting_set(t) == Set::<u32>::empty(),
            r.model().total == 0,
            r.model().k_milli == 1500,
            r.model().b_milli == 750,
    {
        Index::mk(1500, 750)
    }

    /// A new empty index with the given tuning constants, both in
    /// thousandths: `k` must be non-negative (and fit the store), `b`
    /// must lie between zero and one.
    pub fn with_params(k_milli: i64, b_milli: i64) -> (r: Result<Index, IndexError>)
        ensures
            match r {
                Ok(ix) => {
                    &&& 0 <= k_milli <= 0xffffffff
                    &&& 0 <= b_milli <= 1000
                    &&& ix.wf()
                    &&& ix.model().docs == Map::<u32, DocModel>::empty()
                    &&& forall|t: Seq<char>| #[trigger] ix.model().posting_set(t) == Set::<
                        u32,
                    >::empty()
                    &&& ix.model().total == 0
                    &&& ix.model().k_milli == k_milli
                    &&& ix.model().b_milli == b_milli
                },
                Err(e) => {
                    &&& e == IndexError::InvalidConfig
                    &&& (k_milli < 0 || k_milli > 0xffffffff || b_milli < 0 || b_milli > 1000)
                },
            },
    {
        if k_milli < 0 || k_milli > 0xffffffff || b_milli < 0 || b_milli > 1000 {
            return Err(IndexError::InvalidConfig);
        }
        Ok(Index::mk(k_milli as u32, b_milli as u32))
    }

    /// The number of currently indexed documents.
    pub fn num_docs(&self) -> (n: usize)
        requires
            self.wf(),
        ensures
            n as int == self.model().num_docs(),
    {
        proof {
            self.docs.lemma_dom();
            assert(self.model().docs.dom() =~= self.docs@.dom());
        }
        self.docs.len()
    }

    /// The number of currently indexed documents that contain `term`.
    pub fn doc_frequency(&self, term: &str) -> (n: usize)
        requires
            self.wf(),
        ensures
            n as int == self.model().df(term@),
    {
        proof {
            self.lemma_model_postings();
        }
        self.postings.doc_frequency(term)
    }

    /// The term-frequency table of a term sequence: each distinct term
    /// mapped to its number of occurrences.
    pub fn term_frequency(&self, terms: &[String]) -> (tf: StrTable<u64>)
        ensures
            tf.wf(),
            tf@ == counts_map(terms.deep_view()),
    {
        let tf = count_terms(terms);
        proof {
            assert(tf@ =~= counts_map(terms.deep_view()));
        }
        tf
    }

    /// Registers `doc` under `doc_id`; insert-only, so an id that is
    /// already present is refused and nothing changes.
    pub fn insert(&mut self, doc: &str, doc_id: u32) -> (r: Result<(), IndexError>)
        requires
            old(self).wf(),
            old(self).total_doc_lengths as int + spec_tokens(doc@).len() <= 0xffffffffffffffff,
        ensures
            final(self).wf(),
            match r {
                Ok(_) => {
                    &&& !old(self).docs@.contains_key(doc_id)
                    &&& final(self).model() == old(self).model().after_insert(
                        spec_tokens(doc@),
                        doc_id,
                    )
                },
                Err(e) => {
                    &&& e == IndexError::DuplicateDocument
                    &&& old(self).docs@.contains_key(doc_id)
                    &&& *final(self) == *old(self)
                },
            },
    {
        if self.docs.contains(doc_id) {
            return Err(IndexError::DuplicateDocument);
        }
        let ghost ts = spec_tokens(doc@);
        let ghost m0 = old(self).model();
        let toks = tokenize(doc);
        let terms = stemmer(&toks);
        let tf = count_terms(terms);
        proof {
            assert(terms.deep_view() == ts);
        }
        let nkeys = tf.len();
        let mut i: usize = 0;
        while i < nkeys
            invariant
                i <= nkeys,
                nkeys == tf.keys().len(),
                tf.wf(),
                forall|t: Seq<char>| #[trigger]
                    tf@.contains_key(t) <==> occurrences(ts, t) > 0,
                forall|t: Seq<char>| tf@.contains_key(t) ==> tf@[t] == occurrences(ts, t),
                self.docs == old(self).docs,
                self.total_doc_lengths == old(self).total_doc_lengths,
                self.k_milli == old(self).k_milli,
                self.b_milli == old(self).b_milli,
                self.postings.wf(),
                forall|t: Seq<char>|
                    tf.keys().take(i as int).contains(t) ==> #[trigger] self.postings.posting_set(
                        t,
                    ) == old(self).postings.posting_set(t).insert(doc_id),
                forall|t: Seq<char>|
                    !tf.keys().take(i as int).contains(t) ==> #[trigger] self.postings.posting_set(
                        t,
                    ) == old(self).postings.posting_set(t),
            decreases nkeys - i,
        {
            let ghost pre = self.postings;
            let term = tf.key_at(i);
            self.postings.add(term, doc_id);
            proof {
                let tk = tf.keys();
                assert(tk.take(i as int + 1) =~= tk.take(i as int).push(tk[i as int]));
                assert forall|t: Seq<char>|
                    tk.take(i as int + 1).contains(t) implies #[trigger] self.postings.posting_set(
                    t,
                ) == old(self).postings.posting_set(t).insert(doc_id) by {
                    if t == tk[i as int] {
                        assert(!tk.take(i as int).contains(t)) by {
                            if tk.take(i as int).contains(t) {
                                let m = choose|m: int| 0 <= m < i && tk.take(i as int)[m] == t;
                                assert(tk[m] == tk[i as int]);
                            }
                        }
                        assert(pre.posting_set(t) == old(self).postings.posting_set(t));
                    } else {
                        let m = choose|m: int|
                            0 <= m < tk.take(i as int + 1).len() && #[trigger] tk.take(
                                i as int + 1,
                            )[m] == t;
                        assert(tk.take(i as int)[m] == t);
                        assert(tk.take(i as int).contains(t));
                    }
                }
                assert forall|t: Seq<char>|
                    !tk.take(i as int + 1).contains(t) implies #[trigger] self.postings.posting_set(
                    t,
                ) == old(self).postings.posting_set(t) by {
                    assert(!tk.take(i as int).contains(t)) by {
                        if tk.take(i as int).contains(t) {
                            let m = choose|m: int| 0 <= m < i && tk.take(i as int)[m] == t;
                            assert(tk.take(i as int + 1)[m] == t);
                        }
                    }
                    assert(t != tk[i as int]) by {
                        if t == tk[i as int] {
                            assert(tk.take(i as int + 1)[i as int] == t);
                        }
                    }
                }
            }
            i += 1;
        }
        let num_terms = terms.len();
        let stats = DocumentStats { doc_id, doc_length: num_terms as u64, term_freq: tf };
        proof {
            assert forall|t: Seq<char>| #[trigger]
                stats.term_freq@.contains_key(t) implies 1 <= stats.term_freq@[t] <= stats.doc_length by {
                lemma_occurrences_le(ts, t);
            }
        }
        self.docs.insert_new(doc_id, stats);
        self.total_doc_lengths = self.total_doc_lengths + (num_terms as u64);
        proof {
            let mN = self.model();
            let mA = m0.after_insert(ts, doc_id);
            let tk = tf.keys();
            assert(tk.take(nkeys as int) =~= tk);
            tf.lemma_dom();
            old(self).lemma_model_postings();
            self.lemma_model_postings();
            // keys of the new document's table are exactly the terms that occur
            assert forall|t: Seq<char>| #[trigger]
                tk.contains(t) <==> occurrences(ts, t) > 0 by {
                assert(tk.contains(t) <==> tk.to_set().contains(t));
                assert(tf@.contains_key(t) <==> tk.to_set().contains(t));
            }
            // posting component
            assert forall|t: Seq<char>| #[trigger]
                mN.postings.contains_key(t) <==> mA.postings.contains_key(t) by {
                if occurrences(ts, t) > 0 {
                    assert(self.postings.posting_set(t) == old(self).postings.posting_set(
                        t,
                    ).insert(doc_id));
                    assert(self.postings.posting_set(t).contains(doc_id));
                    assert(self.postings.table@.contains_key(t));
                } else {
                    assert(self.postings.posting_set(t) == old(self).postings.posting_set(t));
                    assert(self.postings.table@.contains_key(t) <==> old(
                        self,
                    ).postings.table@.contains_key(t)) by {
                        if self.postings.table@.contains_key(t) {
                            assert(self.postings.posting_set(t).contains(
                                self.postings.table@[t]@[0],
                            ));
                        }
                        if old(self).postings.table@.contains_key(t) {
                            assert(old(self).postings.posting_set(t).contains(
                                old(self).postings.table@[t]@[0],
                            ));
                        }
                    }
                }
            }
            assert forall|t: Seq<char>| #[trigger]
                mN.postings.contains_key(t) implies mN.postings[t] == mA.postings[t] by {
                assert(mN.postings[t] == mN.posting_set(t));
                if occurrences(ts, t) > 0 {
                    assert(mN.posting_set(t) == m0.posting_set(t).insert(doc_id));
                } else {
                    assert(mN.posting_set(t) == m0.posting_set(t));
                    assert(mA.postings[t] == m0.postings[t]);
                    assert(m0.postings.contains_key(t));
                }
            }
            assert(mN.postings =~= mA.postings);
            // docs component
            assert(self.docs@ == old(self).docs@.insert(doc_id, stats));
            assert(stats.term_freq@ =~= counts_map(ts));
            assert(mN.docs =~~= mA.docs) by {
                assert forall|id: u32| #[trigger]
                    mN.docs.contains_key(id) <==> mA.docs.contains_key(id) by {}
                assert forall|id: u32| #[trigger]
                    mN.docs.contains_key(id) implies mN.docs[id] =~~= mA.docs[id] by {
                    if id != doc_id {
                        assert(mN.docs[id] == m0.docs[id]);
                    } else {
                        assert(mN.docs[id].tf =~= counts_map(ts));
                    }
                }
            }
            assert(mN =~~= mA);
            // well-formedness of the new state
            lemma_after_insert_inv(m0, ts, doc_id);
            assert(mN.inv());
        }
        Ok(())
    }

    /// Erases the document `doc_id` and every posting that pointed at
    /// it; erasing an absent id is a no-op that reports `false`.
    pub fn delete(&mut self, doc_id: u32) -> (r: bool)
        requires
            old(self).wf(),
        ensures
            final(self).wf(),
            r == old(self).docs@.contains_key(doc_id),
            final(self).model() == old(self).model().after_delete(doc_id),
    {
        let ghost m0 = old(self).model();
        let removed = self.docs.remove(doc_id);
        match removed {
            None => {
                proof {
                    assert(!m0.docs.contains_key(doc_id));
                    assert(*final(self) == *old(self));
                }
                false
            },
            Some(stats) => {
                proof {
                    crate::stats::lemma_total_lengths_nonneg(self.docs.entries@);
                }
                self.total_doc_lengths = self.total_doc_lengths - stats.doc_length;
                let ghost docs1 = self.docs;
                let ghost total1 = self.total_doc_lengths;
                let tf = &stats.term_freq;
                let nkeys = tf.len();
                let mut i: usize = 0;
                while i < nkeys
                    invariant
                        i <= nkeys,
                        nkeys == tf.keys().len(),
                        tf.wf(),
                        *tf == old(self).docs@[doc_id].term_freq,
                        old(self).docs@.contains_key(doc_id),
                        self.docs == docs1,
                        self.total_doc_lengths == total1,
                        total1 as int == old(self).total_doc_lengths as int - old(
                            self,
                        ).docs@[doc_id].doc_length,
                        self.k_milli == old(self).k_milli,
                        self.b_milli == old(self).b_milli,
                        self.docs@ == old(self).docs@.remove(doc_id),
                        self.postings.wf(),
                        forall|t: Seq<char>|
                            tf.keys().take(i as int).contains(t)
                                ==> #[trigger] self.postings.posting_set(t) == old(
                                self,
                            ).postings.posting_set(t).remove(doc_id),
                        forall|t: Seq<char>|
                            !tf.keys().take(i as int).contains(t)
                                ==> #[trigger] self.postings.posting_set(t) == old(
                                self,
                            ).postings.posting_set(t),
                    decreases nkeys - i,
                {
                    let ghost pre = self.postings;
                    let term = tf.key_at(i);
                    self.postings.remove(term.as_str(), doc_id);
                    proof {
                        let tk = tf.keys();
                        assert(tk.take(i as int + 1) =~= tk.take(i as int).push(tk[i as int]));
                        assert forall|t: Seq<char>|
                            tk.take(i as int + 1).contains(t)
                                implies #[trigger] self.postings.posting_set(t) == old(
                            self,
                        ).postings.posting_set(t).remove(doc_id) by {
                            if t == tk[i as int] {
                                assert(!tk.take(i as int).contains(t)) by {
                                    if tk.take(i as int).contains(t) {
                                        let m = choose|m: int|
                                            0 <= m < i && tk.take(i as int)[m] == t;
                                        assert(tk[m] == tk[i as int]);
                                    }
                                }
                                assert(pre.posting_set(t) == old(self).postings.posting_set(t));
                            } else {
                                let m = choose|m: int|
                                    0 <= m < tk.take(i as int + 1).len() && #[trigger] tk.take(
                                        i as int + 1,
                                    )[m] == t;
                                assert(tk.take(i as int)[m] == t);
                                assert(tk.take(i as int).contains(t));
                            }
                        }
                        assert forall|t: Seq<char>|
                            !tk.take(i as int + 1).contains(t)
                                implies #[trigger] self.postings.posting_set(t) == old(
                            self,
                        ).postings.posting_set(t) by {
                            assert(!tk.take(i as int).contains(t)) by {
                                if tk.take(i as int).contains(t) {
                                    let m = choose|m: int| 0 <= m < i && tk.take(i as int)[m] == t;
                                    assert(tk.take(i as int + 1)[m] == t);
                                }
                            }
                            assert(t != tk[i as int]) by {
                                if t == tk[i as int] {
                                    assert(tk.take(i as int + 1)[i as int] == t);
                                }
                            }
                        }
                    }
                    i += 1;
                }
                proof {
                    let mN = self.model();
                    let mA = m0.after_delete(doc_id);
                    let tk = tf.keys();
                    assert(tk.take(nkeys as int) =~= tk);
                    tf.lemma_dom();
                    old(self).lemma_model_postings();
                    self.lemma_model_postings();
                    assert(m0.docs.contains_key(doc_id));
                    assert(m0.docs[doc_id].tf == stats.term_freq@);
                    assert forall|t: Seq<char>| #[trigger]
                        tk.contains(t) <==> m0.docs[doc_id].tf.contains_key(t) by {
                        assert(tk.contains(t) <==> tk.to_set().contains(t));
                    }
                    // a term the deleted document lacked never pointed at it
                    assert forall|t: Seq<char>| !tk.contains(t) implies !#[trigger] m0.posting_set(
                        t,
                    ).contains(doc_id) by {
                        assert(m0.posting_set(t) == m0.docs_containing(t));
                    }
                    assert forall|t: Seq<char>| #[trigger]
                        mN.posting_set(t) == m0.posting_set(t).remove(doc_id) by {
                        if tk.contains(t) {
                            assert(self.postings.posting_set(t) == old(
                                self,
                            ).postings.posting_set(t).remove(doc_id));
                        } else {
                            assert(self.postings.posting_set(t) == old(
                                self,
                            ).postings.posting_set(t));
                            assert(m0.posting_set(t).remove(doc_id) =~= m0.posting_set(t));
                        }
                    }
                    assert forall|t: Seq<char>| #[trigger]
                        mN.postings.contains_key(t) <==> mA.postings.contains_key(t) by {
                        if mN.postings.contains_key(t) {
                            assert(self.postings.table@.contains_key(t));
                            assert(mN.posting_set(t).contains(self.postings.table@[t]@[0]));
                            assert(m0.posting_set(t).remove(doc_id).len() > 0);
                            assert(m0.postings.contains_key(t)) by {
                                if !m0.postings.contains_key(t) {
                                    assert(m0.posting_set(t) =~= Set::<u32>::empty());
                                    assert(m0.posting_set(t).remove(doc_id) =~= Set::<
                                        u32,
                                    >::empty());
                                }
                            }
                        }
                        if mA.postings.contains_key(t) {
                            assert(m0.postings[t].remove(doc_id).len() > 0);
                            assert(mN.posting_set(t) == m0.postings[t].remove(doc_id));
                            assert(mN.posting_set(t) != Set::<u32>::empty()) by {
                                if mN.posting_set(t) == Set::<u32>::empty() {
                                    assert(mN.posting_set(t).len() == 0);
                                }
                            }
                            assert(self.postings.table@.contains_key(t)) by {
                                if !self.postings.table@.contains_key(t) {
                                    assert(self.postings.posting_set(t) =~= Set::<u32>::empty());
                                }
                            }
                        }
                    }
                    assert forall|t: Seq<char>| #[trigger]
                        mN.postings.contains_key(t) implies mN.postings[t] == mA.postings[t] by {
                        assert(mN.postings[t] == mN.posting_set(t));
                        assert(m0.postings.contains_key(t));
                        assert(mA.postings[t] == m0.postings[t].remove(doc_id));
                    }
                    assert(mN.postings =~= mA.postings);
                    assert(mN.docs =~~= mA.docs) by {
                        assert(self.docs@ == old(self).docs@.remove(doc_id));
                        assert forall|k: u32| #[trigger]
                            mN.docs.contains_key(k) <==> mA.docs.contains_key(k) by {}
                        assert forall|k: u32| #[trigger]
                            mN.docs.contains_key(k) implies mN.docs[k] == mA.docs[k] by {}
                    }
                    assert(mN.total == mA.total);
                    assert(mN =~~= mA);
                    lemma_after_delete_inv(m0, doc_id);
                    assert(mN.inv());
                }
                true
            },
        }
    }

    /// Registers `doc` under `doc_id`, replacing any document already
    /// stored under that id.
    pub fn upsert(&mut self, doc: &str, doc_id: u32)
        requires
            old(self).wf(),
            old(self).total_doc_lengths as int + spec_tokens(doc@).len() <= 0xffffffffffffffff,
        ensures
            final(self).wf(),
            final(self).model() == old(self).model().after_delete(doc_id).after_insert(
                spec_tokens(doc@),
                doc_id,
            ),
    {
        let ghost m0 = old(self).model();
        self.delete(doc_id);
        let ghost m1 = self.model();
        proof {
            assert(m1 == m0.after_delete(doc_id));
            assert(!m1.docs.contains_key(doc_id));
            assert(!self.docs@.contains_key(doc_id)) by {
                if self.docs@.contains_key(doc_id) {
                    assert(self.model().docs.contains_key(doc_id));
                }
            }
            assert(self.total_doc_lengths as int <= old(self).total_doc_lengths as int);
        }
        let r = self.insert(doc, doc_id);
        proof {
            assert(final(self).model() == m1.after_insert(spec_tokens(doc@), doc_id));
        }
        match r {
            Ok(_) => {},
            Err(_) => {
                proof {
                    assert(false);
                }
            },
        }
    }

    /// The ids of the documents that contain at least one term of the
    /// query terms `qterms`, in ascending order.
    fn candidates(&self, qterms: &[String]) -> (cands: Vec<u32>)
        requires
            self.wf(),
        ensures
            sorted_strict(cands@),
            cands@ == asc_seq_of(self.model().cand_set(qterms.deep_view())),
            cands@.to_set() == self.model().cand_set(qterms.deep_view()),
    {
        let ghost m = self.model();
        let ghost q = qterms.deep_view();
        let nq = qterms.len();
        let mut cands: Vec<u32> = Vec::new();
        let mut i: usize = 0;
        proof {
            assert(cands@.to_set() =~= m.cand_union(q, 0));
        }
        while i < nq
            invariant
                i <= nq,
                nq == q.len(),
                q == qterms.deep_view(),
                m == self.model(),
                self.wf(),
                sorted_strict(cands@),
                cands@.to_set() == m.cand_union(q, i as int),
            decreases nq - i,
        {
            let term = &qterms[i];
            proof {
                self.lemma_model_postings();
                assert(term@ == q[i as int]);
            }
            match self.postings.ids(term.as_str()) {
                Some(v) => {
                    let nv = v.len();
                    let mut j: usize = 0;
                    while j < nv
                        invariant
                            j <= nv,
                            nv == v@.len(),
                            sorted_strict(v@),
                            v@.to_set() == m.posting_set(q[i as int]),
                            i < nq,
                            nq == q.len(),
                            q == qterms.deep_view(),
                            m == self.model(),
                            sorted_strict(cands@),
                            cands@.to_set() == m.cand_union(q, i as int).union(
                                v@.take(j as int).to_set(),
                            ),
                        decreases nv - j,
                    {
                        let id = v[j];
                        cands = insert_sorted(&cands, id);
                        proof {
                            assert(v@.take(j as int + 1) =~= v@.take(j as int).push(id));
                            lemma_to_set_push(v@.take(j as int), id);
                            assert(cands@.to_set() =~= m.cand_union(q, i as int).union(
                                v@.take(j as int + 1).to_set(),
                            ));
                        }
                        j += 1;
                    }
                    proof {
                        assert(v@.take(nv as int) =~= v@);
                        lemma_cand_union_step(m, q, i as int);
                        assert(cands@.to_set() =~= m.cand_union(q, i as int + 1));
                    }
                },
                None => {
                    proof {
                        lemma_cand_union_step(m, q, i as int);
                        assert(m.posting_set(q[i as int]) == self.postings.posting_set(
                            q[i as int],
                        ));
                        assert(cands@.to_set() =~= m.cand_union(q, i as int + 1));
                    }
                },
            }
            i += 1;
        }
        proof {
            assert(m.cand_union(q, nq as int) =~= m.cand_set(q));
            assert(sorted_strict(cands@) && cands@.to_set() == m.cand_set(q));
            assert(exists|qq: Seq<u32>|
                sorted_strict(qq) && #[trigger] qq.to_set() == m.cand_set(q)) by {
                assert(sorted_strict(cands@) && cands@.to_set() == m.cand_set(q));
            }
            let cq = asc_seq_of(m.cand_set(q));
            assert(sorted_strict(cq) && cq.to_set() == m.cand_set(q));
            lemma_sorted_unique(cands@, cq);
        }
        cands
    }

    /// Answers a query: the `top_k` best-scoring documents that contain
    /// at least one query term, best first.
    pub fn search(&self, query: &str, top_k: u32) -> (r: Vec<(u64, u32)>)
        requires
            self.wf(),
        ensures
            r@ == self.model().spec_search(spec_tokens(query@), top_k as nat),
            r@.len() <= top_k,
            forall|i: int|
                0 <= i < r@.len() ==> self.model().docs.contains_key(#[trigger] r@[i].1)
                    && r@[i].0 > 0,
            forall|i: int, j: int| 0 <= i < j < r@.len() ==> r@[i].0 >= r@[j].0,
    {
        let ghost m = self.model();
        let ghost q = spec_tokens(query@);
        let toks = tokenize(query);
        let qterms = stemmer(&toks);
        proof {
            assert(qterms.deep_view() == q);
        }
        let nq = qterms.len();
        let cands = self.candidates(qterms);
        let n_docs = self.docs.len();
        let total = self.total_doc_lengths;
        proof {
            self.docs.lemma_dom();
            assert(m.docs.dom() =~= self.docs@.dom());
            assert(n_docs as int == m.num_docs());
        }
        let mut scored: Vec<(u64, u32)> = Vec::new();
        let nc = cands.len();
        let mut c: usize = 0;
        while c < nc
            invariant
                c <= nc,
                nc == cands@.len(),
                m == self.model(),
                self.wf(),
                q == qterms.deep_view(),
                nq == q.len(),
                n_docs as int == m.num_docs(),
                total == self.total_doc_lengths,
                cands@.to_set() == m.cand_set(q),
                scored@ == m.scored_of(q, cands@.take(c as int)),
            decreases nc - c,
        {
            let id = cands[c];
            proof {
                assert(cands@[c as int] == id);
                assert(cands@.to_set().contains(id));
                assert(m.cand_set(q).contains(id));
                let wi = choose|ii: int|
                    0 <= ii < q.len() && #[trigger] m.posting_set(q[ii]).contains(id);
                assert(m.posting_set(q[wi]) == m.docs_containing(q[wi]));
                assert(m.docs.dom().contains(id));
                self.lemma_model_docs();
                assert(self.docs@.contains_key(id));
            }
            let stats = match self.docs.get(id) {
                Some(d) => d,
                None => {
                    proof {
                        assert(false);
                    }
                    return Vec::new();
                },
            };
            let dl = stats.doc_length;
            proof {
                self.docs.lemma_doc_length_le_total(id);
                assert(dl <= total);
            }
            let mut acc: u128 = 0;
            let mut ti: usize = 0;
            while ti < nq
                invariant
                    ti <= nq,
                    nq == q.len(),
                    q == qterms.deep_view(),
                    m == self.model(),
                    self.wf(),
                    self.docs@.contains_key(id),
                    *stats == self.docs@[id],
                    dl == stats.doc_length,
                    dl <= total,
                    total == self.total_doc_lengths,
                    n_docs as int == m.num_docs(),
                    acc as int == m.doc_score(q.take(ti as int), id),
                    acc <= (ti as int) * 90_109_110,
                decreases nq - ti,
            {
                let term = &qterms[ti];
                let ghost qp = q.take(ti as int);
                let ghost qn = q.take(ti as int + 1);
                proof {
                    assert(qn.drop_last() =~= qp);
                    assert(qn.last() == q[ti as int]);
                    assert(term@ == q[ti as int]);
                }
                if term_in_prefix(qterms, ti, term.as_str()) {
                    proof {
                        assert(m.doc_score(qn, id) == m.doc_score(qp, id));
                    }
                } else {
                    let tfv: u64 = match stats.term_freq.get(term.as_str()) {
                        Some(v) => *v,
                        None => 0,
                    };
                    let df = self.postings.doc_frequency(term.as_str());
                    proof {
                        self.lemma_model_postings();
                        self.lemma_model_docs();
                        assert(df as int == m.df(q[ti as int]));
                        assert(m.posting_set(q[ti as int]) == m.docs_containing(q[ti as int]));
                        assert(m.posting_set(q[ti as int]).subset_of(m.docs.dom()));
                        lemma_len_subset(m.posting_set(q[ti as int]), m.docs.dom());
                        assert(df <= n_docs);
                        assert(m.docs[id].tf == stats.term_freq@);
                        assert(tfv as int == m.tf_of(id, q[ti as int]));
                        assert(tfv <= dl);
                        assert(m.doc_len_of(id) == dl as int);
                    }
                    let piece = term_score(tfv, dl, df, n_docs, total, self.k_milli,
                        self.b_milli);
                    proof {
                        assert(piece as int == m.term_contrib(id, q[ti as int]));
                        assert((ti as int + 1) * 90_109_110 == (ti as int) * 90_109_110
                            + 90_109_110) by (nonlinear_arith);
                        lemma_mul_inequality(ti as int + 1, 0x10000000000000000, 90_109_110);
                        assert(m.doc_score(qn, id) == m.doc_score(qp, id) + piece as int);
                    }
                    acc = acc + (piece as u128);
                }
                ti += 1;
            }
            proof {
                assert(q.take(nq as int) =~= q);
                assert(acc as int == m.doc_score(q, id));
            }
            let score: u64 = if acc > 0xffffffffffffffff {
                0xffffffffffffffff
            } else {
                acc as u64
            };
            let ghost scored_pre = scored@;
            if score > 0 {
                scored.push((score, id));
            }
            proof {
                assert(score == m.doc_score_clamped(q, id));
                assert(cands@.take(c as int + 1).drop_last() =~= cands@.take(c as int));
                assert(cands@.take(c as int + 1).last() == id);
                if score > 0 {
                    assert(scored@ =~= m.scored_of(q, cands@.take(c as int)) + seq![
                        (score, id),
                    ]);
                } else {
                    assert(scored@ =~= m.scored_of(q, cands@.take(c as int))
                        + Seq::<(u64, u32)>::empty());
                }
                assert(scored@ == m.scored_of(q, cands@.take(c as int + 1)));
            }
            c += 1;
        }
        proof {
            assert(cands@.take(nc as int) =~= cands@);
        }
        let res = top_k_select(&scored, top_k as usize);
        proof {
            assert(res@ == spec_top_k(m.scored_of(q, cands@), top_k as nat));
            assert(cands@ == asc_seq_of(m.cand_set(q)));
            crate::rank::lemma_top_k_bounds(scored@, top_k as nat);
            lemma_scored_elements(m, q, cands@);
            assert forall|i: int|
                0 <= i < res@.len() implies m.docs.contains_key(#[trigger] res@[i].1)
                && res@[i].0 > 0 by {
                assert(scored@.contains(res@[i]));
                assert(cands@.contains(res@[i].1));
                assert(cands@.to_set().contains(res@[i].1));
                assert(m.cand_set(q).contains(res@[i].1));
                let wi = choose|ii: int|
                    0 <= ii < q.len() && #[trigger] m.posting_set(q[ii]).contains(res@[i].1);
                assert(m.posting_set(q[wi]) == m.docs_containing(q[wi]));
            }
            assert forall|i: int, j: int|
                0 <= i < j < res@.len() implies res@[i].0 >= res@[j].0 by {
                assert(!crate::rank::beats(res@[j], res@[i]));
            }
        }
        res
    }
}

/// Every scored entry carries a positive score and the id of one of the
/// scored candidates.
proof fn lemma_scored_elements(m: IndexModel, q: Seq<Seq<char>>, ids: Seq<u32>)
    ensures
        forall|p: (u64, u32)| #[trigger]
            m.scored_of(q, ids).contains(p) ==> p.0 > 0 && ids.contains(p.1),
    decreases ids.len(),
{
    if ids.len() == 0 {
    } else {
        let pre = ids.drop_last();
        lemma_scored_elements(m, q, pre);
        assert forall|p: (u64, u32)| #[trigger]
            m.scored_of(q, ids).contains(p) implies p.0 > 0 && ids.contains(p.1) by {
            let sc = m.scored_of(q, ids);
            let m0 = choose|m0: int| 0 <= m0 < sc.len() && sc[m0] == p;
            if m0 < m.scored_of(q, pre).len() {
                assert(m.scored_of(q, pre)[m0] == p);
                assert(m.scored_of(q, pre).contains(p));
                assert(pre.contains(p.1));
                let w = choose|w: int| 0 <= w < pre.len() && pre[w] == p.1;
                assert(ids[w] == p.1);
            } else {
                assert(p == (m.doc_score_clamped(q, ids.last()), ids.last()));
                assert(ids[ids.len() - 1] == p.1);
            }
        }
    }
}

/// Whether `term` occurs among the first `upto` words.
fn term_in_prefix(words: &[String], upto: usize, term: &str) -> (r: bool)
    requires
        upto <= words.deep_view().len(),
    ensures
        r == words.deep_view().take(upto as int).contains(term@),
{
    let ghost ws = words.deep_view();
    let mut i: usize = 0;
    while i < upto
        invariant
            i <= upto,
            upto <= ws.len(),
            ws == words.deep_view(),
            forall|m: int| 0 <= m < i ==> ws[m] != term@,
        decreases upto - i,
    {
        if str_eq(words[i].as_str(), term) {
            proof {
                assert(ws.take(upto as int)[i as int] == term@);
            }
            return true;
        }
        i += 1;
    }
    proof {
        if ws.take(upto as int).contains(term@) {
            let m = choose|m: int|
                0 <= m < ws.take(upto as int).len() && ws.take(upto as int)[m] == term@;
            assert(ws[m] == term@);
        }
    }
    false
}

/// Adding the next query term to the union adds its posting set.
proof fn lemma_cand_union_step(m: IndexModel, q: Seq<Seq<char>>, i: int)
    requires
        0 <= i < q.len(),
    ensures
        m.cand_union(q, i + 1) =~= m.cand_union(q, i).union(m.posting_set(q[i])),
{
    assert forall|id: u32| #[trigger] m.cand_union(q, i + 1).contains(id) implies m.cand_union(
        q,
        i,
    ).union(m.posting_set(q[i])).contains(id) by {
        let ii = choose|ii: int| 0 <= ii < i + 1 && ii < q.len() && m.posting_set(q[ii]).contains(id);
        if ii < i {
            assert(m.cand_union(q, i).contains(id));
        }
    }
    assert forall|id: u32| m.cand_union(q, i).union(m.posting_set(q[i])).contains(id)
        implies #[trigger] m.cand_union(q, i + 1).contains(id) by {
        if m.cand_union(q, i).contains(id) {
            let ii = choose|ii: int| 0 <= ii < i && ii < q.len() && m.posting_set(q[ii]).contains(id);
            assert(0 <= ii < i + 1 && m.posting_set(q[ii]).contains(id));
        } else {
            assert(m.posting_set(q[i]).contains(id));
        }
    }
}

/// Registering a fresh document keeps every index invariant.
pub proof fn lemma_after_insert_inv(m: IndexModel, ts: Seq<Seq<char>>, id: u32)
    requires
        m.inv(),
        !m.docs.contains_key(id),
        ts.len() <= 0xffffffffffffffff,
    ensures
        m.after_insert(ts, id).inv(),
{
    let a = m.after_insert(ts, id);
    assert(a.docs.dom() =~= m.docs.dom().insert(id));
    assert forall|t: Seq<char>| #[trigger]
        a.postings.contains_key(t) implies a.postings[t].len() > 0 && a.postings[t].finite() by {
        if occurrences(ts, t) > 0 {
            assert(a.postings[t] == m.posting_set(t).insert(id));
            assert(m.posting_set(t).finite());
            assert(a.postings[t].contains(id));
        } else {
            assert(m.postings.contains_key(t));
        }
    }
    assert forall|t: Seq<char>| #[trigger] a.posting_set(t) == a.docs_containing(t) by {
        assert(m.posting_set(t) == m.docs_containing(t));
        if occurrences(ts, t) > 0 {
            assert(a.posting_set(t) == m.posting_set(t).insert(id));
            assert(a.docs_containing(t) =~= m.docs_containing(t).insert(id)) by {
                assert(doc_model_of(ts).tf.contains_key(t));
                assert forall|x: u32| #[trigger]
                    a.docs_containing(t).contains(x) implies m.docs_containing(t).insert(
                    id,
                ).contains(x) by {
                    if x != id {
                        assert(m.docs.dom().contains(x) && m.docs[x].tf.contains_key(t));
                    }
                }
                assert forall|x: u32| m.docs_containing(t).insert(id).contains(x) implies #[trigger]
                    a.docs_containing(t).contains(x) by {
                    if x != id {
                        assert(a.docs[x] == m.docs[x]);
                    }
                }
            }
        } else {
            assert(a.posting_set(t) == m.posting_set(t));
            assert(a.docs_containing(t) =~= m.docs_containing(t)) by {
                assert(!doc_model_of(ts).tf.contains_key(t));
                assert forall|x: u32| #[trigger]
                    a.docs_containing(t).contains(x) implies m.docs_containing(t).contains(x) by {
                    assert(x != id);
                }
                assert forall|x: u32| m.docs_containing(t).contains(x) implies #[trigger]
                    a.docs_containing(t).contains(x) by {
                    assert(a.docs[x] == m.docs[x]);
                }
            }
        }
    }
    assert forall|d: u32| #[trigger] a.docs.contains_key(d) implies {
        forall|t: Seq<char>| #[trigger]
            a.docs[d].tf.contains_key(t) ==> 1 <= a.docs[d].tf[t] <= a.docs[d].doc_length
    } by {
        if d == id {
            assert forall|t: Seq<char>| #[trigger]
                a.docs[d].tf.contains_key(t) implies 1 <= a.docs[d].tf[t] <= a.docs[d].doc_length by {
                lemma_occurrences_le(ts, t);
            }
        } else {
            assert(a.docs[d] == m.docs[d]);
        }
    }
}

/// Erasing a document keeps every index invariant.
pub proof fn lemma_after_delete_inv(m: IndexModel, id: u32)
    requires
        m.inv(),
    ensures
        m.after_delete(id).inv(),
{
    if !m.docs.contains_key(id) {
    } else {
        let a = m.after_delete(id);
        assert(a.docs.dom() =~= m.docs.dom().remove(id));
        assert forall|t: Seq<char>| #[trigger] a.posting_set(t) == a.docs_containing(t) by {
            assert(m.posting_set(t) == m.docs_containing(t));
            assert(a.docs_containing(t) =~= m.docs_containing(t).remove(id)) by {
                assert forall|x: u32| #[trigger]
                    a.docs_containing(t).contains(x) implies m.docs_containing(t).remove(
                    id,
                ).contains(x) by {
                    assert(x != id);
                    assert(m.docs.dom().contains(x) && m.docs[x].tf.contains_key(t));
                }
                assert forall|x: u32| m.docs_containing(t).remove(id).contains(x) implies #[trigger]
                    a.docs_containing(t).contains(x) by {
                    assert(a.docs[x] == m.docs[x]);
                }
            }
            if m.postings.contains_key(t) && m.postings[t].remove(id).len() > 0 {
                assert(a.posting_set(t) == m.postings[t].remove(id));
                assert(m.postings[t] == m.posting_set(t));
            } else if m.postings.contains_key(t) {
                assert(a.posting_set(t) =~= Set::<u32>::empty());
                assert(m.postings[t].remove(id).len() == 0);
                assert(m.postings[t].remove(id).finite());
                assert(m.postings[t].remove(id) =~= Set::<u32>::empty()) by {
                    vstd::set_lib::lemma_set_empty_equivalency_len(m.postings[t].remove(id));
                }
                assert(m.posting_set(t).remove(id) =~= Set::<u32>::empty());
            } else {
                assert(a.posting_set(t) =~= Set::<u32>::empty());
                assert(m.posting_set(t) =~= Set::<u32>::empty());
                assert(m.docs_containing(t).remove(id) =~= Set::<u32>::empty());
            }
        }
        assert forall|t: Seq<char>| #[trigger]
            a.postings.contains_key(t) implies a.postings[t].len() > 0 && a.postings[t].finite() by {
            assert(a.postings[t] == m.postings[t].remove(id));
        }
        assert forall|d: u32| #[trigger] a.docs.contains_key(d) implies {
            forall|t: Seq<char>| #[trigger]
                a.docs[d].tf.contains_key(t) ==> 1 <= a.docs[d].tf[t] <= a.docs[d].doc_length
        } by {
            assert(a.docs[d] == m.docs[d]);
        }
    }
}



/// After any sequence of mutations, the length aggregate equals the sum
/// of the lengths of the currently indexed documents: every mutation
/// preserves well-formedness, of which this is part.
pub proof fn lemma_total_is_length_sum(ix: &Index)
    requires
        ix.wf(),
    ensures
        ix.total_doc_lengths as int == total_lengths(ix.docs.entries@),
        ix.model().total == total_lengths(ix.docs.entries@),
{
}

/// For every term, the document frequency equals the number of currently
/// indexed documents whose term-frequency map contains the term.
pub proof fn lemma_df_counts_documents(ix: &Index, t: Seq<char>)
    requires
        ix.wf(),
    ensures
        ix.model().df(t) == ix.model().docs_containing(t).len(),
{
    assert(ix.model().posting_set(t) == ix.model().docs_containing(t));
}

/// Registering a document and then erasing it returns the index to the
/// state it started from.
pub proof fn lemma_insert_delete_round_trip(m: IndexModel, ts: Seq<Seq<char>>, id: u32)
    requires
        m.inv(),
        !m.docs.contains_key(id),
        ts.len() <= 0xffffffffffffffff,
    ensures
        m.after_insert(ts, id).after_delete(id) == m,
        forall|q: Seq<Seq<char>>, k: nat|
            m.after_insert(ts, id).after_delete(id).spec_search(q, k) == #[trigger] m.spec_search(
                q,
                k,
            ),
{
    broadcast use vstd::set_lib::lemma_set_empty_equivalency_len;

    let a = m.after_insert(ts, id);
    let d = a.after_delete(id);
    assert(a.docs.contains_key(id));
    assert(d.docs =~~= m.docs) by {
        assert(a.docs.remove(id) =~= m.docs);
    }
    assert(d.total == m.total) by {
        assert(a.docs[id].doc_length == ts.len() as u64);
    }
    assert forall|t: Seq<char>| !(#[trigger] m.posting_set(t).contains(id)) by {
        assert(m.posting_set(t) == m.docs_containing(t));
    }
    assert(d.postings =~~= m.postings) by {
        assert forall|t: Seq<char>| #[trigger]
            d.postings.contains_key(t) <==> m.postings.contains_key(t) by {
            if occurrences(ts, t) > 0 {
                assert(a.postings.contains_key(t));
                assert(a.postings[t] == m.posting_set(t).insert(id));
                assert(a.postings[t].remove(id) =~= m.posting_set(t));
                if m.postings.contains_key(t) {
                    assert(m.postings[t].len() > 0);
                    assert(a.postings[t].remove(id).len() > 0);
                } else {
                    assert(m.posting_set(t) =~= Set::<u32>::empty());
                    assert(a.postings[t].remove(id).len() == 0);
                }
            } else {
                if a.postings.contains_key(t) {
                    assert(m.postings.contains_key(t));
                    assert(a.postings[t] == m.postings[t]);
                    assert(!m.posting_set(t).contains(id));
                    assert(a.postings[t].remove(id) =~= m.postings[t]);
                }
                if m.postings.contains_key(t) {
                    assert(a.postings.contains_key(t));
                    assert(!m.posting_set(t).contains(id));
                    assert(a.postings[t].remove(id) =~= m.postings[t]);
                    assert(m.postings[t].len() > 0);
                }
            }
        }
        assert forall|t: Seq<char>| #[trigger]
            d.postings.contains_key(t) implies d.postings[t] == m.postings[t] by {
            assert(d.postings[t] == a.postings[t].remove(id));
            if occurrences(ts, t) > 0 {
                assert(a.postings[t] == m.posting_set(t).insert(id));
                assert(a.postings[t].remove(id) =~= m.posting_set(t));
                assert(m.postings.contains_key(t));
            } else {
                assert(a.postings[t] == m.postings[t]);
                assert(!m.posting_set(t).contains(id));
                assert(a.postings[t].remove(id) =~= m.postings[t]);
            }
        }
    }
    assert(d =~~= m);
}

/// Replacing a document is idempotent: replaying the same text under the
/// same id leaves the index exactly where the first replacement put it.
pub proof fn lemma_upsert_idempotent(m: IndexModel, ts: Seq<Seq<char>>, id: u32)
    requires
        m.inv(),
        ts.len() <= 0xffffffffffffffff,
    ensures
        m.after_delete(id).after_insert(ts, id).after_delete(id).after_insert(ts, id)
            == m.after_delete(id).after_insert(ts, id),
        forall|q: Seq<Seq<char>>, k: nat|
            m.after_delete(id).after_insert(ts, id).after_delete(id).after_insert(
                ts,
                id,
            ).spec_search(q, k) == #[trigger] m.after_delete(id).after_insert(ts, id).spec_search(
                q,
                k,
            ),
{
    let x = m.after_delete(id);
    lemma_after_delete_inv(m, id);
    assert(!x.docs.contains_key(id));
    lemma_insert_delete_round_trip(x, ts, id);
}

/// Erasing a document decrements the document frequency of exactly the
/// terms that occurred in it, by exactly one; every other term's
/// frequency is unchanged.
pub proof fn lemma_delete_decrements_df(m: IndexModel, id: u32)
    requires
        m.inv(),
        m.docs.contains_key(id),
    ensures
        forall|t: Seq<char>| #[trigger]
            m.docs[id].tf.contains_key(t) ==> m.after_delete(id).df(t) == m.df(t) - 1,
        forall|t: Seq<char>|
            !(#[trigger] m.docs[id].tf.contains_key(t)) ==> m.after_delete(id).df(t) == m.df(t),
{
    broadcast use vstd::set_lib::lemma_set_empty_equivalency_len;
    broadcast use vstd::set::axiom_set_remove_len;

    let d = m.after_delete(id);
    assert forall|t: Seq<char>| #[trigger] d.posting_set(t) == m.posting_set(t).remove(id) by {
        if m.postings.contains_key(t) && m.postings[t].remove(id).len() > 0 {
            assert(d.posting_set(t) == m.postings[t].remove(id));
        } else if m.postings.contains_key(t) {
            assert(!d.postings.contains_key(t));
            assert(d.posting_set(t) =~= Set::<u32>::empty());
            assert(m.postings[t].remove(id).len() == 0);
            assert(m.postings[t].remove(id).finite());
            assert(m.posting_set(t).remove(id) =~= Set::<u32>::empty());
        } else {
            assert(!d.postings.contains_key(t));
            assert(m.posting_set(t) =~= Set::<u32>::empty());
            assert(m.posting_set(t).remove(id) =~= Set::<u32>::empty());
            assert(d.posting_set(t) =~= Set::<u32>::empty());
        }
    }
    assert forall|t: Seq<char>| #[trigger]
        m.docs[id].tf.contains_key(t) implies m.after_delete(id).df(t) == m.df(t) - 1 by {
        assert(m.posting_set(t) == m.docs_containing(t));
        assert(m.docs_containing(t).contains(id));
        assert(m.posting_set(t).finite()) by {
            if m.postings.contains_key(t) {
            } else {
                assert(m.posting_set(t) =~= Set::<u32>::empty());
            }
        }
        assert(m.posting_set(t).remove(id).len() == m.posting_set(t).len() - 1);
    }
    assert forall|t: Seq<char>|
        !(#[trigger] m.docs[id].tf.contains_key(t)) implies m.after_delete(id).df(t) == m.df(
        t,
    ) by {
        assert(m.posting_set(t) == m.docs_containing(t));
        assert(!m.posting_set(t).contains(id));
        assert(m.posting_set(t).remove(id) =~= m.posting_set(t));
    }
}

} // verus!
