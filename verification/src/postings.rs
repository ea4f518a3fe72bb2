//! The inverted index: each term is mapped to the set of ids of the
//! documents that currently contain it.
//!
//! Posting lists are kept strictly sorted, so membership is unique and the
//! document frequency of a term is the length of its list. A term whose
//! posting set becomes empty is pruned from the table.

use vstd::prelude::*;
use vstd::string::StringExecFns;
use crate::table::StrTable;

verus! {

/// Strictly ascending: no id occurs twice.
pub open spec fn sorted_strict(s: Seq<u32>) -> bool {
    forall|p: int, q: int| 0 <= p < q < s.len() ==> s[p] < s[q]
}

pub proof fn lemma_sorted_no_duplicates(s: Seq<u32>)
    requires
        sorted_strict(s),
    ensures
        s.no_duplicates(),
        s.to_set().len() == s.len(),
        s.to_set().finite(),
{
    broadcast use vstd::seq_lib::seq_to_set_is_finite;

    assert forall|p: int, q: int|
        0 <= p < s.len() && 0 <= q < s.len() && p != q implies s[p] != s[q] by {
        if p < q {
            assert(s[p] < s[q]);
        } else {
            assert(s[q] < s[p]);
        }
    }
    s.unique_seq_to_set();
}

proof fn lemma_sorted_insert(s: Seq<u32>, i: int, id: u32)
    requires
        sorted_strict(s),
        0 <= i <= s.len(),
        forall|m: int| 0 <= m < i ==> s[m] < id,
        forall|m: int| i <= m < s.len() ==> s[m] > id,
    ensures
        sorted_strict(s.insert(i, id)),
        s.insert(i, id).to_set() =~= s.to_set().insert(id),
{
    let t = s.insert(i, id);
    assert forall|p: int, q: int| 0 <= p < q < t.len() implies t[p] < t[q] by {
        let p0 = if p < i {
            p
        } else {
            p - 1
        };
        let q0 = if q < i {
            q
        } else {
            q - 1
        };
        if p != i && q != i {
            assert(t[p] == s[p0] && t[q] == s[q0]);
        } else if p == i {
            assert(t[q] == s[q0]);
        } else {
            assert(t[p] == s[p0]);
        }
    }
    assert forall|x: u32| #[trigger] t.to_set().contains(x) implies s.to_set().insert(id).contains(
        x,
    ) by {
        let m = choose|m: int| 0 <= m < t.len() && t[m] == x;
        if m != i {
            let m0 = if m < i {
                m
            } else {
                m - 1
            };
            assert(s[m0] == x);
        }
    }
    assert forall|x: u32| s.to_set().insert(id).contains(x) implies #[trigger]
        t.to_set().contains(x) by {
        if x == id {
            assert(t[i] == x);
        } else {
            let m = choose|m: int| 0 <= m < s.len() && s[m] == x;
            let m1 = if m < i {
                m
            } else {
                m + 1
            };
            assert(t[m1] == x);
        }
    }
}

proof fn lemma_sorted_remove(s: Seq<u32>, i: int)
    requires
        sorted_strict(s),
        0 <= i < s.len(),
    ensures
        sorted_strict(s.remove(i)),
        s.remove(i).to_set() =~= s.to_set().remove(s[i]),
{
    let t = s.remove(i);
    assert forall|p: int, q: int| 0 <= p < q < t.len() implies t[p] < t[q] by {
        let p0 = if p < i {
            p
        } else {
            p + 1
        };
        let q0 = if q < i {
            q
        } else {
            q + 1
        };
        assert(t[p] == s[p0] && t[q] == s[q0]);
    }
    assert forall|x: u32| #[trigger] t.to_set().contains(x) implies s.to_set().remove(
        s[i],
    ).contains(x) by {
        let m = choose|m: int| 0 <= m < t.len() && t[m] == x;
        let m0 = if m < i {
            m
        } else {
            m + 1
        };
        assert(s[m0] == x);
        if m0 < i {
            assert(s[m0] < s[i]);
        } else {
            assert(s[i] < s[m0]);
        }
    }
    assert forall|x: u32| s.to_set().remove(s[i]).contains(x) implies #[trigger]
        t.to_set().contains(x) by {
        let m = choose|m: int| 0 <= m < s.len() && s[m] == x;
        let m1 = if m < i {
            m
        } else {
            m - 1
        };
        assert(t[m1] == x);
    }
}

pub proof fn lemma_to_set_push(s: Seq<u32>, x: u32)
    ensures
        s.push(x).to_set() =~= s.to_set().insert(x),
{
    assert forall|y: u32| #[trigger] s.push(x).to_set().contains(y) implies s.to_set().insert(
        x,
    ).contains(y) by {
        let m = choose|m: int| 0 <= m < s.push(x).len() && s.push(x)[m] == y;
        if m < s.len() {
            assert(s[m] == y);
        }
    }
    assert forall|y: u32| s.to_set().insert(x).contains(y) implies #[trigger]
        s.push(x).to_set().contains(y) by {
        if y == x {
            assert(s.push(x)[s.len() as int] == y);
        } else {
            let m = choose|m: int| 0 <= m < s.len() && s[m] == y;
            assert(s.push(x)[m] == y);
        }
    }
}

/// The strictly ascending sequence holding exactly the ids of `s`.
pub open spec fn asc_seq_of(s: Set<u32>) -> Seq<u32> {
    choose|q: Seq<u32>| sorted_strict(q) && q.to_set() == s
}

/// Two strictly ascending sequences over the same set are the same
/// sequence.
pub proof fn lemma_sorted_unique(a: Seq<u32>, b: Seq<u32>)
    requires
        sorted_strict(a),
        sorted_strict(b),
        a.to_set() == b.to_set(),
    ensures
        a == b,
    decreases a.len(),
{
    if a.len() == 0 {
        if b.len() > 0 {
            assert(b.to_set().contains(b[0]));
            let m = choose|m: int| 0 <= m < a.len() && a[m] == b[0];
            assert(false);
        }
        assert(a =~= b);
    } else if b.len() == 0 {
        assert(a.to_set().contains(a[0]));
        let m = choose|m: int| 0 <= m < b.len() && b[m] == a[0];
        assert(false);
    } else {
        assert(a.to_set().contains(a[0]));
        assert(b.to_set().contains(b[0]));
        let ja = choose|j: int| 0 <= j < b.len() && b[j] == a[0];
        let jb = choose|j: int| 0 <= j < a.len() && a[j] == b[0];
        assert(b[0] <= b[ja]);
        assert(a[0] <= a[jb]);
        assert(a[0] == b[0]);
        let at = a.drop_first();
        let bt = b.drop_first();
        assert(sorted_strict(at)) by {
            assert(forall|m: int| 0 <= m < at.len() ==> at[m] == a[m + 1]);
        }
        assert(sorted_strict(bt)) by {
            assert(forall|m: int| 0 <= m < bt.len() ==> bt[m] == b[m + 1]);
        }
        assert(at.to_set() =~= a.to_set().remove(a[0])) by {
            assert forall|y: u32| #[trigger] at.to_set().contains(y) implies a.to_set().remove(
                a[0],
            ).contains(y) by {
                let m = choose|m: int| 0 <= m < at.len() && at[m] == y;
                assert(a[m + 1] == y);
                assert(a[0] < a[m + 1]);
            }
            assert forall|y: u32| a.to_set().remove(a[0]).contains(y) implies #[trigger]
                at.to_set().contains(y) by {
                let m = choose|m: int| 0 <= m < a.len() && a[m] == y;
                assert(m != 0);
                assert(at[m - 1] == y);
            }
        }
        assert(bt.to_set() =~= b.to_set().remove(b[0])) by {
            assert forall|y: u32| #[trigger] bt.to_set().contains(y) implies b.to_set().remove(
                b[0],
            ).contains(y) by {
                let m = choose|m: int| 0 <= m < bt.len() && bt[m] == y;
                assert(b[m + 1] == y);
                assert(b[0] < b[m + 1]);
            }
            assert forall|y: u32| b.to_set().remove(b[0]).contains(y) implies #[trigger]
                bt.to_set().contains(y) by {
                let m = choose|m: int| 0 <= m < b.len() && b[m] == y;
                assert(m != 0);
                assert(bt[m - 1] == y);
            }
        }
        lemma_sorted_unique(at, bt);
        assert(at.len() == bt.len());
        assert(a =~= b) by {
            assert(a.len() == at.len() + 1 && b.len() == bt.len() + 1);
            assert(a.len() == b.len());
            assert(forall|m: int| 1 <= m < a.len() ==> a[m] == at[m - 1] && b[m] == bt[m - 1]);
        }
    }
}

/// A fresh copy of an id list.
fn copy_ids(v: &Vec<u32>) -> (r: Vec<u32>)
    ensures
        r@ == v@,
{
    let n = v.len();
    let mut r: Vec<u32> = Vec::new();
    let mut i: usize = 0;
    while i < n
        invariant
            i <= n,
            n == v@.len(),
            r@ =~= v@.take(i as int),
        decreases n - i,
    {
        r.push(v[i]);
        proof {
            assert(r@ =~= v@.take(i as int + 1));
        }
        i += 1;
    }
    proof {
        assert(v@.take(n as int) =~= v@);
    }
    r
}

/// A copy of the strictly sorted `v` with `id` inserted; already-present
/// ids are kept once.
pub fn insert_sorted(v: &Vec<u32>, id: u32) -> (r: Vec<u32>)
    requires
        sorted_strict(v@),
    ensures
        sorted_strict(r@),
        r@.to_set() == v@.to_set().insert(id),
        r@.len() >= 1,
{
    let n = v.len();
    let mut i: usize = 0;
    loop
        invariant_except_break
            i <= n,
            n == v@.len(),
            sorted_strict(v@),
            forall|m: int| 0 <= m < i ==> v@[m] < id,
        ensures
            i <= n,
            n == v@.len(),
            forall|m: int| 0 <= m < i ==> v@[m] < id,
            i == n || v@[i as int] >= id,
        decreases n - i,
    {
        if i >= n {
            break ;
        }
        if v[i] >= id {
            break ;
        }
        i += 1;
    }
    if i < n && v[i] == id {
        let r = copy_ids(v);
        proof {
            assert(v@.to_set().contains(id));
            assert(v@.to_set().insert(id) =~= v@.to_set());
        }
        return r;
    }
    let mut r = copy_ids(v);
    proof {
        assert forall|m: int| i <= m < v@.len() implies v@[m] > id by {
            if m > i {
                assert(v@[i as int] < v@[m]);
            }
        }
        lemma_sorted_insert(v@, i as int, id);
    }
    r.insert(i, id);
    r
}

/// The posting store: a map from terms to non-empty, strictly sorted lists
/// of document ids.
pub struct Postings {
    /// Term to posting-list table.
    pub table: StrTable<Vec<u32>>,
}

impl Postings {
    /// The set of ids of the documents that contain `t`; empty for a term
    /// that is not in the table.
    pub open spec fn posting_set(&self, t: Seq<char>) -> Set<u32> {
        if self.table@.contains_key(t) {
            self.table@[t]@.to_set()
        } else {
            Set::empty()
        }
    }

    /// Well-formed: keys are unique and every posting list is non-empty
    /// and strictly sorted.
    pub open spec fn wf(&self) -> bool {
        &&& self.table.wf()
        &&& forall|t: Seq<char>| #[trigger]
            self.table@.contains_key(t) ==> sorted_strict(self.table@[t]@) && self.table@[t]@.len()
                > 0
    }

    pub fn new() -> (r: Self)
        ensures
            r.wf(),
            forall|t: Seq<char>| r.posting_set(t) == Set::<u32>::empty(),
    {
        let r = Postings { table: StrTable::new() };
        proof {
            assert(forall|t: Seq<char>| !r.table@.contains_key(t));
        }
        r
    }

    /// The posting list of `term`, if the term is present.
    pub fn ids(&self, term: &str) -> (r: Option<&Vec<u32>>)
        requires
            self.wf(),
        ensures
            match r {
                Some(v) => {
                    &&& sorted_strict(v@)
                    &&& v@.len() >= 1
                    &&& v@.to_set() == self.posting_set(term@)
                },
                None => self.posting_set(term@) == Set::<u32>::empty(),
            },
    {
        self.table.get(term)
    }

    /// The number of documents that currently contain `term`.
    pub fn doc_frequency(&self, term: &str) -> (n: usize)
        requires
            self.wf(),
        ensures
            n == self.posting_set(term@).len(),
            self.posting_set(term@).finite(),
    {
        match self.table.get(term) {
            Some(v) => {
                proof {
                    lemma_sorted_no_duplicates(v@);
                }
                v.len()
            },
            None => {
                proof {
                    assert(Set::<u32>::empty().len() == 0);
                }
                0
            },
        }
    }

    /// Adds `id` to the posting set of `term`; adding an id that is
    /// already present changes nothing.
    pub fn add(&mut self, term: &String, id: u32)
        requires
            old(self).wf(),
        ensures
            final(self).wf(),
            final(self).posting_set(term@) == old(self).posting_set(term@).insert(id),
            forall|t: Seq<char>|
                t != term@ ==> final(self).posting_set(t) == old(self).posting_set(t),
    {
        let nv: Vec<u32> = match self.table.get(term.as_str()) {
            Some(v) => insert_sorted(v, id),
            None => {
                let mut v: Vec<u32> = Vec::new();
                v.push(id);
                proof {
                    assert(v@[0] == id && v@.len() == 1);
                    assert forall|x: u32| #[trigger]
                        v@.to_set().contains(x) <==> Set::<u32>::empty().insert(id).contains(
                        x,
                    ) by {
                        if v@.to_set().contains(x) {
                            let m = choose|m: int| 0 <= m < v@.len() && v@[m] == x;
                            assert(m == 0);
                        }
                        if x == id {
                            assert(v@[0] == x);
                        }
                    }
                    assert(v@.to_set() =~= Set::<u32>::empty().insert(id));
                    assert(old(self).posting_set(term@) =~= Set::<u32>::empty());
                }
                v
            },
        };
        let ghost nvset = nv@.to_set();
        proof {
            assert(nvset == old(self).posting_set(term@).insert(id));
            assert(nv@.to_set().contains(nv@[0]));
            assert(nv@.len() > 0);
        }
        self.table.set_value(term.clone(), nv);
    }

    /// Removes `id` from the posting set of `term`; a term whose set
    /// becomes empty is pruned.
    pub fn remove(&mut self, term: &str, id: u32)
        requires
            old(self).wf(),
        ensures
            final(self).wf(),
            final(self).posting_set(term@) == old(self).posting_set(term@).remove(id),
            forall|t: Seq<char>|
                t != term@ ==> final(self).posting_set(t) == old(self).posting_set(t),
    {
        match self.table.get(term) {
            Some(v) => {
                match find_id(v, id) {
                    Some(p) => {
                        proof {
                            lemma_sorted_remove(v@, p as int);
                        }
                        let mut nv = copy_ids(v);
                        nv.remove(p);
                        if nv.len() == 0 {
                            proof {
                                assert(nv@.to_set() =~= Set::<u32>::empty());
                                assert(old(self).posting_set(term@).remove(id) =~= Set::<
                                    u32,
                                >::empty());
                            }
                            self.table.remove_entry(term);
                        } else {
                            let ghost nvset = nv@.to_set();
                            proof {
                                assert(nvset == old(self).posting_set(term@).remove(id));
                                assert(nv@.to_set().contains(nv@[0]));
                            }
                            let key = clone_term(term);
                            self.table.set_value(key, nv);
                        }
                    },
                    None => {
                        proof {
                            assert(!v@.to_set().contains(id)) by {
                                if v@.to_set().contains(id) {
                                    let m = choose|m: int| 0 <= m < v@.len() && v@[m] == id;
                                }
                            }
                            assert(old(self).posting_set(term@).remove(id) =~= old(
                                self,
                            ).posting_set(term@));
                        }
                    },
                }
            },
            None => {
                proof {
                    assert(old(self).posting_set(term@).remove(id) =~= Set::<u32>::empty());
                }
            },
        }
    }
}

/// The position of `id` in `v`, if it occurs.
fn find_id(v: &Vec<u32>, id: u32) -> (r: Option<usize>)
    ensures
        match r {
            Some(p) => p < v@.len() && v@[p as int] == id,
            None => forall|m: int| 0 <= m < v@.len() ==> v@[m] != id,
        },
{
    let n = v.len();
    let mut i: usize = 0;
    while i < n
        invariant
            i <= n,
            n == v@.len(),
            forall|m: int| 0 <= m < i ==> v@[m] != id,
        decreases n - i,
    {
        if v[i] == id {
            return Some(i);
        }
        i += 1;
    }
    None
}

/// An owned copy of a term.
fn clone_term(term: &str) -> (r: String)
    ensures
        r@ == term@,
{
    String::from_str(term)
}

} // verus!
