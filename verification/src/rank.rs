//! Bounded top-k selection over scored documents.
//!
//! A pair ranks above another when its score is higher; equal scores are
//! broken in favour of the smaller document id. The selection repeatedly
//! extracts the best remaining pair, so the output is the ranking order
//! itself, truncated to `k` entries.

use vstd::prelude::*;

verus! {

/// `a` ranks strictly above `b`: higher score, ties to the smaller id.
pub open spec fn beats(a: (u64, u32), b: (u64, u32)) -> bool {
    a.0 > b.0 || (a.0 == b.0 && a.1 < b.1)
}

/// The index of the pair that ranks above all later pairs and no earlier
/// pair ranks above.
pub open spec fn best_index(s: Seq<(u64, u32)>) -> int
    recommends
        s.len() > 0,
    decreases s.len(),
{
    if s.len() <= 1 {
        0
    } else {
        let r = best_index(s.drop_last());
        if beats(s.last(), s[r]) {
            s.len() - 1
        } else {
            r
        }
    }
}

pub proof fn lemma_best_index(s: Seq<(u64, u32)>)
    requires
        s.len() > 0,
    ensures
        0 <= best_index(s) < s.len(),
        forall|i: int| 0 <= i < s.len() ==> !beats(s[i], s[best_index(s)]),
    decreases s.len(),
{
    if s.len() == 1 {
    } else {
        lemma_best_index(s.drop_last());
        let r = best_index(s.drop_last());
        assert(forall|i: int| 0 <= i < s.len() - 1 ==> s.drop_last()[i] == s[i]);
        assert(s.drop_last()[r] == s[r]);
        if beats(s.last(), s[r]) {
            assert forall|i: int| 0 <= i < s.len() implies !beats(#[trigger] s[i], s[s.len() - 1]) by {
                if i < s.len() - 1 {
                    assert(!beats(s[i], s[r]));
                }
            }
        }
    }
}

/// The `k` best pairs of `s`, best first.
pub open spec fn spec_top_k(s: Seq<(u64, u32)>, k: nat) -> Seq<(u64, u32)>
    decreases k,
{
    if k == 0 || s.len() == 0 {
        Seq::empty()
    } else {
        let b = best_index(s);
        seq![s[b]] + spec_top_k(s.remove(b), (k - 1) as nat)
    }
}

/// The selection never exceeds `k` entries, takes every entry from `s`,
/// and lists them best first: scores never increase, and equal scores
/// come in ascending id order.
pub proof fn lemma_top_k_bounds(s: Seq<(u64, u32)>, k: nat)
    ensures
        spec_top_k(s, k).len() == if k <= s.len() {
            k as int
        } else {
            s.len() as int
        },
        forall|i: int| 0 <= i < spec_top_k(s, k).len() ==> s.contains(#[trigger] spec_top_k(s, k)[i]),
        forall|i: int, j: int|
            0 <= i < j < spec_top_k(s, k).len() ==> !beats(
                spec_top_k(s, k)[j],
                spec_top_k(s, k)[i],
            ),
    decreases k,
{
    if k == 0 || s.len() == 0 {
    } else {
        let b = best_index(s);
        let rest = s.remove(b);
        let out = spec_top_k(s, k);
        lemma_best_index(s);
        lemma_top_k_bounds(rest, (k - 1) as nat);
        assert forall|i: int| 0 <= i < out.len() implies s.contains(#[trigger] out[i]) by {
            if i == 0 {
                assert(out[0] == s[b]);
            } else {
                let inner = spec_top_k(rest, (k - 1) as nat);
                assert(out[i] == inner[i - 1]);
                assert(rest.contains(inner[i - 1]));
                let m = choose|m: int| 0 <= m < rest.len() && rest[m] == inner[i - 1];
                let m0 = if m < b {
                    m
                } else {
                    m + 1
                };
                assert(s[m0] == inner[i - 1]);
            }
        }
        assert forall|i: int, j: int| 0 <= i < j < out.len() implies !beats(out[j], out[i]) by {
            let inner = spec_top_k(rest, (k - 1) as nat);
            if i == 0 {
                assert(out[j] == inner[j - 1]);
                assert(rest.contains(inner[j - 1])) by {
                    lemma_top_k_bounds(rest, (k - 1) as nat);
                }
                let m = choose|m: int| 0 <= m < rest.len() && rest[m] == inner[j - 1];
                let m0 = if m < b {
                    m
                } else {
                    m + 1
                };
                assert(s[m0] == inner[j - 1]);
                assert(!beats(s[m0], s[b]));
            } else {
                assert(out[i] == inner[i - 1] && out[j] == inner[j - 1]);
            }
        }
    }
}

/// A fresh copy of a scored list.
fn copy_pairs(v: &Vec<(u64, u32)>) -> (r: Vec<(u64, u32)>)
    ensures
        r@ == v@,
{
    let n = v.len();
    let mut r: Vec<(u64, u32)> = Vec::new();
    let mut i: usize = 0;
    while i < n
        invariant
            i <= n,
            n == v@.len(),
            r@ =~= v@.take(i as int),
        decreases n - i,
    {
        r.push(v[i]);
        proof {
            assert(r@ =~= v@.take(i as int + 1));
        }
        i += 1;
    }
    proof {
        assert(v@.take(n as int) =~= v@);
    }
    r
}

/// Selects the `k` best pairs, best first.
pub fn top_k_select(pairs: &Vec<(u64, u32)>, k: usize) -> (r: Vec<(u64, u32)>)
    ensures
        r@ == spec_top_k(pairs@, k as nat),
{
    let mut remaining = copy_pairs(pairs);
    let mut out: Vec<(u64, u32)> = Vec::new();
    let mut rounds: usize = 0;
    proof {
        assert(out@ + spec_top_k(remaining@, (k - rounds) as nat) =~= spec_top_k(
            pairs@,
            k as nat,
        ));
    }
    while rounds < k && remaining.len() > 0
        invariant
            rounds <= k,
            out@ + spec_top_k(remaining@, (k - rounds) as nat) =~= spec_top_k(pairs@, k as nat),
        decreases k - rounds,
    {
        let ghost rem0 = remaining@;
        let n = remaining.len();
        let mut bi: usize = 0;
        let mut j: usize = 1;
        proof {
            assert(rem0.take(1).len() == 1);
            assert(best_index(rem0.take(1)) == 0);
        }
        while j < n
            invariant
                1 <= j <= n,
                n == rem0.len(),
                remaining@ == rem0,
                bi < j,
                bi as int == best_index(rem0.take(j as int)),
            decreases n - j,
        {
            let cur = remaining[j];
            let best = remaining[bi];
            proof {
                let p = rem0.take(j as int + 1);
                assert(p.drop_last() =~= rem0.take(j as int));
                assert(p.last() == rem0[j as int]);
                assert(p[bi as int] == rem0[bi as int]);
            }
            if cur.0 > best.0 || (cur.0 == best.0 && cur.1 < best.1) {
                bi = j;
            }
            j += 1;
        }
        proof {
            assert(rem0.take(n as int) =~= rem0);
            lemma_best_index(rem0);
        }
        let chosen = remaining.remove(bi);
        out.push(chosen);
        rounds += 1;
        proof {
            let kk = (k - rounds + 1) as nat;
            assert(spec_top_k(rem0, kk) =~= seq![rem0[bi as int]] + spec_top_k(
                remaining@,
                (kk - 1) as nat,
            ));
            assert(out@ + spec_top_k(remaining@, (k - rounds) as nat) =~= spec_top_k(
                pairs@,
                k as nat,
            ));
        }
    }
    proof {
        assert(spec_top_k(remaining@, (k - rounds) as nat) =~= Seq::<(u64, u32)>::empty());
        assert(out@ + Seq::<(u64, u32)>::empty() =~= out@);
    }
    out
}

} // verus!
