//! Splitting raw text into terms.
//!
//! Text is split on Unicode whitespace; case is preserved and no
//! punctuation is stripped. Normalization of the resulting terms is a
//! pluggable capability; the reference normalizer is the identity.

use vstd::prelude::*;
use vstd::string::StrSliceExecFns;
use vstd::string::StringExecFns;

verus! {

/// A term separator is a character with the Unicode `White_Space` property.
pub open spec fn is_term_sep(c: char) -> bool {
    let u = c as u32;
    (0x0009 <= u && u <= 0x000D) || u == 0x0020 || u == 0x0085 || u == 0x00A0 || u == 0x1680 || (
    0x2000 <= u && u <= 0x200A) || u == 0x2028 || u == 0x2029 || u == 0x202F || u == 0x205F
        || u == 0x3000
}

/// Decides whether `c` separates two terms.
pub fn is_term_sep_char(c: char) -> (r: bool)
    ensures
        r == is_term_sep(c),
{
    let u = c as u32;
    (0x0009 <= u && u <= 0x000D) || u == 0x0020 || u == 0x0085 || u == 0x00A0 || u == 0x1680 || (
    0x2000 <= u && u <= 0x200A) || u == 0x2028 || u == 0x2029 || u == 0x202F || u == 0x205F
        || u == 0x3000
}

/// Length of the leading run of non-separator characters.
pub open spec fn first_token_len(s: Seq<char>) -> nat
    decreases s.len(),
{
    if s.len() == 0 || is_term_sep(s[0]) {
        0
    } else {
        1 + first_token_len(s.drop_first())
    }
}

/// The sequence of maximal non-separator runs of `s`, in order.
pub open spec fn spec_tokens(s: Seq<char>) -> Seq<Seq<char>>
    decreases s.len(),
    via spec_tokens_decreases
{
    if s.len() == 0 {
        Seq::empty()
    } else if is_term_sep(s[0]) {
        spec_tokens(s.drop_first())
    } else {
        seq![s.take(first_token_len(s) as int)] + spec_tokens(s.skip(first_token_len(s) as int))
    }
}

proof fn lemma_first_token_len_le(s: Seq<char>)
    ensures
        first_token_len(s) <= s.len(),
    decreases s.len(),
{
    if s.len() == 0 || is_term_sep(s[0]) {
    } else {
        lemma_first_token_len_le(s.drop_first());
    }
}

#[via_fn]
proof fn spec_tokens_decreases(s: Seq<char>) {
    if s.len() != 0 && !is_term_sep(s[0]) {
        lemma_first_token_len_le(s);
        assert(first_token_len(s) >= 1);
    }
}

/// A run of `n` non-separator characters ended by a separator or by the end
/// of the text is exactly the leading token.
proof fn lemma_first_token_len_is(s: Seq<char>, n: nat)
    requires
        n <= s.len(),
        forall|m: int| 0 <= m < n ==> !is_term_sep(s[m]),
        n == s.len() || is_term_sep(s[n as int]),
    ensures
        first_token_len(s) == n,
    decreases s.len(),
{
    if n == 0 {
    } else {
        assert(!is_term_sep(s[0]));
        let t = s.drop_first();
        assert(forall|m: int| 0 <= m < n - 1 ==> t[m] == s[m + 1] && !is_term_sep(t[m]));
        if (n - 1) < t.len() {
            assert(t[n - 1] == s[n as int]);
        }
        lemma_first_token_len_is(t, (n - 1) as nat);
    }
}

/// Splits `doc` on Unicode whitespace into its terms, in order.
pub fn tokenize(doc: &str) -> (tokens: Vec<String>)
    ensures
        tokens.deep_view() == spec_tokens(doc@),
{
    let len = doc.unicode_len();
    let mut toks: Vec<String> = Vec::new();
    let mut i: usize = 0;
    proof {
        assert(doc@.skip(0) =~= doc@);
        assert(toks.deep_view() + spec_tokens(doc@) =~= spec_tokens(doc@));
    }
    while i < len
        invariant
            i <= len,
            len == doc@.len(),
            toks.deep_view() + spec_tokens(doc@.skip(i as int)) =~= spec_tokens(doc@),
        decreases len - i,
    {
        let c = doc.get_char(i);
        if is_term_sep_char(c) {
            proof {
                assert(doc@.skip(i as int).drop_first() =~= doc@.skip(i as int + 1));
                assert(doc@.skip(i as int)[0] == doc@[i as int]);
            }
            i += 1;
        } else {
            let mut j: usize = i + 1;
            loop
                invariant_except_break
                    i < j <= len,
                    len == doc@.len(),
                    forall|m: int| i <= m < j ==> !is_term_sep(doc@[m]),
                ensures
                    i < j <= len,
                    len == doc@.len(),
                    forall|m: int| i <= m < j ==> !is_term_sep(doc@[m]),
                    j == len || is_term_sep(doc@[j as int]),
                decreases len - j,
            {
                if j >= len {
                    break ;
                }
                let cj = doc.get_char(j);
                if is_term_sep_char(cj) {
                    break ;
                }
                j += 1;
            }
            let t = doc.substring_char(i, j);
            let term = String::from_str(t);
            let ghost prev = toks.deep_view();
            toks.push(term);
            proof {
                let rest = doc@.skip(i as int);
                assert(forall|m: int| 0 <= m < j - i ==> rest[m] == doc@[m + i] && !is_term_sep(
                    rest[m],
                ));
                if j < len {
                    assert(rest[j - i] == doc@[j as int]);
                }
                lemma_first_token_len_is(rest, (j - i) as nat);
                assert(rest.take(j - i) =~= doc@.subrange(i as int, j as int));
                assert(rest.skip(j - i) =~= doc@.skip(j as int));
                assert(toks.deep_view() =~= prev.push(term@));
                assert(toks.deep_view() + spec_tokens(doc@.skip(j as int)) =~= prev + spec_tokens(
                    rest,
                ));
            }
            i = j;
        }
    }
    proof {
        assert(doc@.skip(len as int) =~= Seq::<char>::empty());
        assert(toks.deep_view() + spec_tokens(doc@.skip(len as int)) =~= toks.deep_view());
    }
    toks
}

/// Normalizes a sequence of terms. The reference normalization is the
/// identity: every term stands for itself.
pub fn stemmer(words: &[String]) -> (normalized: &[String])
    ensures
        normalized.deep_view() == words.deep_view(),
{
    words
}

} // verus!
