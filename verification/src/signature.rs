//! The signature engine.
//!
//! A word's pattern signature holds, at each position, the number that
//! was assigned to the character there when it was first seen, numbers
//! being handed out from zero in first-occurrence order. "abb" becomes
//! [0, 1, 1]; any word that a one-to-one character substitution maps
//! onto "abb" becomes [0, 1, 1] as well.

use crate::occurrence::{
    distinct, firsts, has_repeat, lemma_firsts_contains, lemma_firsts_distinct, lemma_firsts_len,
    lemma_firsts_push, lemma_rank_correct, lemma_rank_is_index, lemma_rank_push, rank,
};
use vstd::prelude::*;

verus! {

/// The pattern signature of `w`: position `i` holds the rank of `w[i]`
/// in the first-occurrence order of the characters of `w`.
pub open spec fn sig_of(w: Seq<char>) -> Seq<int> {
    Seq::new(w.len(), |i: int| rank(firsts(w), w[i]))
}

/// A word is "good" when fewer distinct characters appear in it than it
/// has positions, i.e. some character repeats.
pub open spec fn sig_good(w: Seq<char>) -> bool {
    firsts(w).len() != w.len()
}

/// A word's canonical pattern signature, together with the flag that
/// says whether any of its values repeats.
pub struct IsomorphSignature {
    pub signature: Vec<usize>,
    pub good: bool,
}

impl View for IsomorphSignature {
    type V = Seq<int>;

    open spec fn view(&self) -> Seq<int> {
        self.signature@.map_values(|v: usize| v as int)
    }
}

/// Position of `c` in `chars`, if any.
fn index_of_char(chars: &Vec<char>, c: char) -> (r: Option<usize>)
    ensures
        match r {
            Some(j) => j < chars@.len() && chars@[j as int] == c,
            None => !chars@.contains(c),
        },
{
    let mut j: usize = 0;
    while j < chars.len()
        invariant
            j <= chars@.len(),
            forall|m: int| 0 <= m < j ==> chars@[m] != c,
        decreases chars@.len() - j,
    {
        if chars[j] == c {
            return Some(j);
        }
        j += 1;
    }
    None
}

impl IsomorphSignature {
    /// Computes the canonical pattern signature of `word` in one
    /// left-to-right pass, reusing the number first assigned to each
    /// repeated character, and flags whether any character repeats.
    pub fn from_isomorphic(word: &Vec<char>) -> (r: IsomorphSignature)
        ensures
            r@ == sig_of(word@),
            r.good == sig_good(word@),
    {
        let ghost w = word@;
        let mut signature: Vec<usize> = Vec::new();
        let mut first_seen: Vec<char> = Vec::new();
        let mut i: usize = 0;
        while i < word.len()
            invariant
                i <= w.len(),
                word@ == w,
                first_seen@ == firsts(w.take(i as int)),
                signature@.len() == i,
                forall|k: int| 0 <= k < i ==> first_seen@.contains(w[k]),
                forall|k: int| 0 <= k < i ==> signature@[k] as int == rank(first_seen@, w[k]),
            decreases w.len() - i,
        {
            let c = word[i];
            proof {
                assert(w.take(i as int + 1) =~= w.take(i as int).push(w[i as int]));
                lemma_firsts_push(w.take(i as int), w[i as int]);
                lemma_firsts_distinct(w.take(i as int));
                lemma_firsts_contains(w.take(i as int), w[i as int]);
            }
            match index_of_char(&first_seen, c) {
                Some(j) => {
                    proof {
                        lemma_rank_is_index(first_seen@, j as int);
                        assert(first_seen@.contains(c));
                    }
                    signature.push(j);
                },
                None => {
                    let ghost old_seen = first_seen@;
                    signature.push(first_seen.len());
                    first_seen.push(c);
                    proof {
                        // The fresh character ranks after everything seen so far,
                        // and the ranks of seen characters are unmoved.
                        assert(first_seen@.drop_last() =~= old_seen);
                        assert(first_seen@[old_seen.len() as int] == c);
                        assert(first_seen@.contains(c));
                        assert forall|k: int| 0 <= k < i implies signature@[k] as int == rank(
                            first_seen@,
                            w[k],
                        ) && first_seen@.contains(w[k]) by {
                            lemma_rank_push(old_seen, w[k], c);
                            let m = choose|m: int| 0 <= m < old_seen.len() && old_seen[m] == w[k];
                            assert(first_seen@[m] == w[k]);
                        }
                    }
                },
            }
            i += 1;
        }
        proof {
            assert(w.take(w.len() as int) =~= w);
            assert forall|k: int| 0 <= k < w.len() implies signature@.map_values(
                |v: usize| v as int,
            )[k] == sig_of(w)[k] by {}
            assert(signature@.map_values(|v: usize| v as int) =~= sig_of(w));
        }
        let good = first_seen.len() != word.len();
        IsomorphSignature { signature, good }
    }
}

/// A word's signature is flagged "good" exactly when the word has at
/// least one repeated character.
pub proof fn lemma_good_characterises_repetition(w: Seq<char>)
    ensures
        sig_good(w) <==> has_repeat(w),
{
    lemma_firsts_len(w);
}

/// Two positions of a word hold the same character exactly when its
/// signature holds the same value at those positions.
pub proof fn lemma_sig_positions(w: Seq<char>, i: int, j: int)
    requires
        0 <= i < w.len(),
        0 <= j < w.len(),
    ensures
        (sig_of(w)[i] == sig_of(w)[j]) <==> (w[i] == w[j]),
{
    assert(w.contains(w[i]));
    assert(w.contains(w[j]));
    lemma_firsts_contains(w, w[i]);
    lemma_firsts_contains(w, w[j]);
    lemma_firsts_distinct(w);
    lemma_rank_correct(firsts(w), w[i]);
    lemma_rank_correct(firsts(w), w[j]);
}

/// A signature repeats a value exactly when the word it was computed
/// from repeats a character.
pub proof fn lemma_sig_repeat(w: Seq<char>)
    ensures
        has_repeat(sig_of(w)) <==> has_repeat(w),
{
    if has_repeat(w) {
        let (i, j) = choose|i: int, j: int| 0 <= i < j < w.len() && w[i] == w[j];
        lemma_sig_positions(w, i, j);
        assert(sig_of(w)[i] == sig_of(w)[j]);
        assert(has_repeat(sig_of(w)));
    }
    if has_repeat(sig_of(w)) {
        let (i, j) = choose|i: int, j: int|
            0 <= i < j < sig_of(w).len() && sig_of(w)[i] == sig_of(w)[j];
        lemma_sig_positions(w, i, j);
        assert(w[i] == w[j]);
        assert(has_repeat(w));
    }
}

/// Words with the same positional-equality structure develop equal
/// signatures and equally many distinct characters.
proof fn lemma_sig_from_pattern(a: Seq<char>, b: Seq<char>)
    requires
        a.len() == b.len(),
        forall|i: int, j: int|
            0 <= i < a.len() && 0 <= j < a.len() ==> ((a[i] == a[j]) <==> (b[i] == b[j])),
    ensures
        sig_of(a) == sig_of(b),
        firsts(a).len() == firsts(b).len(),
    decreases a.len(),
{
    if a.len() == 0 {
        assert(sig_of(a) =~= sig_of(b));
    } else {
        let n = a.len() - 1;
        let a1 = a.drop_last();
        let b1 = b.drop_last();
        assert(a =~= a1.push(a[n]));
        assert(b =~= b1.push(b[n]));
        assert forall|i: int, j: int|
            0 <= i < a1.len() && 0 <= j < a1.len() implies ((a1[i] == a1[j]) <==> (b1[i]
            == b1[j])) by {
            assert(a1[i] == a[i] && a1[j] == a[j] && b1[i] == b[i] && b1[j] == b[j]);
        }
        lemma_sig_from_pattern(a1, b1);
        lemma_firsts_push(a1, a[n]);
        lemma_firsts_push(b1, b[n]);
        lemma_firsts_contains(a1, a[n]);
        lemma_firsts_contains(b1, b[n]);
        // The last characters are repeats in both words or fresh in both.
        if a1.contains(a[n]) {
            let k = choose|k: int| 0 <= k < a1.len() && a1[k] == a[n];
            assert(b[k] == b[n]);
            assert(b1[k] == b[n]);
            assert(b1.contains(b[n]));
        }
        if b1.contains(b[n]) {
            let k = choose|k: int| 0 <= k < b1.len() && b1[k] == b[n];
            assert(a[k] == a[n]);
            assert(a1[k] == a[n]);
            assert(a1.contains(a[n]));
        }
        // Ranks of already-seen characters are unmoved by the last one.
        assert forall|i: int| 0 <= i < n implies sig_of(a)[i] == sig_of(a1)[i] && sig_of(b)[i]
            == sig_of(b1)[i] by {
            assert(a1.contains(a1[i]));
            assert(b1.contains(b1[i]));
            lemma_firsts_contains(a1, a1[i]);
            lemma_firsts_contains(b1, b1[i]);
            if !a1.contains(a[n]) {
                lemma_rank_push(firsts(a1), a1[i], a[n]);
            }
            if !b1.contains(b[n]) {
                lemma_rank_push(firsts(b1), b1[i], b[n]);
            }
        }
        if a1.contains(a[n]) {
            // Both last characters reuse the number of an earlier position.
            let k = choose|k: int| 0 <= k < a1.len() && a1[k] == a[n];
            assert(sig_of(a)[n] == sig_of(a)[k as int]);
            assert(b[k] == b[n]);
            assert(sig_of(b)[n] == sig_of(b)[k as int]);
        } else {
            // Both last characters are fresh and take the next number,
            // which the induction hypothesis makes equal.
            assert(rank(firsts(a), a[n]) == firsts(a1).len());
            assert(rank(firsts(b), b[n]) == firsts(b1).len());
        }
        assert(sig_of(a) =~= sig_of(b));
    }
}

/// Signatures are a canonical key for isomorphism: two words have equal
/// signatures exactly when they have equal length and the same
/// positional-equality structure in both directions — that is, exactly
/// when some one-to-one substitution of characters maps one word onto
/// the other.
pub proof fn lemma_signature_canonical(a: Seq<char>, b: Seq<char>)
    ensures
        (sig_of(a) == sig_of(b)) <==> (a.len() == b.len() && forall|i: int, j: int|
            0 <= i < a.len() && 0 <= j < a.len() ==> ((a[i] == a[j]) <==> (b[i] == b[j]))),
{
    if sig_of(a) == sig_of(b) {
        assert(sig_of(a).len() == a.len());
        assert(sig_of(b).len() == b.len());
        assert(a.len() == b.len());
        assert forall|i: int, j: int|
            0 <= i < a.len() && 0 <= j < a.len() implies ((a[i] == a[j]) <==> (b[i] == b[j])) by {
            lemma_sig_positions(a, i, j);
            lemma_sig_positions(b, i, j);
        }
    }
    if a.len() == b.len() && (forall|i: int, j: int|
        0 <= i < a.len() && 0 <= j < a.len() ==> ((a[i] == a[j]) <==> (b[i] == b[j]))) {
        lemma_sig_from_pattern(a, b);
    }
}

} // verus!

