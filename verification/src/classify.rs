//! The classifier and colourizer.
//!
//! Words are grouped by pattern signature. A signature qualifies for
//! colouring when at least two words of the input carry it and it is
//! good (repeats a value); each qualifying signature is assigned a
//! colour key on first encounter, in the order the signatures are
//! first seen while walking the original word list.

use crate::colours::ColourKey;
use crate::occurrence::{
    count_of, distinct, first_idx, firsts, has_repeat, lemma_count_multiset,
    lemma_filter_preserves_order, lemma_filter_push, lemma_filter_subset, lemma_firsts_ordered,
    lemma_firsts_prefix, lemma_firsts_push, lemma_rank_correct, lemma_rank_is_index,
    lemma_rank_prefix, rank,
};
use crate::signature::{lemma_sig_repeat, sig_of, IsomorphSignature};
use vstd::prelude::*;

use vstd::string::StrSliceExecFns;

verus! {

/// A word together with the colour key of its equivalence class, if
/// that class qualified for colouring.
#[derive(Clone, Debug)]
pub struct ColouredObject {
    pub value: String,
    pub colour: Option<ColourKey>,
}

/// The signatures of a sequence of words, in word order.
pub open spec fn sigs_of(ws: Seq<Seq<char>>) -> Seq<Seq<int>> {
    ws.map_values(|w: Seq<char>| sig_of(w))
}

/// A signature qualifies for colouring when at least two words of the
/// input carry it and some value repeats in it.
pub open spec fn sig_qualifies(sigs: Seq<Seq<int>>, s: Seq<int>) -> bool {
    count_of(sigs, s) >= 2 && has_repeat(s)
}

/// Qualification, as a predicate to filter with.
pub open spec fn qualifies_pred(sigs: Seq<Seq<int>>) -> spec_fn(Seq<int>) -> bool {
    |s: Seq<int>| sig_qualifies(sigs, s)
}

/// The qualifying signatures, in the order of their first occurrence
/// in the word list.
pub open spec fn qual_firsts(sigs: Seq<Seq<int>>) -> Seq<Seq<int>> {
    firsts(sigs).filter(qualifies_pred(sigs))
}

/// The colour key owed to word `i`: the position of its signature
/// among the qualifying signatures in first-occurrence order.
pub open spec fn key_of(ws: Seq<Seq<char>>, i: int) -> int {
    rank(qual_firsts(sigs_of(ws)), sigs_of(ws)[i])
}

/// The colour assigned to word `i` of `ws`: the key of its class if
/// its signature qualifies, nothing otherwise.
pub open spec fn colour_spec(ws: Seq<Seq<char>>, i: int) -> Option<ColourKey> {
    if sig_qualifies(sigs_of(ws), sigs_of(ws)[i]) {
        Some(ColourKey { idx: key_of(ws, i) as usize })
    } else {
        None
    }
}

/// The characters of `s`, in order.
pub fn chars_of(s: &String) -> (r: Vec<char>)
    ensures
        r@ == s@,
{
    let mut r: Vec<char> = Vec::new();
    let n = s.as_str().unicode_len();
    let mut i: usize = 0;
    while i < n
        invariant
            n == s@.len(),
            i <= n,
            r@ == s@.take(i as int),
        decreases n - i,
    {
        let c = s.as_str().get_char(i);
        proof {
            assert(s@.take(i as int + 1) =~= s@.take(i as int).push(s@[i as int]));
        }
        r.push(c);
        i += 1;
    }
    proof {
        assert(s@.take(n as int) =~= s@);
    }
    r
}

/// How many signatures of `sigs` equal `s` as sequences.
fn count_matching(sigs: &Vec<IsomorphSignature>, s: &IsomorphSignature) -> (r: usize)
    ensures
        r as int == count_of(sigs@.map_values(|t: IsomorphSignature| t@), s@),
{
    let ghost views = sigs@.map_values(|t: IsomorphSignature| t@);
    let mut r: usize = 0;
    let mut i: usize = 0;
    while i < sigs.len()
        invariant
            i <= sigs@.len(),
            views == sigs@.map_values(|t: IsomorphSignature| t@),
            r <= i,
            r as int == count_of(views.take(i as int), s@),
        decreases sigs@.len() - i,
    {
        proof {
            assert(views.take(i as int + 1) =~= views.take(i as int).push(views[i as int]));
            assert(views.take(i as int + 1).drop_last() =~= views.take(i as int));
        }
        if sig_eq(&sigs[i], s) {
            r = r + 1;
        }
        i += 1;
    }
    proof {
        assert(views.take(views.len() as int) =~= views);
    }
    r
}

/// Whether two signatures are equal as sequences.
fn sig_eq(a: &IsomorphSignature, b: &IsomorphSignature) -> (r: bool)
    ensures
        r == (a@ == b@),
{
    if a.signature.len() != b.signature.len() {
        proof {
            assert(a@.len() != b@.len());
        }
        return false;
    }
    let mut i: usize = 0;
    while i < a.signature.len()
        invariant
            i <= a.signature@.len(),
            a.signature@.len() == b.signature@.len(),
            forall|k: int| 0 <= k < i ==> a.signature@[k] == b.signature@[k],
        decreases a.signature@.len() - i,
    {
        if a.signature[i] != b.signature[i] {
            proof {
                assert(a@[i as int] != b@[i as int]);
            }
            return false;
        }
        i += 1;
    }
    proof {
        assert(a@ =~= b@);
    }
    true
}

/// Position in `seen` of an entry whose signature equals `s`, if any.
fn find_seen(sigs: &Vec<IsomorphSignature>, seen: &Vec<usize>, s: &IsomorphSignature) -> (r: Option<
    usize,
>)
    requires
        forall|k: int| 0 <= k < seen@.len() ==> (seen@[k] as int) < sigs@.len(),
    ensures
        match r {
            Some(k) => 0 <= k < seen@.len() && sigs@[seen@[k as int] as int]@ == s@,
            None => forall|k: int| 0 <= k < seen@.len() ==> sigs@[seen@[k] as int]@ != s@,
        },
{
    let mut k: usize = 0;
    while k < seen.len()
        invariant
            k <= seen@.len(),
            forall|m: int| 0 <= m < seen@.len() ==> (seen@[m] as int) < sigs@.len(),
            forall|m: int| 0 <= m < k ==> sigs@[seen@[m] as int]@ != s@,
        decreases seen@.len() - k,
    {
        if sig_eq(&sigs[seen[k]], s) {
            return Some(k);
        }
        k += 1;
    }
    None
}

/// Groups `words` by pattern signature and assigns every word of a
/// qualifying class the class's colour key, in first-encounter order
/// of the qualifying signatures; all other words are left uncoloured.
/// Input order is preserved.
pub fn colour(words: Vec<String>) -> (r: Vec<ColouredObject>)
    ensures
        r@.len() == words@.len(),
        forall|i: int| 0 <= i < r@.len() ==> r@[i].value@ == words@[i]@,
        forall|i: int|
            0 <= i < r@.len() ==> r@[i].colour == colour_spec(
                words@.map_values(|w: String| w@),
                i,
            ),
{
    let ghost ws = words@.map_values(|w: String| w@);
    let ghost sigs_spec = sigs_of(ws);
    let ghost pred = qualifies_pred(sigs_spec);

    // First pass: the signature of every word, in input order.
    let mut sigs: Vec<IsomorphSignature> = Vec::new();
    let mut i: usize = 0;
    while i < words.len()
        invariant
            i <= words@.len(),
            ws == words@.map_values(|w: String| w@),
            sigs_spec == sigs_of(ws),
            sigs@.len() == i,
            forall|k: int| 0 <= k < i ==> sigs@[k]@ == sigs_spec[k],
            forall|k: int| 0 <= k < i ==> sigs@[k].good == has_repeat(sigs_spec[k]),
        decreases words@.len() - i,
    {
        let cs = chars_of(&words[i]);
        let s = IsomorphSignature::from_isomorphic(&cs);
        proof {
            crate::signature::lemma_good_characterises_repetition(ws[i as int]);
            lemma_sig_repeat(ws[i as int]);
        }
        sigs.push(s);
        i += 1;
    }

    // Second pass: count each class over the full input, and hand the
    // qualifying classes their keys in first-encounter order.
    let mut seen: Vec<usize> = Vec::new();
    let mut out: Vec<ColouredObject> = Vec::new();
    let mut i: usize = 0;
    while i < words.len()
        invariant
            i <= words@.len(),
            ws == words@.map_values(|w: String| w@),
            sigs_spec == sigs_of(ws),
            pred == qualifies_pred(sigs_spec),
            sigs@.len() == words@.len(),
            forall|k: int| 0 <= k < sigs@.len() ==> sigs@[k]@ == sigs_spec[k],
            forall|k: int| 0 <= k < sigs@.len() ==> sigs@[k].good == has_repeat(sigs_spec[k]),
            forall|k: int| 0 <= k < seen@.len() ==> (seen@[k] as int) < sigs@.len(),
            seen@.map_values(|j: usize| sigs_spec[j as int]) == firsts(
                sigs_spec.take(i as int),
            ).filter(pred),
            out@.len() == i,
            forall|k: int| 0 <= k < i ==> out@[k].value@ == ws[k],
            forall|k: int| 0 <= k < i ==> out@[k].colour == colour_spec(ws, k),
        decreases words@.len() - i,
    {
        let ghost seen_views = seen@.map_values(|j: usize| sigs_spec[j as int]);
        let ghost s_i = sigs_spec[i as int];
        proof {
            assert(sigs@.map_values(|t: IsomorphSignature| t@) =~= sigs_spec);
            assert(sigs_spec.take(i as int + 1) =~= sigs_spec.take(i as int).push(s_i));
            lemma_firsts_push(sigs_spec.take(i as int), s_i);
            lemma_filter_push(firsts(sigs_spec.take(i as int)), pred, s_i);
            crate::occurrence::lemma_firsts_contains(sigs_spec.take(i as int), s_i);
            crate::occurrence::lemma_firsts_distinct(sigs_spec.take(i as int));
        }
        let qualifies = sigs[i].good && count_matching(&sigs, &sigs[i]) >= 2;
        proof {
            assert(qualifies == sig_qualifies(sigs_spec, s_i));
        }
        let col: Option<ColourKey>;
        if qualifies {
            match find_seen(&sigs, &seen, &sigs[i]) {
                Some(k) => {
                    proof {
                        // The class already has its key: the position of its
                        // signature among the qualifying first occurrences.
                        assert(seen_views[k as int] == s_i);
                        lemma_seen_distinct(sigs_spec, i as int, seen_views);
                        lemma_rank_is_index(seen_views, k as int);
                        assert(seen_views.contains(s_i));
                        lemma_qual_rank_extend(sigs_spec, i as int, s_i);
                        // The signature was seen before, so `firsts` and its
                        // filtered form are unchanged by this occurrence.
                        lemma_filter_subset(firsts(sigs_spec.take(i as int)), pred, s_i);
                    }
                    col = Some(ColourKey { idx: k });
                },
                None => {
                    let k = seen.len();
                    seen.push(i);
                    proof {
                        // A fresh qualifying class: it takes the next key.
                        let seen_views2 = seen@.map_values(|j: usize| sigs_spec[j as int]);
                        assert(seen_views2 =~= seen_views.push(s_i));
                        if firsts(sigs_spec.take(i as int)).contains(s_i) {
                            // It would already stand in the filtered firsts.
                            let fi = firsts(sigs_spec.take(i as int));
                            let w = choose|w: int| 0 <= w < fi.len() && fi[w] == s_i;
                            fi.lemma_filter_contains(pred, w);
                            assert(seen_views.contains(s_i));
                            let m = choose|m: int|
                                0 <= m < seen_views.len() && seen_views[m] == s_i;
                            assert(sigs_spec[seen@[m] as int] == s_i);
                            assert(false);
                        }
                        assert(seen_views2.drop_last() =~= seen_views);
                        assert(rank(seen_views2, s_i) == seen_views.len());
                        assert(seen_views2[seen_views.len() as int] == s_i);
                        assert(seen_views2.contains(s_i));
                        lemma_qual_rank_extend(sigs_spec, i as int + 1, s_i);
                    }
                    col = Some(ColourKey { idx: k });
                },
            }
        } else {
            col = None;
        }
        let word = words[i].clone();
        out.push(ColouredObject { value: word, colour: col });
        i += 1;
    }
    proof {
        assert(sigs_spec.take(sigs_spec.len() as int) =~= sigs_spec);
        assert forall|k: int| 0 <= k < out@.len() implies out@[k].value@ == words@[k]@ by {
            assert(ws[k] == words@[k]@);
        }
    }
    out
}

/// What one scan has filed under keys so far never holds a signature
/// twice.
proof fn lemma_seen_distinct(sigs: Seq<Seq<int>>, j: int, seen_views: Seq<Seq<int>>)
    requires
        0 <= j <= sigs.len(),
        seen_views == firsts(sigs.take(j)).filter(qualifies_pred(sigs)),
    ensures
        distinct(seen_views),
{
    let fi = firsts(sigs.take(j));
    crate::occurrence::lemma_firsts_distinct(sigs.take(j));
    assert forall|c: int, d: int| 0 <= c < d < fi.len() implies rank(fi, fi[c]) < rank(
        fi,
        fi[d],
    ) by {
        lemma_rank_is_index(fi, c);
        lemma_rank_is_index(fi, d);
    }
    lemma_filter_preserves_order(fi, qualifies_pred(sigs), |x: Seq<int>| rank(fi, x));
    assert forall|a: int, b: int|
        0 <= a < b < seen_views.len() implies seen_views[a] != seen_views[b] by {
        assert(rank(fi, seen_views[a]) < rank(fi, seen_views[b]));
    }
}

/// The rank of a signature among the qualifying first occurrences of a
/// scanned prefix equals its rank among those of the whole input.
proof fn lemma_qual_rank_extend(sigs: Seq<Seq<int>>, j: int, x: Seq<int>)
    requires
        0 <= j <= sigs.len(),
        firsts(sigs.take(j)).filter(qualifies_pred(sigs)).contains(x),
    ensures
        rank(qual_firsts(sigs), x) == rank(firsts(sigs.take(j)).filter(qualifies_pred(sigs)), x),
{
    let pred = qualifies_pred(sigs);
    let prefix = firsts(sigs.take(j));
    let full = firsts(sigs);
    lemma_firsts_prefix(sigs, j);
    let suffix = full.skip(prefix.len() as int);
    assert(full =~= prefix + suffix);
    Seq::filter_distributes_over_add(prefix, suffix, pred);
    lemma_rank_prefix(prefix.filter(pred), suffix.filter(pred), x);
}

/// Classification is a pure function of the word list: two runs over
/// the same input assign identical colours.
pub proof fn lemma_classification_deterministic(
    ws: Seq<Seq<char>>,
    c1: Seq<Option<ColourKey>>,
    c2: Seq<Option<ColourKey>>,
)
    requires
        c1.len() == ws.len(),
        c2.len() == ws.len(),
        forall|i: int| 0 <= i < ws.len() ==> c1[i] == colour_spec(ws, i),
        forall|i: int| 0 <= i < ws.len() ==> c2[i] == colour_spec(ws, i),
    ensures
        c1 == c2,
{
    assert(c1 =~= c2);
}

/// A word whose signature no other word shares is never coloured,
/// whatever its goodness.
pub proof fn lemma_unshared_uncoloured(ws: Seq<Seq<char>>, i: int)
    requires
        0 <= i < ws.len(),
        count_of(sigs_of(ws), sig_of(ws[i])) < 2,
    ensures
        colour_spec(ws, i) is None,
{
    assert(sigs_of(ws)[i] == sig_of(ws[i]));
}

/// A word without a repeated character is never coloured, however many
/// words share its signature.
pub proof fn lemma_not_good_uncoloured(ws: Seq<Seq<char>>, i: int)
    requires
        0 <= i < ws.len(),
        !has_repeat(ws[i]),
    ensures
        colour_spec(ws, i) is None,
{
    lemma_sig_repeat(ws[i]);
    assert(sigs_of(ws)[i] == sig_of(ws[i]));
}

/// Colour keys are handed out in first-occurrence order of the
/// qualifying signatures: of two coloured words, the one whose
/// signature appears first in the input carries the key handed out
/// earlier, and the keys agree exactly when the signatures do.
pub proof fn lemma_keys_in_first_occurrence_order(ws: Seq<Seq<char>>, i: int, j: int)
    requires
        0 <= i < ws.len(),
        0 <= j < ws.len(),
        sig_qualifies(sigs_of(ws), sigs_of(ws)[i]),
        sig_qualifies(sigs_of(ws), sigs_of(ws)[j]),
        first_idx(sigs_of(ws), sigs_of(ws)[i]) <= first_idx(sigs_of(ws), sigs_of(ws)[j]),
    ensures
        key_of(ws, i) <= key_of(ws, j),
        (key_of(ws, i) == key_of(ws, j)) <==> (sigs_of(ws)[i] == sigs_of(ws)[j]),
{
    let sigs = sigs_of(ws);
    let pred = qualifies_pred(sigs);
    let qf = qual_firsts(sigs);
    lemma_in_qual_firsts(sigs, i);
    lemma_in_qual_firsts(sigs, j);
    lemma_rank_correct(qf, sigs[i]);
    lemma_rank_correct(qf, sigs[j]);
    lemma_firsts_ordered(sigs);
    lemma_filter_preserves_order(firsts(sigs), pred, |x: Seq<int>| first_idx(sigs, x));
    if sigs[i] == sigs[j] {
    } else {
        assert(qf[rank(qf, sigs[i])] != qf[rank(qf, sigs[j])]);
        if rank(qf, sigs[i]) > rank(qf, sigs[j]) {
            assert(first_idx(sigs, sigs[j]) < first_idx(sigs, sigs[i]));
        }
    }
}

/// The signature of every qualifying word stands among the qualifying
/// first occurrences.
proof fn lemma_in_qual_firsts(sigs: Seq<Seq<int>>, i: int)
    requires
        0 <= i < sigs.len(),
        sig_qualifies(sigs, sigs[i]),
    ensures
        qual_firsts(sigs).contains(sigs[i]),
{
    let fi = firsts(sigs);
    assert(sigs.contains(sigs[i]));
    crate::occurrence::lemma_firsts_contains(sigs, sigs[i]);
    let w = choose|w: int| 0 <= w < fi.len() && fi[w] == sigs[i];
    fi.lemma_filter_contains(qualifies_pred(sigs), w);
}

/// Keys are handed out contiguously: every key below the number of
/// qualifying classes is carried by some word.
pub proof fn lemma_every_key_is_taken(ws: Seq<Seq<char>>, k: int)
    requires
        0 <= k < qual_firsts(sigs_of(ws)).len(),
    ensures
        exists|i: int|
            0 <= i < ws.len() && #[trigger] colour_spec(ws, i) == Some(
                ColourKey { idx: k as usize },
            ),
{
    let sigs = sigs_of(ws);
    let pred = qualifies_pred(sigs);
    let fi = firsts(sigs);
    let qf = qual_firsts(sigs);
    fi.lemma_filter_pred(pred, k);
    assert(qf.contains(qf[k]));
    lemma_filter_subset(fi, pred, qf[k]);
    crate::occurrence::lemma_firsts_contains(sigs, qf[k]);
    let i = choose|i: int| 0 <= i < sigs.len() && sigs[i] == qf[k];
    assert(sigs.take(sigs.len() as int) =~= sigs);
    lemma_seen_distinct(sigs, sigs.len() as int, qf);
    lemma_rank_is_index(qf, k);
    crate::occurrence::lemma_firsts_len(sigs);
    fi.lemma_filter_len(pred);
    assert(colour_spec(ws, i) == Some(ColourKey { idx: k as usize }));
}

/// Which signatures qualify is blind to the order of the words: any
/// reordering of the input keeps class membership and qualification,
/// though it may hand the classes different keys.
pub proof fn lemma_qualification_order_blind(
    sigs1: Seq<Seq<int>>,
    sigs2: Seq<Seq<int>>,
    s: Seq<int>,
)
    requires
        sigs1.to_multiset() == sigs2.to_multiset(),
    ensures
        sig_qualifies(sigs1, s) == sig_qualifies(sigs2, s),
{
    lemma_count_multiset(sigs1, s);
    lemma_count_multiset(sigs2, s);
}

} // verus!
