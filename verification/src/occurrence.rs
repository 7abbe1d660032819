//! First-occurrence order over a sequence.
//!
//! The signature engine and the classifier both revolve around the same
//! questions about a sequence: which distinct values appear in it, in
//! what order they first appear, and at which position of that order a
//! given value stands. These spec functions and lemmas answer them once,
//! for any element type; the signature engine instantiates them with
//! characters, the classifier with whole signatures.

use vstd::multiset::Multiset;
use vstd::prelude::*;

verus! {

/// The distinct elements of `s`, each listed once, in the order of its
/// first occurrence in `s`.
pub open spec fn firsts<A>(s: Seq<A>) -> Seq<A>
    decreases s.len(),
{
    if s.len() == 0 {
        Seq::empty()
    } else if firsts(s.drop_last()).contains(s.last()) {
        firsts(s.drop_last())
    } else {
        firsts(s.drop_last()).push(s.last())
    }
}

/// The position of `x` in `s`; meaningful when `s` lists each of its
/// elements once, as the results of [`firsts`] do.
pub open spec fn rank<A>(s: Seq<A>, x: A) -> int
    decreases s.len(),
{
    if s.len() == 0 {
        0
    } else if s.drop_last().contains(x) {
        rank(s.drop_last(), x)
    } else {
        s.len() - 1
    }
}

/// How many positions of `s` hold `x`.
pub open spec fn count_of<A>(s: Seq<A>, x: A) -> int
    decreases s.len(),
{
    if s.len() == 0 {
        0
    } else if s.last() == x {
        1 + count_of(s.drop_last(), x)
    } else {
        count_of(s.drop_last(), x)
    }
}

/// The position of the first occurrence of `x` in `s`.
pub open spec fn first_idx<A>(s: Seq<A>, x: A) -> int
    decreases s.len(),
{
    if s.len() == 0 {
        0
    } else if s[0] == x {
        0
    } else {
        1 + first_idx(s.drop_first(), x)
    }
}

/// Some value occurs at two distinct positions of `s`.
pub open spec fn has_repeat<A>(s: Seq<A>) -> bool {
    exists|i: int, j: int| 0 <= i < j < s.len() && s[i] == s[j]
}

/// No value occurs at two distinct positions of `s`.
pub open spec fn distinct<A>(s: Seq<A>) -> bool {
    forall|i: int, j: int| 0 <= i < j < s.len() ==> s[i] != s[j]
}

/// `firsts` keeps exactly the elements of its argument.
pub proof fn lemma_firsts_contains<A>(s: Seq<A>, x: A)
    ensures
        firsts(s).contains(x) <==> s.contains(x),
    decreases s.len(),
{
    broadcast use vstd::seq_lib::group_seq_properties;

    if s.len() == 0 {
    } else {
        let dl = s.drop_last();
        lemma_firsts_contains(dl, x);
        assert(s =~= dl.push(s.last()));
    }
}

/// `firsts` lists each element at most once.
pub proof fn lemma_firsts_distinct<A>(s: Seq<A>)
    ensures
        distinct(firsts(s)),
    decreases s.len(),
{
    if s.len() == 0 {
    } else {
        let dl = s.drop_last();
        lemma_firsts_distinct(dl);
        if !firsts(dl).contains(s.last()) {
            let f = firsts(dl).push(s.last());
            assert forall|i: int, j: int| 0 <= i < j < f.len() implies f[i] != f[j] by {
                if j == f.len() - 1 && f[i] == s.last() {
                    assert(firsts(dl)[i] == s.last());
                    assert(firsts(dl).contains(s.last()));
                }
            }
        }
    }
}

/// Appending one element extends `firsts` by that element exactly when
/// it is new.
pub proof fn lemma_firsts_push<A>(s: Seq<A>, x: A)
    ensures
        firsts(s.push(x)) == if s.contains(x) {
            firsts(s)
        } else {
            firsts(s).push(x)
        },
{
    assert(s.push(x).drop_last() =~= s);
    lemma_firsts_contains(s, x);
}

/// There are never more first occurrences than positions, and every
/// position is a first occurrence exactly when nothing repeats.
pub proof fn lemma_firsts_len<A>(s: Seq<A>)
    ensures
        firsts(s).len() <= s.len(),
        (firsts(s).len() == s.len()) <==> !has_repeat(s),
    decreases s.len(),
{
    if s.len() == 0 {
    } else {
        let dl = s.drop_last();
        lemma_firsts_len(dl);
        lemma_firsts_contains(dl, s.last());
        if firsts(dl).contains(s.last()) {
            // The last element is a repeat, and `firsts` stays short.
            let i = choose|i: int| 0 <= i < dl.len() && dl[i] == s.last();
            assert(s[i] == s[s.len() - 1]);
            assert(has_repeat(s));
        } else {
            // The last element is fresh: repetition is decided by the rest.
            if has_repeat(s) {
                let (i, j) = choose|i: int, j: int| 0 <= i < j < s.len() && s[i] == s[j];
                if j == s.len() - 1 {
                    assert(dl[i] == s.last());
                    assert(dl.contains(s.last()));
                } else {
                    assert(dl[i] == dl[j]);
                    assert(has_repeat(dl));
                }
            }
            if has_repeat(dl) {
                let (i, j) = choose|i: int, j: int| 0 <= i < j < dl.len() && dl[i] == dl[j];
                assert(s[i] == s[j]);
                assert(has_repeat(s));
            }
        }
    }
}

/// For an element of `s`, `rank` is a position of `s` holding it.
pub proof fn lemma_rank_correct<A>(s: Seq<A>, x: A)
    requires
        s.contains(x),
    ensures
        0 <= rank(s, x) < s.len(),
        s[rank(s, x)] == x,
    decreases s.len(),
{
    let dl = s.drop_last();
    if dl.contains(x) {
        lemma_rank_correct(dl, x);
    } else {
        let i = choose|i: int| 0 <= i < s.len() && s[i] == x;
        if i < s.len() - 1 {
            assert(dl[i] == x);
            assert(dl.contains(x));
        }
    }
}

/// The rank of an element already present is unmoved by appending.
pub proof fn lemma_rank_push<A>(s: Seq<A>, x: A, y: A)
    requires
        s.contains(x),
    ensures
        rank(s.push(y), x) == rank(s, x),
{
    assert(s.push(y).drop_last() =~= s);
}

/// The rank of an element already present is unmoved by appending any
/// suffix.
pub proof fn lemma_rank_prefix<A>(s: Seq<A>, ext: Seq<A>, x: A)
    requires
        s.contains(x),
    ensures
        rank(s + ext, x) == rank(s, x),
    decreases ext.len(),
{
    if ext.len() == 0 {
        assert(s + ext =~= s);
    } else {
        lemma_rank_prefix(s, ext.drop_last(), x);
        assert(s + ext =~= (s + ext.drop_last()).push(ext.last()));
        let i = choose|i: int| 0 <= i < s.len() && s[i] == x;
        assert((s + ext.drop_last())[i] == x);
        assert((s + ext.drop_last()).contains(x));
        lemma_rank_push(s + ext.drop_last(), x, ext.last());
    }
}

/// In a sequence without repeats, `rank` inverts indexing.
pub proof fn lemma_rank_is_index<A>(s: Seq<A>, k: int)
    requires
        distinct(s),
        0 <= k < s.len(),
    ensures
        rank(s, s[k]) == k,
{
    assert(s.contains(s[k]));
    lemma_rank_correct(s, s[k]);
}

/// `count_of` counts as the multiset abstraction does, so it is blind
/// to the order of the sequence.
pub proof fn lemma_count_multiset<A>(s: Seq<A>, x: A)
    ensures
        count_of(s, x) == s.to_multiset().count(x),
    decreases s.len(),
{
    broadcast use vstd::seq_lib::group_to_multiset_ensures;

    if s.len() == 0 {
        assert(s.to_multiset() =~= Multiset::empty());
    } else {
        let dl = s.drop_last();
        lemma_count_multiset(dl, x);
        assert(s =~= dl.push(s.last()));
        assert(dl.push(s.last()).to_multiset() =~= dl.to_multiset().insert(s.last()));
    }
}

/// For an element of `s`, `first_idx` is the least position holding it.
pub proof fn lemma_first_idx_correct<A>(s: Seq<A>, x: A)
    requires
        s.contains(x),
    ensures
        0 <= first_idx(s, x) < s.len(),
        s[first_idx(s, x)] == x,
        forall|m: int| 0 <= m < first_idx(s, x) ==> s[m] != x,
    decreases s.len(),
{
    if s[0] == x {
    } else {
        let df = s.drop_first();
        let i = choose|i: int| 0 <= i < s.len() && s[i] == x;
        assert(i != 0);
        assert(df[i - 1] == x);
        assert(df.contains(x));
        lemma_first_idx_correct(df, x);
        assert forall|m: int| 0 <= m < first_idx(s, x) implies s[m] != x by {
            if m >= 1 {
                assert(df[m - 1] == s[m]);
            }
        }
    }
}

/// The first occurrence of an element already present is unmoved by
/// appending.
pub proof fn lemma_first_idx_push<A>(s: Seq<A>, x: A, y: A)
    requires
        s.contains(x),
    ensures
        first_idx(s.push(y), x) == first_idx(s, x),
    decreases s.len(),
{
    if s[0] == x {
        assert(s.push(y)[0] == x);
    } else {
        let df = s.drop_first();
        let i = choose|i: int| 0 <= i < s.len() && s[i] == x;
        assert(df[i - 1] == x);
        assert(df.contains(x));
        lemma_first_idx_push(df, x, y);
        assert(s.push(y).drop_first() =~= df.push(y));
    }
}

/// A fresh element appended to `s` first occurs at the old length.
pub proof fn lemma_first_idx_push_new<A>(s: Seq<A>, x: A)
    requires
        !s.contains(x),
    ensures
        first_idx(s.push(x), x) == s.len(),
    decreases s.len(),
{
    if s.len() == 0 {
        assert(s.push(x)[0] == x);
    } else {
        assert(s[0] != x);
        lemma_first_idx_push_new(s.drop_first(), x);
        assert(s.push(x).drop_first() =~= s.drop_first().push(x));
        assert(s.push(x)[0] == s[0]);
    }
}

/// `filter` of an extended sequence extends the filtered sequence by
/// the new element exactly when the predicate accepts it.
pub proof fn lemma_filter_push<A>(u: Seq<A>, p: spec_fn(A) -> bool, x: A)
    ensures
        u.push(x).filter(p) == if p(x) {
            u.filter(p).push(x)
        } else {
            u.filter(p)
        },
{
    reveal_with_fuel(Seq::<_>::filter, 2);
    assert(u.push(x).drop_last() =~= u);
    assert(u.push(x).last() == x);
}

/// Whatever `filter` keeps was in the sequence.
pub proof fn lemma_filter_subset<A>(u: Seq<A>, p: spec_fn(A) -> bool, x: A)
    requires
        u.filter(p).contains(x),
    ensures
        u.contains(x),
    decreases u.len(),
{
    if u.len() == 0 {
    } else {
        let dl = u.drop_last();
        assert(dl.push(u.last()) =~= u);
        lemma_filter_push(dl, p, u.last());
        let f = u.filter(p);
        if p(u.last()) {
            let i = choose|i: int| 0 <= i < f.len() && f[i] == x;
            if i == f.len() - 1 {
                assert(u[u.len() - 1] == x);
            } else {
                assert(dl.filter(p)[i] == x);
                assert(dl.filter(p).contains(x));
                lemma_filter_subset(dl, p, x);
                let j = choose|j: int| 0 <= j < dl.len() && dl[j] == x;
                assert(u[j] == x);
            }
        } else {
            lemma_filter_subset(dl, p, x);
            let j = choose|j: int| 0 <= j < dl.len() && dl[j] == x;
            assert(u[j] == x);
        }
    }
}

/// `filter` keeps the relative order of what it keeps: a measure that
/// grows strictly along the sequence still grows strictly along the
/// filtered sequence.
pub proof fn lemma_filter_preserves_order<A>(u: Seq<A>, p: spec_fn(A) -> bool, f: spec_fn(A) -> int)
    requires
        forall|a: int, b: int| 0 <= a < b < u.len() ==> f(u[a]) < f(u[b]),
    ensures
        forall|a: int, b: int|
            0 <= a < b < u.filter(p).len() ==> f(u.filter(p)[a]) < f(u.filter(p)[b]),
    decreases u.len(),
{
    if u.len() == 0 {
    } else {
        let dl = u.drop_last();
        assert(dl.push(u.last()) =~= u);
        lemma_filter_push(dl, p, u.last());
        assert forall|a: int, b: int| 0 <= a < b < dl.len() implies f(dl[a]) < f(dl[b]) by {
            assert(dl[a] == u[a] && dl[b] == u[b]);
        }
        lemma_filter_preserves_order(dl, p, f);
        let g = u.filter(p);
        if p(u.last()) {
            assert forall|a: int, b: int| 0 <= a < b < g.len() implies f(g[a]) < f(g[b]) by {
                if b < g.len() - 1 {
                    assert(g[a] == dl.filter(p)[a] && g[b] == dl.filter(p)[b]);
                } else {
                    assert(g[b] == u.last());
                    assert(dl.filter(p)[a] == g[a]);
                    assert(dl.filter(p).contains(g[a]));
                    lemma_filter_subset(dl, p, g[a]);
                    let j = choose|j: int| 0 <= j < dl.len() && dl[j] == g[a];
                    assert(f(u[j]) < f(u[u.len() - 1]));
                }
            }
        }
    }
}

/// Scanning a prefix of a sequence discovers a prefix of its first
/// occurrences.
pub proof fn lemma_firsts_prefix<A>(s: Seq<A>, i: int)
    requires
        0 <= i <= s.len(),
    ensures
        firsts(s.take(i)).len() <= firsts(s).len(),
        firsts(s).take(firsts(s.take(i)).len() as int) == firsts(s.take(i)),
    decreases s.len() - i,
{
    if i == s.len() {
        assert(s.take(i) =~= s);
        assert(firsts(s).take(firsts(s).len() as int) =~= firsts(s));
    } else {
        lemma_firsts_prefix(s, i + 1);
        assert(s.take(i + 1) =~= s.take(i).push(s[i]));
        lemma_firsts_push(s.take(i), s[i]);
        let a = firsts(s.take(i));
        let b = firsts(s.take(i + 1));
        let c = firsts(s);
        assert(b.take(a.len() as int) =~= a);
        assert(c.take(b.len() as int).take(a.len() as int) =~= c.take(a.len() as int));
    }
}

/// `firsts` lists elements in strictly increasing order of their first
/// occurrence.
pub proof fn lemma_firsts_ordered<A>(s: Seq<A>)
    ensures
        forall|a: int, b: int|
            0 <= a < b < firsts(s).len() ==> first_idx(s, firsts(s)[a]) < first_idx(
                s,
                firsts(s)[b],
            ),
    decreases s.len(),
{
    if s.len() == 0 {
    } else {
        let dl = s.drop_last();
        let f = firsts(s);
        lemma_firsts_ordered(dl);
        assert(s =~= dl.push(s.last()));
        lemma_firsts_contains(dl, s.last());
        assert forall|a: int, b: int| 0 <= a < b < f.len() implies first_idx(s, f[a]) < first_idx(
            s,
            f[b],
        ) by {
            assert(firsts(dl).contains(f[a]));
            lemma_firsts_contains(dl, f[a]);
            lemma_first_idx_push(dl, f[a], s.last());
            lemma_first_idx_correct(dl, f[a]);
            if b < firsts(dl).len() {
                assert(firsts(dl).contains(f[b]));
                lemma_firsts_contains(dl, f[b]);
                lemma_first_idx_push(dl, f[b], s.last());
            } else {
                // `b` indexes the freshly appended last element.
                lemma_first_idx_push_new(dl, s.last());
            }
        }
    }
}

} // verus!
