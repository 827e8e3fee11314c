//! Shared facts about sequences filtered by a predicate, and about sequences
//! whose elements carry pairwise distinct keys. The store (rows keyed by id)
//! and the render cache (slots keyed by cache key) both build their
//! specifications on these.

use vstd::prelude::*;

verus! {

/// The conjunction of two predicates, for chaining one filter after another.
pub open spec fn pred_and<A>(p: spec_fn(A) -> bool, q: spec_fn(A) -> bool) -> spec_fn(A) -> bool {
    |a: A| p(a) && q(a)
}

/// Whether some element of `s` has key `k` under the projection `kf`.
pub open spec fn has_key<A, K>(s: Seq<A>, kf: spec_fn(A) -> K, k: K) -> bool {
    exists|i: int| 0 <= i < s.len() && kf(#[trigger] s[i]) == k
}

/// No two elements of `s` share a key under `kf`.
pub open spec fn unique_keys<A, K>(s: Seq<A>, kf: spec_fn(A) -> K) -> bool {
    forall|i: int, j: int|
        0 <= i < j < s.len() ==> kf(#[trigger] s[i]) != kf(#[trigger] s[j])
}

/// The element of `s` carrying key `k`; meaningful when `has_key` holds and
/// keys are unique.
pub open spec fn elem_at<A, K>(s: Seq<A>, kf: spec_fn(A) -> K, k: K) -> A {
    s[choose|i: int| 0 <= i < s.len() && kf(#[trigger] s[i]) == k]
}

/// An element found at a concrete index is the one `elem_at` names.
pub proof fn lemma_elem_at_index<A, K>(s: Seq<A>, kf: spec_fn(A) -> K, i: int)
    requires
        unique_keys(s, kf),
        0 <= i < s.len(),
    ensures
        has_key(s, kf, kf(s[i])),
        elem_at(s, kf, kf(s[i])) == s[i],
{
    assert(has_key(s, kf, kf(s[i])));
    let j = choose|j: int| 0 <= j < s.len() && kf(#[trigger] s[j]) == kf(s[i]);
    if j < i {
        assert(kf(s[j]) != kf(s[i]));
    } else if i < j {
        assert(kf(s[i]) != kf(s[j]));
    }
}

/// Filtering a key-unique sequence keeps keys unique, keeps exactly the
/// elements the predicate admits, and moves no element to another key.
pub proof fn lemma_filter_keyed<A, K>(s: Seq<A>, kf: spec_fn(A) -> K, p: spec_fn(A) -> bool)
    requires
        unique_keys(s, kf),
    ensures
        unique_keys(s.filter(p), kf),
        s.filter(p).len() <= s.len(),
        forall|k: K|
            #[trigger] has_key(s.filter(p), kf, k) ==> has_key(s, kf, k) && p(elem_at(s, kf, k))
                && elem_at(s.filter(p), kf, k) == elem_at(s, kf, k),
        forall|k: K|
            has_key(s, kf, k) && p(elem_at(s, kf, k)) ==> #[trigger] has_key(s.filter(p), kf, k),
    decreases s.len(),
{
    reveal(Seq::filter);
    let f = s.filter(p);
    if s.len() == 0 {
        assert(f == s);
    } else {
        let bl = s.drop_last();
        let last = s.last();
        assert forall|i: int, j: int| 0 <= i < j < bl.len() implies kf(#[trigger] bl[i]) != kf(
            #[trigger] bl[j],
        ) by {
            assert(bl[i] == s[i] && bl[j] == s[j]);
        }
        lemma_filter_keyed(bl, kf, p);
        let fbl = bl.filter(p);
        // The key of the last element occurs nowhere in the front part.
        assert forall|i: int| 0 <= i < bl.len() implies kf(#[trigger] bl[i]) != kf(last) by {
            assert(bl[i] == s[i] && last == s[s.len() - 1]);
        }
        if p(last) {
            assert(f == fbl.push(last));
            assert forall|i: int, j: int| 0 <= i < j < f.len() implies kf(#[trigger] f[i]) != kf(
                #[trigger] f[j],
            ) by {
                if j < f.len() - 1 {
                    assert(f[i] == fbl[i] && f[j] == fbl[j]);
                } else {
                    assert(f[j] == last);
                    assert(f[i] == fbl[i]);
                    assert(has_key(fbl, kf, kf(fbl[i])));
                    if kf(f[i]) == kf(last) {
                        let w = choose|w: int|
                            0 <= w < bl.len() && kf(#[trigger] bl[w]) == kf(fbl[i]);
                        assert(kf(bl[w]) != kf(last));
                    }
                }
            }
            assert forall|k: K| #[trigger] has_key(f, kf, k) implies has_key(s, kf, k) && p(
                elem_at(s, kf, k),
            ) && elem_at(f, kf, k) == elem_at(s, kf, k) by {
                let i = choose|i: int| 0 <= i < f.len() && kf(#[trigger] f[i]) == k;
                lemma_elem_at_index(f, kf, i);
                if i == f.len() - 1 {
                    assert(f[i] == last && last == s[s.len() - 1]);
                    lemma_elem_at_index(s, kf, s.len() - 1);
                } else {
                    assert(f[i] == fbl[i]);
                    assert(has_key(fbl, kf, k));
                    let w = choose|w: int| 0 <= w < bl.len() && kf(#[trigger] bl[w]) == k;
                    assert(bl[w] == s[w]);
                    lemma_elem_at_index(s, kf, w);
                    lemma_elem_at_index(bl, kf, w);
                }
            }
            assert forall|k: K| has_key(s, kf, k) && p(elem_at(s, kf, k)) implies #[trigger]
            has_key(f, kf, k) by {
                let i = choose|i: int| 0 <= i < s.len() && kf(#[trigger] s[i]) == k;
                lemma_elem_at_index(s, kf, i);
                if i == s.len() - 1 {
                    assert(kf(f[f.len() - 1]) == k);
                } else {
                    assert(bl[i] == s[i]);
                    lemma_elem_at_index(bl, kf, i);
                    assert(has_key(fbl, kf, k));
                    let w = choose|w: int| 0 <= w < fbl.len() && kf(#[trigger] fbl[w]) == k;
                    assert(kf(f[w]) == k);
                }
            }
        } else {
            assert(f == fbl);
            assert forall|k: K| #[trigger] has_key(f, kf, k) implies has_key(s, kf, k) && p(
                elem_at(s, kf, k),
            ) && elem_at(f, kf, k) == elem_at(s, kf, k) by {
                assert(has_key(fbl, kf, k));
                let w = choose|w: int| 0 <= w < bl.len() && kf(#[trigger] bl[w]) == k;
                assert(bl[w] == s[w]);
                lemma_elem_at_index(s, kf, w);
                lemma_elem_at_index(bl, kf, w);
            }
            assert forall|k: K| has_key(s, kf, k) && p(elem_at(s, kf, k)) implies #[trigger]
            has_key(f, kf, k) by {
                let i = choose|i: int| 0 <= i < s.len() && kf(#[trigger] s[i]) == k;
                lemma_elem_at_index(s, kf, i);
                if i == s.len() - 1 {
                    assert(elem_at(s, kf, k) == last);
                } else {
                    assert(bl[i] == s[i]);
                    lemma_elem_at_index(bl, kf, i);
                }
            }
        }
    }
}

/// The element `elem_at` names carries the key it was looked up by.
pub proof fn lemma_elem_at_key<A, K>(s: Seq<A>, kf: spec_fn(A) -> K, k: K)
    requires
        has_key(s, kf, k),
    ensures
        kf(elem_at(s, kf, k)) == k,
{
    let i = choose|i: int| 0 <= i < s.len() && kf(#[trigger] s[i]) == k;
    assert(kf(s[i]) == k);
}

/// A filter that rejects exactly the element at one index removes just it.
pub proof fn lemma_filter_remove_at<A>(s: Seq<A>, p: spec_fn(A) -> bool, i: int)
    requires
        0 <= i < s.len(),
        !p(s[i]),
        forall|j: int| 0 <= j < s.len() && j != i ==> p(#[trigger] s[j]),
    ensures
        s.filter(p) == s.remove(i),
{
    let a = s.subrange(0, i);
    let b = seq![s[i]];
    let c = s.subrange(i + 1, s.len() as int);
    assert(s =~= (a + b) + c);
    Seq::filter_distributes_over_add(a + b, c, p);
    Seq::filter_distributes_over_add(a, b, p);
    assert forall|j: int| 0 <= j < a.len() implies p(#[trigger] a[j]) by {
        assert(a[j] == s[j]);
    }
    assert forall|j: int| 0 <= j < c.len() implies p(#[trigger] c[j]) by {
        assert(c[j] == s[j + i + 1]);
    }
    lemma_filter_all_keep(a, p);
    lemma_filter_all_keep(c, p);
    reveal(Seq::filter);
    assert(b.len() == 1);
    assert(b.last() == s[i]);
    assert(b.drop_last().len() == 0);
    assert(b.drop_last().filter(p) == b.drop_last());
    assert(b.filter(p) == b.drop_last().filter(p));
    assert(b.filter(p) =~= Seq::<A>::empty());
    assert(s.filter(p) =~= a + c);
    assert(s.remove(i) =~= a + c);
}

/// Every element of a filtered sequence is an element of the original.
pub proof fn lemma_filter_subset<A>(s: Seq<A>, p: spec_fn(A) -> bool)
    ensures
        forall|i: int| 0 <= i < s.filter(p).len() ==> s.contains(#[trigger] s.filter(p)[i]),
    decreases s.len(),
{
    reveal(Seq::filter);
    if s.len() == 0 {
    } else {
        let bl = s.drop_last();
        lemma_filter_subset(bl, p);
        let f = s.filter(p);
        let fbl = bl.filter(p);
        assert forall|i: int| 0 <= i < f.len() implies s.contains(#[trigger] f[i]) by {
            if p(s.last()) && i == f.len() - 1 {
                assert(s[s.len() - 1] == f[i]);
            } else {
                assert(f[i] == fbl[i]);
                assert(bl.contains(fbl[i]));
                let w = choose|w: int| 0 <= w < bl.len() && bl[w] == fbl[i];
                assert(s[w] == f[i]);
            }
        }
    }
}

/// A filter whose predicate admits every element changes nothing.
pub proof fn lemma_filter_all_keep<A>(s: Seq<A>, p: spec_fn(A) -> bool)
    requires
        forall|i: int| 0 <= i < s.len() ==> p(#[trigger] s[i]),
    ensures
        s.filter(p) == s,
    decreases s.len(),
{
    reveal(Seq::filter);
    if s.len() == 0 {
    } else {
        let bl = s.drop_last();
        assert forall|i: int| 0 <= i < bl.len() implies p(#[trigger] bl[i]) by {
            assert(bl[i] == s[i]);
        }
        lemma_filter_all_keep(bl, p);
        assert(p(s.last()));
        assert(bl.push(s.last()) =~= s);
    }
}

/// Two filters in a row equal one filter by the conjunction.
pub proof fn lemma_filter_filter<A>(s: Seq<A>, p: spec_fn(A) -> bool, q: spec_fn(A) -> bool)
    ensures
        s.filter(p).filter(q) == s.filter(pred_and(p, q)),
    decreases s.len(),
{
    reveal(Seq::filter);
    if s.len() == 0 {
    } else {
        let bl = s.drop_last();
        let last = s.last();
        lemma_filter_filter(bl, p, q);
        if p(last) {
            assert(s.filter(p) == bl.filter(p).push(last));
            assert(s.filter(p).drop_last() =~= bl.filter(p));
            assert(s.filter(p).last() == last);
        } else {
            assert(s.filter(p) == bl.filter(p));
            assert(!(pred_and(p, q)(last)));
        }
    }
}

/// Predicates that agree on every element of `s` filter `s` alike.
pub proof fn lemma_filter_agree<A>(s: Seq<A>, p: spec_fn(A) -> bool, q: spec_fn(A) -> bool)
    requires
        forall|i: int| 0 <= i < s.len() ==> p(#[trigger] s[i]) == q(s[i]),
    ensures
        s.filter(p) == s.filter(q),
    decreases s.len(),
{
    reveal(Seq::filter);
    if s.len() == 0 {
    } else {
        let bl = s.drop_last();
        assert forall|i: int| 0 <= i < bl.len() implies p(#[trigger] bl[i]) == q(bl[i]) by {
            assert(bl[i] == s[i]);
        }
        lemma_filter_agree(bl, p, q);
        assert(p(s.last()) == q(s.last()));
    }
}

/// How the filter of a prefix grows when the prefix takes in one more element.
pub proof fn lemma_filter_take_step<A>(s: Seq<A>, p: spec_fn(A) -> bool, i: int)
    requires
        0 <= i < s.len(),
    ensures
        s.take(i + 1).filter(p) == (if p(s[i]) {
            s.take(i).filter(p).push(s[i])
        } else {
            s.take(i).filter(p)
        }),
{
    reveal(Seq::filter);
    assert(s.take(i + 1).drop_last() =~= s.take(i));
    assert(s.take(i + 1).last() == s[i]);
    assert(s.take(i + 1).len() == i + 1);
}

/// The whole sequence is its own full prefix.
pub proof fn lemma_take_full<A>(s: Seq<A>)
    ensures
        s.take(s.len() as int) == s,
{
    assert(s.take(s.len() as int) =~= s);
}

} // verus!
