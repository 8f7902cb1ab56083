//! Counting in sequences, and what does not depend on a sequence's order.

use vstd::prelude::*;

verus! {

/// How often `k` occurs in `s`.
pub open spec fn mass(s: Seq<usize>, k: nat) -> nat
    decreases s.len(),
{
    if s.len() == 0 {
        0
    } else {
        mass(s.drop_last(), k) + if s.last() == k {
            1nat
        } else {
            0
        }
    }
}

/// How many entries of `s` are below `k`.
pub open spec fn below(s: Seq<usize>, k: nat) -> nat
    decreases s.len(),
{
    if s.len() == 0 {
        0
    } else {
        below(s.drop_last(), k) + if s.last() < k {
            1nat
        } else {
            0
        }
    }
}

/// The largest of the numbers, zero if there are none.
pub open spec fn highest(s: Seq<usize>) -> nat
    decreases s.len(),
{
    if s.len() == 0 {
        0
    } else if s.last() > highest(s.drop_last()) {
        s.last() as nat
    } else {
        highest(s.drop_last())
    }
}

/// How many numbers there are up to the largest, none if there is no largest.
pub open spec fn span(s: Seq<usize>) -> nat {
    if s.len() == 0 {
        0
    } else {
        1 + highest(s)
    }
}

/// Whether `s` and `t` hold the same items, each as often, in whatever order.
pub open spec fn permuted<A>(s: Seq<A>, t: Seq<A>) -> bool {
    s.to_multiset() == t.to_multiset()
}

/// `s` with the items at `i` and `j` exchanged.
pub open spec fn swapped<A>(s: Seq<A>, i: int, j: int) -> Seq<A> {
    s.update(i, s[j]).update(j, s[i])
}

pub proof fn lemma_below_next(s: Seq<usize>, k: nat)
    ensures
        below(s, k + 1) == below(s, k) + mass(s, k),
    decreases s.len(),
{
    if s.len() > 0 {
        lemma_below_next(s.drop_last(), k);
    }
}

pub proof fn lemma_below_monotone(s: Seq<usize>, a: nat, b: nat)
    requires
        a <= b,
    ensures
        below(s, a) <= below(s, b),
    decreases s.len(),
{
    if s.len() > 0 {
        lemma_below_monotone(s.drop_last(), a, b);
    }
}

pub proof fn lemma_below_bounds(s: Seq<usize>, k: nat)
    ensures
        below(s, k) <= s.len(),
        mass(s, k) <= s.len(),
        below(s, 0) == 0,
        below(s, k) + mass(s, k) <= s.len(),
    decreases s.len(),
{
    if s.len() > 0 {
        lemma_below_bounds(s.drop_last(), k);
    }
}

pub proof fn lemma_below_all(s: Seq<usize>, k: nat)
    requires
        forall|i: int| 0 <= i < s.len() ==> s[i] < k,
    ensures
        below(s, k) == s.len(),
    decreases s.len(),
{
    if s.len() > 0 {
        lemma_below_all(s.drop_last(), k);
    }
}

pub proof fn lemma_mass_positive(s: Seq<usize>, i: int)
    requires
        0 <= i < s.len(),
    ensures
        mass(s, s[i] as nat) > 0,
    decreases s.len(),
{
    if i < s.len() - 1 {
        lemma_mass_positive(s.drop_last(), i);
    }
}

/// What occurs at all stands somewhere.
pub proof fn lemma_mass_witness(s: Seq<usize>, k: nat) -> (i: int)
    requires
        mass(s, k) > 0,
    ensures
        0 <= i < s.len(),
        s[i] == k,
    decreases s.len(),
{
    if s.last() == k {
        s.len() - 1
    } else {
        lemma_mass_witness(s.drop_last(), k)
    }
}

proof fn lemma_counts_remove(s: Seq<usize>, i: int, k: nat)
    requires
        0 <= i < s.len(),
    ensures
        mass(s, k) == mass(s.remove(i), k) + if s[i] == k {
            1nat
        } else {
            0
        },
        below(s, k) == below(s.remove(i), k) + if s[i] < k {
            1nat
        } else {
            0
        },
    decreases s.len(),
{
    if i < s.len() - 1 {
        lemma_counts_remove(s.drop_last(), i, k);
        assert(s.remove(i).drop_last() =~= s.drop_last().remove(i));
    } else {
        assert(s.remove(i) =~= s.drop_last());
    }
}

/// For a last item of `s` a place in `t` with the same item, where the rest is permuted too.
pub proof fn lemma_permuted_last<A>(s: Seq<A>, t: Seq<A>) -> (i: int)
    requires
        permuted(s, t),
        s.len() > 0,
    ensures
        0 <= i < t.len(),
        t[i] == s.last(),
        permuted(s.drop_last(), t.remove(i)),
        t.len() == s.len(),
{
    s.to_multiset_ensures();
    t.to_multiset_ensures();
    assert(s.to_multiset().count(s.last()) > 0) by {
        assert(s.contains(s.last()));
    }
    assert(t.contains(s.last()));
    let i = choose|i: int| 0 <= i < t.len() && t[i] == s.last();
    assert(s.remove(s.len() - 1) =~= s.drop_last());
    i
}

/// Counts do not depend on the order.
pub proof fn lemma_counts_permuted(s: Seq<usize>, t: Seq<usize>, k: nat)
    requires
        permuted(s, t),
    ensures
        s.len() == t.len(),
        mass(s, k) == mass(t, k),
        below(s, k) == below(t, k),
    decreases s.len(),
{
    s.to_multiset_ensures();
    t.to_multiset_ensures();
    if s.len() > 0 {
        let i = lemma_permuted_last(s, t);
        lemma_counts_permuted(s.drop_last(), t.remove(i), k);
        lemma_counts_remove(t, i, k);
    }
}

/// Mapping keeps permuted sequences permuted.
pub proof fn lemma_map_permuted<A, B>(s: Seq<A>, t: Seq<A>, f: spec_fn(A) -> B)
    requires
        permuted(s, t),
    ensures
        permuted(s.map_values(f), t.map_values(f)),
    decreases s.len(),
{
    s.to_multiset_ensures();
    t.to_multiset_ensures();
    let fs = s.map_values(f);
    let ft = t.map_values(f);
    if s.len() > 0 {
        let i = lemma_permuted_last(s, t);
        lemma_map_permuted(s.drop_last(), t.remove(i), f);
        assert(s.drop_last().map_values(f) =~= fs.drop_last());
        assert(t.remove(i).map_values(f) =~= ft.remove(i));
        fs.to_multiset_ensures();
        ft.to_multiset_ensures();
        assert(fs.remove(fs.len() - 1) =~= fs.drop_last());
        assert(fs.to_multiset() =~= fs.drop_last().to_multiset().insert(fs.last())) by {
            assert(fs.drop_last().push(fs.last()) =~= fs);
            fs.drop_last().to_multiset_ensures();
        }
        assert(ft.to_multiset() =~= ft.remove(i).to_multiset().insert(ft[i])) by {
            assert(ft.to_multiset().count(ft[i]) > 0) by {
                assert(ft.contains(ft[i]));
            }
        }
    } else {
        assert(fs =~= Seq::<B>::empty());
        assert(ft =~= Seq::<B>::empty());
    }
}

/// Permuted sequences have the same members.
pub proof fn lemma_permuted_members<A>(s: Seq<A>, t: Seq<A>)
    requires
        permuted(s, t),
    ensures
        s.len() == t.len(),
        s.to_set() == t.to_set(),
        forall|x: A| s.contains(x) <==> t.contains(x),
{
    s.to_multiset_ensures();
    t.to_multiset_ensures();
    assert forall|x: A| s.contains(x) <==> t.contains(x) by {
        assert(s.contains(x) <==> s.to_multiset().count(x) > 0);
    }
    assert(s.to_set() =~= t.to_set());
}

/// Exchanging two items permutes the sequence.
pub proof fn lemma_swapped_permuted<A>(s: Seq<A>, i: int, j: int)
    requires
        0 <= i < s.len(),
        0 <= j < s.len(),
    ensures
        permuted(s, swapped(s, i, j)),
{
    broadcast use vstd::seq_lib::group_to_multiset_ensures;

    let u = s.update(i, s[j]);
    s.to_multiset_ensures();
    u.to_multiset_ensures();
    vstd::seq_lib::to_multiset_update(s, i, s[j]);
    vstd::seq_lib::to_multiset_update(u, j, s[i]);
    assert(s.to_multiset().count(s[i]) > 0) by {
        assert(s.contains(s[i]));
    }
    assert(s.contains(s[j]));
    assert(s.to_multiset() =~= swapped(s, i, j).to_multiset());
}

/// No number is larger than the largest, which is one of them.
pub proof fn lemma_highest(s: Seq<usize>)
    ensures
        forall|i: int| 0 <= i < s.len() ==> s[i] <= highest(s),
        s.len() > 0 ==> exists|i: int| 0 <= i < s.len() && #[trigger] s[i] == highest(s),
    decreases s.len(),
{
    if s.len() > 0 {
        let shorter = s.drop_last();
        lemma_highest(shorter);
        assert forall|i: int| 0 <= i < s.len() implies s[i] <= highest(s) by {
            if i < shorter.len() {
                assert(shorter[i] <= highest(shorter));
            }
        }
        if s.last() > highest(shorter) || shorter.len() == 0 {
            assert(s[s.len() - 1] == highest(s));
        } else {
            let i = choose|i: int| 0 <= i < shorter.len() && #[trigger] shorter[i] == highest(shorter);
            assert(s[i] == highest(s));
        }
    }
}

/// The span is the number that is above all items and next to one of them.
pub proof fn lemma_span(s: Seq<usize>, i: int, k: nat)
    requires
        0 <= i < s.len(),
        s[i] + 1 == k,
        forall|j: int| 0 <= j < s.len() ==> s[j] < k,
    ensures
        span(s) == k,
{
    lemma_highest(s);
}

/// The span does not depend on the order.
pub proof fn lemma_span_permuted(s: Seq<usize>, t: Seq<usize>)
    requires
        permuted(s, t),
    ensures
        span(s) == span(t),
{
    lemma_permuted_members(s, t);
    lemma_highest(s);
    lemma_highest(t);
    if s.len() > 0 {
        let i = choose|i: int| 0 <= i < s.len() && #[trigger] s[i] == highest(s);
        let j = choose|j: int| 0 <= j < t.len() && #[trigger] t[j] == highest(t);
        assert(s.contains(s[i]) && t.contains(t[j]));
    }
}

/// One more item counts if it is one of those that are counted.
pub proof fn lemma_filter_last<A>(s: Seq<A>, p: spec_fn(A) -> bool)
    requires
        s.len() > 0,
    ensures
        s.filter(p).len() == s.drop_last().filter(p).len() + if p(s.last()) {
            1nat
        } else {
            0
        },
{
    reveal(Seq::filter);
}

/// Counting the same places of two sequences gives the same number.
pub proof fn lemma_filter_same<A, B>(
    s: Seq<A>,
    t: Seq<B>,
    p: spec_fn(A) -> bool,
    q: spec_fn(B) -> bool,
)
    requires
        s.len() == t.len(),
        forall|i: int| 0 <= i < s.len() ==> p(#[trigger] s[i]) == q(t[i]),
    ensures
        s.filter(p).len() == t.filter(q).len(),
    decreases s.len(),
{
    reveal(Seq::filter);
    if s.len() > 0 {
        let a = s.drop_last();
        let b = t.drop_last();
        assert forall|i: int| 0 <= i < a.len() implies p(#[trigger] a[i]) == q(b[i]) by {
            assert(a[i] == s[i] && b[i] == t[i]);
        }
        lemma_filter_same(a, b, p, q);
        lemma_filter_last(s, p);
        lemma_filter_last(t, q);
        assert(p(s[s.len() - 1]) == q(t[s.len() - 1]));
    }
}

/// The mass of `k` is the number of items that are `k`.
pub proof fn mass_counts(s: Seq<usize>, k: nat)
    ensures
        mass(s, k) == s.filter(|x: usize| x == k).len(),
    decreases s.len(),
{
    let p = |x: usize| x == k;
    if s.len() > 0 {
        mass_counts(s.drop_last(), k);
        lemma_filter_last(s, p);
    } else {
        reveal(Seq::filter);
    }
}

/// What is below `k` is counted by the items that are smaller.
pub proof fn below_counts(s: Seq<usize>, k: nat)
    ensures
        below(s, k) == s.filter(|x: usize| x < k).len(),
    decreases s.len(),
{
    let p = |x: usize| x < k;
    if s.len() > 0 {
        below_counts(s.drop_last(), k);
        lemma_filter_last(s, p);
    } else {
        reveal(Seq::filter);
    }
}

/// Permuted sequences are as long as each other and hold every item equally often.
pub proof fn permuted_counts<A>(s: Seq<A>, t: Seq<A>)
    requires
        permuted(s, t),
    ensures
        s.len() == t.len(),
        forall|x: A| s.to_multiset().count(x) == t.to_multiset().count(x),
{
    lemma_permuted_members(s, t);
}

/// Exchanging two items moves each to the place of the other and leaves the rest where it is.
pub proof fn swapped_places<A>(s: Seq<A>, i: int, j: int, k: int)
    requires
        0 <= i < s.len(),
        0 <= j < s.len(),
        0 <= k < s.len(),
    ensures
        swapped(s, i, j).len() == s.len(),
        swapped(s, i, j)[i] == s[j],
        swapped(s, i, j)[j] == s[i],
        k != i && k != j ==> swapped(s, i, j)[k] == s[k],
{
}

} // verus!
