//! Codec for the orbit of an element, where every element of a list is equally likely.

use crate::codec::Codec;
use crate::counting;
use crate::message::Message;
use vstd::arithmetic::div_mod::{lemma_div_pos_is_pos, lemma_mod_bound};
use vstd::prelude::*;

verus! {

/// How many distinct ids are below `v`.
pub open spec fn rank_of(ids: Seq<u64>, v: u64) -> nat {
    ids.to_set().filter(|x: u64| x < v).len()
}

/// The ids of the elements, numbered in increasing order: equal ids have the same number, and no
/// number is left out.
pub open spec fn ranks_of(ids: Seq<u64>) -> Seq<usize> {
    ids.map_values(|v: u64| rank_of(ids, v) as usize)
}

/// The orbit whose interval holds `s`, where orbit `k` has as many numbers as elements.
pub open spec fn slot(ranks: Seq<usize>, s: nat) -> usize {
    choose|k: usize|
        counting::below(ranks, k as nat) <= s < #[trigger] counting::below(ranks, k as nat)
            + counting::mass(ranks, k as nat)
}

/// The message after the orbit `k` was pushed onto `m`.
pub open spec fn orbit_pushed(ranks: Seq<usize>, m: nat, k: usize) -> nat {
    crate::codec::interval_pushed(
        m,
        ranks.len(),
        counting::below(ranks, k as nat),
        counting::mass(ranks, k as nat),
    )
}

/// The message after an orbit was popped off `m`, and the orbit.
pub open spec fn orbit_popped(ranks: Seq<usize>, m: nat) -> (nat, usize) {
    let k = slot(ranks, m % ranks.len());
    (
        crate::codec::interval_popped(
            m,
            ranks.len(),
            counting::below(ranks, k as nat),
            counting::mass(ranks, k as nat),
        ),
        k,
    )
}

/// The first position of orbit `k`.
pub open spec fn first_of(ranks: Seq<usize>, k: usize) -> int {
    choose|i: int|
        0 <= i < ranks.len() && #[trigger] ranks[i] == k && forall|j: int|
            0 <= j < i ==> ranks[j] != k
}

/// Intervals do not overlap.
proof fn lemma_slot_unique(ranks: Seq<usize>, s: nat, k: usize)
    requires
        counting::below(ranks, k as nat) <= s < counting::below(ranks, k as nat) + counting::mass(
            ranks,
            k as nat,
        ),
    ensures
        slot(ranks, s) == k,
{
    let c = slot(ranks, s);
    counting::lemma_below_next(ranks, c as nat);
    counting::lemma_below_next(ranks, k as nat);
    if c < k {
        counting::lemma_below_monotone(ranks, c as nat + 1, k as nat);
    } else if k < c {
        counting::lemma_below_monotone(ranks, k as nat + 1, c as nat);
    }
}

/// Every number is in an interval.
pub proof fn slot_exists(ranks: Seq<usize>, s: nat)
    requires
        s < ranks.len(),
    ensures
        counting::below(ranks, slot(ranks, s) as nat) <= s,
        s < counting::below(ranks, slot(ranks, s) as nat) + counting::mass(
            ranks,
            slot(ranks, s) as nat,
        ),
{
    let k = lemma_slot_search(ranks, s, usize::MAX as nat + 1);
    lemma_slot_unique(ranks, s, k);
}

proof fn lemma_slot_search(ranks: Seq<usize>, s: nat, top: nat) -> (k: usize)
    requires
        top <= usize::MAX + 1,
        s < ranks.len(),
        top == usize::MAX + 1 || s < counting::below(ranks, top),
    ensures
        counting::below(ranks, k as nat) <= s < counting::below(ranks, k as nat) + counting::mass(
            ranks,
            k as nat,
        ),
    decreases top,
{
    if top == usize::MAX + 1 {
        counting::lemma_below_all(ranks, top);
    }
    counting::lemma_below_bounds(ranks, 0);
    let k = (top - 1) as nat;
    counting::lemma_below_next(ranks, k);
    if counting::below(ranks, k) <= s {
        k as usize
    } else {
        lemma_slot_search(ranks, s, k)
    }
}

/// A smaller id has a smaller number.
proof fn lemma_rank_increases(ids: Seq<u64>, a: u64, b: u64)
    requires
        ids.contains(a),
        a < b,
    ensures
        rank_of(ids, a) < rank_of(ids, b),
{
    let all = ids.to_set();
    vstd::seq_lib::seq_to_set_is_finite(ids);
    assert(all.contains(a));
    let below_a = all.filter(|x: u64| x < a);
    let below_b = all.filter(|x: u64| x < b);
    all.lemma_len_filter(|x: u64| x < a);
    all.lemma_len_filter(|x: u64| x < b);
    assert(below_a.insert(a).subset_of(below_b));
    vstd::set_lib::lemma_len_subset(below_a.insert(a), below_b);
}

/// Elements have the same number if and only if they have the same id, and the numbers are in the
/// order of the ids.
pub proof fn ranks_tell_ids_apart(ids: Seq<u64>, i: int, j: int)
    requires
        ids.len() <= usize::MAX,
        0 <= i < ids.len(),
        0 <= j < ids.len(),
    ensures
        ranks_of(ids)[i] == ranks_of(ids)[j] <==> ids[i] == ids[j],
        ranks_of(ids)[i] < ranks_of(ids)[j] <==> ids[i] < ids[j],
{
    lemma_rank_fits(ids, ids[i]);
    lemma_rank_fits(ids, ids[j]);
    assert(ids.contains(ids[i]) && ids.contains(ids[j]));
    if ids[i] < ids[j] {
        lemma_rank_increases(ids, ids[i], ids[j]);
    } else if ids[j] < ids[i] {
        lemma_rank_increases(ids, ids[j], ids[i]);
    }
}

/// An orbit comes off the messages of one interval of remainders, which holds as many as the orbit
/// has elements: every element is equally likely.
pub proof fn orbit_share(ranks: Seq<usize>, m: nat, k: usize)
    requires
        ranks.len() > 0,
    ensures
        orbit_popped(ranks, m).1 == k <==> counting::below(ranks, k as nat) <= m % ranks.len()
            < counting::below(ranks, k as nat) + counting::mass(ranks, k as nat),
{
    let s = m % ranks.len();
    lemma_mod_bound(m as int, ranks.len() as int);
    slot_exists(ranks, s);
    if counting::below(ranks, k as nat) <= s < counting::below(ranks, k as nat) + counting::mass(
        ranks,
        k as nat,
    ) {
        lemma_slot_unique(ranks, s, k);
    }
}

/// The order of the elements does not matter to what a push does.
pub proof fn orbit_pushed_permuted(a: Seq<usize>, b: Seq<usize>, m: nat, k: usize)
    requires
        counting::permuted(a, b),
    ensures
        orbit_pushed(a, m, k) == orbit_pushed(b, m, k),
{
    counting::lemma_counts_permuted(a, b, k as nat);
}

/// The order of the ids does not matter to their numbering.
pub proof fn ranks_permuted(a: Seq<u64>, b: Seq<u64>)
    requires
        counting::permuted(a, b),
    ensures
        counting::permuted(ranks_of(a), ranks_of(b)),
        forall|v: u64| rank_of(a, v) == rank_of(b, v),
{
    counting::lemma_permuted_members(a, b);
    counting::lemma_map_permuted(a, b, |v: u64| rank_of(a, v) as usize);
    assert(ranks_of(b) =~= b.map_values(|v: u64| rank_of(a, v) as usize));
}

/// An orbit that was pushed is popped again, and the message is what it was.
pub proof fn orbit_push_then_pop(ranks: Seq<usize>, m: nat, k: usize)
    requires
        counting::mass(ranks, k as nat) > 0,
    ensures
        orbit_popped(ranks, orbit_pushed(ranks, m, k)) == (m, k),
{
    counting::lemma_below_bounds(ranks, k as nat);
    crate::codec::interval_push_then_pop(
        m,
        ranks.len(),
        counting::below(ranks, k as nat),
        counting::mass(ranks, k as nat),
    );
    lemma_slot_unique(ranks, orbit_pushed(ranks, m, k) % ranks.len(), k);
}

/// Pushing the orbit that was popped restores the message; this is what gives the bits back.
pub proof fn orbit_pop_then_push(ranks: Seq<usize>, m: nat)
    requires
        ranks.len() > 0,
    ensures
        counting::mass(ranks, orbit_popped(ranks, m).1 as nat) > 0,
        orbit_pushed(ranks, orbit_popped(ranks, m).0, orbit_popped(ranks, m).1) == m,
{
    let s = m % ranks.len();
    lemma_mod_bound(m as int, ranks.len() as int);
    slot_exists(ranks, s);
    let k = slot(ranks, s);
    counting::lemma_below_bounds(ranks, k as nat);
    crate::codec::interval_pop_then_push(
        m,
        ranks.len(),
        counting::below(ranks, k as nat),
        counting::mass(ranks, k as nat),
    );
}

/// The first position of an orbit that occurs is one of its positions.
pub proof fn first_of_exists(ranks: Seq<usize>, k: usize)
    requires
        counting::mass(ranks, k as nat) > 0,
    ensures
        0 <= first_of(ranks, k) < ranks.len(),
        ranks[first_of(ranks, k)] == k,
        forall|j: int| 0 <= j < first_of(ranks, k) ==> ranks[j] != k,
{
    let i = counting::lemma_mass_witness(ranks, k as nat);
    let f = lemma_first_from(ranks, k, i);
    assert(ranks[f] == k);
}

proof fn lemma_first_from(ranks: Seq<usize>, k: usize, i: int) -> (f: int)
    requires
        0 <= i < ranks.len(),
        ranks[i] == k,
    ensures
        0 <= f <= i,
        ranks[f] == k,
        forall|j: int| 0 <= j < f ==> ranks[j] != k,
    decreases i,
{
    if exists|j: int| 0 <= j < i && ranks[j] == k {
        let j = choose|j: int| 0 <= j < i && ranks[j] == k;
        lemma_first_from(ranks, k, j)
    } else {
        i
    }
}

/// Whether `values` are the distinct members of `ids` in increasing order.
spec fn lists_values(values: Seq<u64>, ids: Seq<u64>) -> bool {
    &&& forall|i: int, j: int| 0 <= i < j < values.len() ==> values[i] < values[j]
    &&& values.to_set() == ids.to_set()
}

/// The rank of a value is its place among the distinct values.
proof fn lemma_rank_is_place(values: Seq<u64>, ids: Seq<u64>, i: int)
    requires
        lists_values(values, ids),
        0 <= i < values.len(),
    ensures
        rank_of(ids, values[i]) == i,
{
    let lower = values.take(i);
    assert(lower.no_duplicates());
    lower.unique_seq_to_set();
    assert(lower.to_set() =~= ids.to_set().filter(|x: u64| x < values[i])) by {
        assert forall|x: u64| lower.to_set().contains(x) <==> ids.to_set().filter(
            |x: u64| x < values[i],
        ).contains(x) by {
            assert(ids.to_set().contains(x) <==> values.contains(x));
            if lower.contains(x) {
                let j = choose|j: int| 0 <= j < lower.len() && lower[j] == x;
                assert(values[j] == x);
            }
            if values.contains(x) && x < values[i] {
                let j = choose|j: int| 0 <= j < values.len() && values[j] == x;
                assert(lower[j] == x);
            }
        }
    }
}

/// The orbits are numbered up to the number of distinct values.
proof fn lemma_values_span(values: Seq<u64>, ids: Seq<u64>)
    requires
        lists_values(values, ids),
        ids.len() <= usize::MAX,
    ensures
        counting::span(ranks_of(ids)) == values.len(),
{
    let ranks = ranks_of(ids);
    if ids.len() == 0 {
        if values.len() > 0 {
            assert(values.to_set().contains(values[0]));
            assert(ids.contains(values[0]));
        }
    } else {
        assert forall|i: int| 0 <= i < ids.len() implies exists|j: int|
            0 <= j < values.len() && values[j] == ids[i] && #[trigger] ranks[i] == j by {
            assert(ids.to_set().contains(ids[i]));
            assert(values.contains(ids[i]));
            let j = choose|j: int| 0 <= j < values.len() && values[j] == ids[i];
            lemma_rank_is_place(values, ids, j);
            lemma_rank_fits(ids, ids[i]);
        }
        assert(ranks[0] < values.len());
        let last = values.len() - 1;
        assert(values.to_set().contains(values[last]));
        assert(ids.contains(values[last]));
        let i = choose|i: int| 0 <= i < ids.len() && ids[i] == values[last];
        lemma_rank_is_place(values, ids, last);
        lemma_rank_fits(ids, ids[i]);
        counting::lemma_span(ranks, i, values.len());
    }
}

/// A rank is a number that fits.
proof fn lemma_rank_fits(ids: Seq<u64>, v: u64)
    ensures
        rank_of(ids, v) <= ids.len(),
{
    vstd::seq_lib::seq_to_set_is_finite(ids);
    ids.lemma_cardinality_of_set();
    ids.to_set().lemma_len_filter(|x: u64| x < v);
}

/// Where `v` stands in `values`, or would have to be put.
fn place_of(values: &Vec<u64>, v: u64) -> (p: usize)
    requires
        forall|i: int, j: int| 0 <= i < j < values.len() ==> values[i] < values[j],
    ensures
        p <= values.len(),
        forall|i: int| 0 <= i < p ==> values[i] < v,
        forall|i: int| p <= i < values.len() ==> v <= values[i],
{
    let mut lo: usize = 0;
    let mut hi: usize = values.len();
    while lo < hi
        invariant
            lo <= hi <= values.len(),
            forall|i: int, j: int| 0 <= i < j < values.len() ==> values[i] < values[j],
            forall|i: int| 0 <= i < lo ==> values[i] < v,
            forall|i: int| hi <= i < values.len() ==> v <= values[i],
        decreases hi - lo,
    {
        let mid: usize = lo + (hi - lo) / 2;
        if values[mid] < v {
            lo = mid + 1;
        } else {
            hi = mid;
        }
    }
    lo
}

/// The distinct members of `ids` in increasing order.
fn distinct_values(ids: &Vec<u64>) -> (values: Vec<u64>)
    ensures
        lists_values(values@, ids@),
        values.len() <= ids.len(),
{
    let mut values: Vec<u64> = Vec::new();
    let mut i: usize = 0;
    assert(ids@.take(0).to_set() =~= values@.to_set());
    while i < ids.len()
        invariant
            i <= ids.len(),
            lists_values(values@, ids@.take(i as int)),
            values.len() <= i,
        decreases ids.len() - i,
    {
        let v = ids[i];
        let p = place_of(&values, v);
        let ghost before = values@;
        let ghost seen = ids@.take(i as int);
        assert(ids@.take(i + 1) =~= seen.push(v));
        assert(seen.push(v).to_set() =~= seen.to_set().insert(v)) by {
            seen.lemma_push_to_set_commute(v);
        }
        if p < values.len() && values[p] == v {
            assert(before.to_set().contains(v)) by {
                assert(before[p as int] == v);
            }
            assert(before.to_set() =~= seen.to_set().insert(v));
        } else {
            values.insert(p, v);
            proof {
                assert(values@ =~= before.insert(p as int, v));
                before.insert_ensures(p as int, v);
                assert(values@.to_set() =~= before.to_set().insert(v)) by {
                    assert forall|x: u64| values@.contains(x) <==> (before.contains(x) || x == v) by {
                        if before.contains(x) {
                            let j = choose|j: int| 0 <= j < before.len() && before[j] == x;
                            if j < p {
                                assert(values@[j] == x);
                            } else {
                                assert(values@[j + 1] == x);
                            }
                        }
                        assert(values@[p as int] == v);
                        if values@.contains(x) {
                            let j = choose|j: int| 0 <= j < values@.len() && values@[j] == x;
                            if j < p {
                                assert(before[j] == x);
                            } else if j > p {
                                assert(before[j - 1] == x);
                            }
                        }
                    }
                }
            }
        }
        i = i + 1;
    }
    assert(ids@.take(i as int) =~= ids@);
    values
}

/// Codec for the orbit of one of the first elements of a list, each of them equally likely, so
/// that an orbit is as likely as it has elements.
#[derive(Debug, Eq)]
pub struct FixPrefixOrbitCodec {
    ids: Vec<usize>,
    len: usize,
    masses: Vec<usize>,
}

impl FixPrefixOrbitCodec {
    /// Whether the masses are those of the orbits: one for each orbit up to the last, and no more.
    pub closed spec fn wf(&self) -> bool {
        &&& self.len <= self.ids.len()
        &&& self.masses.len() == counting::span(self.ids@)
        &&& forall|i: int| 0 <= i < self.ids.len() ==> self.ids[i] < self.masses.len()
        &&& forall|k: int|
            0 <= k < self.masses.len() ==> self.masses[k] == counting::mass(self.ranks(), k as nat)
    }

    /// The orbits of the elements that count.
    pub closed spec fn ranks(&self) -> Seq<usize> {
        self.ids@.take(self.len as int)
    }

    /// The orbits of all the elements.
    pub closed spec fn all_ranks(&self) -> Seq<usize> {
        self.ids@
    }

    /// How many elements count.
    pub closed spec fn count(&self) -> usize {
        self.len
    }

    /// How many of the elements that count belong to each orbit.
    pub closed spec fn masses(&self) -> Seq<usize> {
        self.masses@
    }

    /// The codec for elements with the given ids, of which the first `len` count.
    pub fn new(ids: Vec<u64>, len: usize) -> (c: Self)
        requires
            len <= ids.len(),
        ensures
            c.wf(),
            c.all_ranks() == ranks_of(ids@),
            c.ranks() == ranks_of(ids@).take(len as int),
            c.masses() == Seq::new(
                counting::span(c.all_ranks()),
                |k: int| counting::mass(c.ranks(), k as nat) as usize,
            ),
    {
        let values = distinct_values(&ids);
        let mut ranks: Vec<usize> = Vec::with_capacity(ids.len());
        let mut i: usize = 0;
        while i < ids.len()
            invariant
                i <= ids.len(),
                lists_values(values@, ids@),
                ranks@ == ranks_of(ids@).take(i as int),
                forall|j: int| 0 <= j < ranks.len() ==> ranks[j] < values.len(),
            decreases ids.len() - i,
        {
            let p = place_of(&values, ids[i]);
            proof {
                let v = ids@[i as int];
                assert(ids@.to_set().contains(v));
                assert(values@.contains(v));
                let j = choose|j: int| 0 <= j < values@.len() && values@[j] == v;
                assert(j == p) by {
                    if j > p {
                        assert(values@[p as int] < values@[j]);
                    }
                }
                lemma_rank_is_place(values@, ids@, j);
            }
            ranks.push(p);
            assert(ranks@ =~= ranks_of(ids@).take(i + 1));
            i = i + 1;
        }
        assert(ranks@ =~= ranks_of(ids@));
        let mut masses: Vec<usize> = vec![0; values.len()];
        let mut n: usize = 0;
        while n < len
            invariant
                n <= len <= ranks.len(),
                masses.len() == values.len(),
                forall|j: int| 0 <= j < ranks.len() ==> ranks[j] < values.len(),
                forall|k: int|
                    0 <= k < masses.len() ==> masses[k] == counting::mass(
                        ranks@.take(n as int),
                        k as nat,
                    ),
            decreases len - n,
        {
            let k = ranks[n];
            assert(ranks@.take(n + 1).drop_last() =~= ranks@.take(n as int));
            proof {
                counting::lemma_below_bounds(ranks@.take(n as int), k as nat);
            }
            masses.set(k, masses[k] + 1);
            n = n + 1;
        }
        proof {
            lemma_values_span(values@, ids@);
        }
        FixPrefixOrbitCodec { ids: ranks, len, masses }
    }

    /// The number of elements.
    pub fn num_elements(&self) -> (n: usize)
        ensures
            n == self.all_ranks().len(),
    {
        self.ids.len()
    }

    /// The orbit of element `i`.
    pub fn rank(&self, i: usize) -> (k: usize)
        requires
            i < self.all_ranks().len(),
        ensures
            k == self.all_ranks()[i as int],
    {
        self.ids[i]
    }

    /// Exchanges the elements `i` and `j`.
    pub fn swap(&mut self, i: usize, j: usize)
        requires
            old(self).wf(),
            i < old(self).ranks().len(),
            j < old(self).ranks().len(),
        ensures
            final(self).wf(),
            final(self).ranks() == counting::swapped(old(self).ranks(), i as int, j as int),
            final(self).all_ranks() == counting::swapped(
                old(self).all_ranks(),
                i as int,
                j as int,
            ),
            final(self).count() == old(self).count(),
            final(self).masses() == old(self).masses(),
    {
        let a = self.ids[i];
        let b = self.ids[j];
        self.ids.set(i, b);
        self.ids.set(j, a);
        proof {
            let r = old(self).ranks();
            assert(self.ranks() =~= counting::swapped(r, i as int, j as int));
            counting::lemma_swapped_permuted(r, i as int, j as int);
            let all = old(self).all_ranks();
            assert(self.ids@ =~= counting::swapped(all, i as int, j as int));
            counting::lemma_swapped_permuted(all, i as int, j as int);
            counting::lemma_span_permuted(all, self.ids@);
            assert forall|k: int| 0 <= k < self.masses.len() implies self.masses[k]
                == counting::mass(self.ranks(), k as nat) by {
                counting::lemma_counts_permuted(r, self.ranks(), k as nat);
            }
        }
    }

    /// The first element that counts and belongs to orbit `k`.
    pub fn representative(&self, k: usize) -> (i: usize)
        requires
            self.wf(),
            counting::mass(self.ranks(), k as nat) > 0,
        ensures
            i as int == first_of(self.ranks(), k),
            i < self.ranks().len(),
            self.ranks()[i as int] == k,
            forall|j: int| 0 <= j < i ==> self.ranks()[j] != k,
    {
        proof {
            first_of_exists(self.ranks(), k);
        }
        let mut i: usize = 0;
        while self.ids[i] != k
            invariant
                self.len <= self.ids.len(),
                i <= first_of(self.ranks(), k) < self.ranks().len(),
                self.ranks()[first_of(self.ranks(), k)] == k,
            decreases first_of(self.ranks(), k) - i,
        {
            assert(self.ranks()[i as int] == self.ids@[i as int]);
            i = i + 1;
        }
        assert(self.ranks()[i as int] == self.ids@[i as int]);
        i
    }

    /// The number of elements that count and belong to an orbit below `k`.
    fn start(&self, k: usize) -> (start: usize)
        requires
            self.wf(),
            k <= self.masses.len(),
        ensures
            start == counting::below(self.ranks(), k as nat),
    {
        let mut start: usize = 0;
        let mut i: usize = 0;
        proof {
            counting::lemma_below_bounds(self.ranks(), 0);
        }
        while i < k
            invariant
                self.wf(),
                i <= k <= self.masses.len(),
                start == counting::below(self.ranks(), i as nat),
            decreases k - i,
        {
            proof {
                counting::lemma_below_next(self.ranks(), i as nat);
                counting::lemma_below_bounds(self.ranks(), i as nat);
            }
            start = start + self.masses[i];
            i = i + 1;
        }
        start
    }
}

impl Clone for FixPrefixOrbitCodec {
    fn clone(&self) -> (c: Self)
        ensures
            c.all_ranks() == self.all_ranks(),
            c.ranks() == self.ranks(),
            c.masses() == self.masses(),
            c.wf() == self.wf(),
    {
        FixPrefixOrbitCodec {
            ids: self.ids.clone(),
            len: self.len,
            masses: self.masses.clone(),
        }
    }
}

/// Whether the numbers are the same in both lists.
fn same_numbers(a: &Vec<usize>, b: &Vec<usize>) -> (same: bool)
    ensures
        same == (a@ == b@),
{
    if a.len() != b.len() {
        return false;
    }
    let mut i: usize = 0;
    while i < a.len()
        invariant
            i <= a.len() == b.len(),
            forall|j: int| 0 <= j < i ==> a@[j] == b@[j],
        decreases a.len() - i,
    {
        if a[i] != b[i] {
            return false;
        }
        i = i + 1;
    }
    assert(a@ =~= b@);
    true
}

impl vstd::std_specs::cmp::PartialEqSpecImpl for FixPrefixOrbitCodec {
    open spec fn obeys_eq_spec() -> bool {
        true
    }

    open spec fn eq_spec(&self, other: &Self) -> bool {
        &&& self.all_ranks() == other.all_ranks()
        &&& self.count() == other.count()
        &&& self.masses() == other.masses()
    }
}

impl PartialEq for FixPrefixOrbitCodec {
    fn eq(&self, other: &Self) -> (same: bool) {
        same_numbers(&self.ids, &other.ids) && self.len == other.len && same_numbers(
            &self.masses,
            &other.masses,
        )
    }
}

/// Codecs whose elements have the same orbits, and as many of which count, are equal: they have the
/// same masses too.
pub proof fn orbits_determine_codec(a: FixPrefixOrbitCodec, b: FixPrefixOrbitCodec)
    requires
        a.wf(),
        b.wf(),
        a.all_ranks() == b.all_ranks(),
        a.ranks() == b.ranks(),
    ensures
        a.count() == b.count(),
        a.masses() == b.masses(),
        a.masses() == Seq::new(
            counting::span(a.all_ranks()),
            |k: int| counting::mass(a.ranks(), k as nat) as usize,
        ),
{
    assert(a.ranks().len() == a.len && b.ranks().len() == b.len);
    assert(a.masses() =~= b.masses());
    assert(a.masses() =~= Seq::new(
        counting::span(a.all_ranks()),
        |k: int| counting::mass(a.ranks(), k as nat) as usize,
    ));
}

impl Codec for FixPrefixOrbitCodec {
    type Symbol = usize;

    open spec fn can_push(&self, k: usize) -> bool {
        self.wf() && counting::mass(self.ranks(), k as nat) > 0
    }

    open spec fn can_pop(&self, m: nat) -> bool {
        self.wf() && self.ranks().len() > 0
    }

    open spec fn pushed(&self, m: nat, k: usize) -> nat {
        orbit_pushed(self.ranks(), m, k)
    }

    open spec fn popped(&self, m: nat) -> (nat, usize) {
        orbit_popped(self.ranks(), m)
    }

    fn push(&self, m: &mut Message, k: &usize) {
        proof {
            let i = counting::lemma_mass_witness(self.ranks(), *k as nat);
            assert(self.ids@[i] == *k);
            counting::lemma_below_bounds(self.ranks(), *k as nat);
            lemma_mod_bound(m@ as int, self.masses@[*k as int] as int);
        }
        let start = self.start(*k);
        let within: u64 = m.divide(self.masses[*k] as u64);
        m.multiply(self.len as u64, start as u64 + within);
    }

    fn pop(&self, m: &mut Message) -> (k: usize) {
        let ghost s = m@ % self.ranks().len();
        let ghost c = slot(self.ranks(), s);
        proof {
            lemma_mod_bound(m@ as int, self.ranks().len() as int);
            lemma_div_pos_is_pos(m@ as int, self.ranks().len() as int);
            slot_exists(self.ranks(), s);
            let i = counting::lemma_mass_witness(self.ranks(), c as nat);
            assert(self.ids@[i] == c);
            counting::lemma_below_bounds(self.ranks(), 0);
        }
        let target: u64 = m.divide(self.len as u64);
        let mut start: u64 = 0;
        let mut k: usize = 0;
        while target - start >= self.masses[k] as u64
            invariant
                self.wf(),
                target == s,
                k <= c < self.masses.len(),
                start == counting::below(self.ranks(), k as nat),
                start <= target,
                counting::below(self.ranks(), c as nat) <= s,
                s < counting::below(self.ranks(), c as nat) + counting::mass(
                    self.ranks(),
                    c as nat,
                ),
            decreases c - k,
        {
            proof {
                counting::lemma_below_next(self.ranks(), k as nat);
                if k < c {
                    counting::lemma_below_monotone(self.ranks(), k as nat + 1, c as nat);
                }
            }
            start = start + self.masses[k] as u64;
            k = k + 1;
        }
        proof {
            lemma_slot_unique(self.ranks(), s, k);
        }
        m.multiply(self.masses[k] as u64, target - start);
        k
    }
}

/// The number of an element is how many different ids are smaller than its own.
pub proof fn rank_counts_smaller_ids(ids: Seq<u64>, i: int)
    requires
        0 <= i < ids.len() <= usize::MAX,
    ensures
        ranks_of(ids).len() == ids.len(),
        ranks_of(ids)[i] as nat == Set::new(|x: u64| ids.contains(x) && x < ids[i]).len(),
{
    lemma_rank_fits(ids, ids[i]);
    assert(ids.to_set().filter(|x: u64| x < ids[i]) =~= Set::new(
        |x: u64| ids.contains(x) && x < ids[i],
    ));
}

/// The mass of an element's orbit is the number of elements with its id, and what is below the orbit
/// is the number of elements with a smaller id.
pub proof fn orbit_counts_ids(ids: Seq<u64>, i: int)
    requires
        0 <= i < ids.len() <= usize::MAX,
    ensures
        counting::mass(ranks_of(ids), ranks_of(ids)[i] as nat) == ids.filter(
            |x: u64| x == ids[i],
        ).len(),
        counting::below(ranks_of(ids), ranks_of(ids)[i] as nat) == ids.filter(
            |x: u64| x < ids[i],
        ).len(),
        ids.filter(|x: u64| x == ids[i]).len() > 0,
{
    let ranks = ranks_of(ids);
    let k = ranks[i] as nat;
    counting::mass_counts(ranks, k);
    counting::below_counts(ranks, k);
    counting::lemma_mass_positive(ranks, i);
    assert forall|j: int| 0 <= j < ids.len() implies (ranks[j] == k <==> ids[j] == ids[i]) && (
    ranks[j] < k <==> ids[j] < ids[i]) by {
        ranks_tell_ids_apart(ids, j, i);
    }
    counting::lemma_filter_same(ranks, ids, |x: usize| x == k, |x: u64| x == ids[i]);
    counting::lemma_filter_same(ranks, ids, |x: usize| x < k, |x: u64| x < ids[i]);
}

/// The orbit that comes off a message is that of the elements whose interval holds the remainder of
/// the message, where each element has one number and smaller ids come first; the message that is
/// left has the same quotient, and counts from the start of the interval.
pub proof fn popped_orbit_holds_remainder(ids: Seq<u64>, m: nat, i: int)
    requires
        0 <= i < ids.len() <= usize::MAX,
    ensures
        ({
            let start = ids.filter(|x: u64| x < ids[i]).len();
            let size = ids.filter(|x: u64| x == ids[i]).len();
            let s = m % ids.len();
            let (rest, k) = orbit_popped(ranks_of(ids), m);
            &&& k == ranks_of(ids)[i] <==> start <= s && s < start + size
            &&& k == ranks_of(ids)[i] ==> rest == (m / ids.len()) * size + (s - start)
        }),
{
    let ranks = ranks_of(ids);
    orbit_counts_ids(ids, i);
    orbit_share(ranks, m, ranks[i]);
}

/// Some element has the orbit that comes off a message.
pub proof fn popped_orbit_has_element(ids: Seq<u64>, m: nat) -> (i: int)
    requires
        ids.len() > 0,
    ensures
        0 <= i < ids.len(),
        ranks_of(ids)[i] == orbit_popped(ranks_of(ids), m).1,
{
    orbit_pop_then_push(ranks_of(ids), m);
    counting::lemma_mass_witness(ranks_of(ids), orbit_popped(ranks_of(ids), m).1 as nat)
}

/// Pushing the orbit of an element puts the remainder into the interval of the orbit.
pub proof fn pushed_orbit_sets_remainder(ids: Seq<u64>, m: nat, i: int)
    requires
        0 <= i < ids.len() <= usize::MAX,
    ensures
        ({
            let start = ids.filter(|x: u64| x < ids[i]).len();
            let size = ids.filter(|x: u64| x == ids[i]).len();
            orbit_pushed(ranks_of(ids), m, ranks_of(ids)[i]) == (m / size) * ids.len() + start + m
                % size
        }),
{
    orbit_counts_ids(ids, i);
}

/// The codec for orbits codes the orbits of its elements that count, each as likely as it has such
/// elements, smaller orbits first.
pub proof fn orbit_codec_shares(c: FixPrefixOrbitCodec, m: nat, k: usize)
    requires
        c.wf(),
    ensures
        ({
            let n = c.ranks().len();
            let start = c.ranks().filter(|x: usize| x < k).len();
            let size = c.ranks().filter(|x: usize| x == k).len();
            &&& c.can_push(k) <==> size > 0
            &&& c.can_pop(m) <==> n > 0
            &&& size > 0 ==> c.pushed(m, k) == (m / size) * n + start + m % size
            &&& n > 0 ==> (c.popped(m).1 == k <==> start <= m % n && m % n < start + size)
            &&& n > 0 && c.popped(m).1 == k ==> c.popped(m).0 == (m / n) * size + (m % n - start)
        }),
        c.ranks() == c.all_ranks().take(c.count() as int),
        c.count() <= c.all_ranks().len(),
{
    counting::mass_counts(c.ranks(), k as nat);
    counting::below_counts(c.ranks(), k as nat);
    assert(c.ranks().filter(|x: usize| x == k as nat) == c.ranks().filter(|x: usize| x == k)) by {
        assert((|x: usize| x == k as nat) =~= (|x: usize| x == k));
    }
    assert(c.ranks().filter(|x: usize| x < k as nat) == c.ranks().filter(|x: usize| x < k)) by {
        assert((|x: usize| x < k as nat) =~= (|x: usize| x < k));
    }
    if c.ranks().len() > 0 {
        orbit_share(c.ranks(), m, k);
    }
}

/// Codecs for orbits are equal if and only if their elements have the same orbits, as many of which
/// count, and the masses are the same.
pub proof fn equal_orbit_codecs(a: FixPrefixOrbitCodec, b: FixPrefixOrbitCodec)
    ensures
        vstd::std_specs::cmp::PartialEqSpec::eq_spec(&a, &b) <==> a.all_ranks() == b.all_ranks()
            && a.count() == b.count() && a.masses() == b.masses(),
{
}

} // verus!
