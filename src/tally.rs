use vstd::prelude::*;
use vstd::multiset::Multiset;
use ahash::AHashMap;
use crate::order::{lex_lt, lemma_lex_irreflexive, lemma_lex_transitive, lemma_lex_total};

verus! {

#[verifier::external_type_specification]
#[verifier::external_body]
#[verifier::reject_recursive_types(K)]
#[verifier::reject_recursive_types(V)]
#[verifier::reject_recursive_types(S)]
pub struct ExAHashMap<K, V, S>(AHashMap<K, V, S>);

#[verifier::external_type_specification]
#[verifier::external_body]
pub struct ExRandomState(ahash::RandomState);

/// Identifier bytes to their count.
pub type CountMap = AHashMap<Vec<u8>, usize>;

/// What a count map holds: identifier bytes to count.
pub uninterp spec fn counts_of(m: CountMap) -> Map<Seq<u8>, usize>;

/// Relies on `AHashMap::new`: a map with no entries.
#[verifier::external_body]
fn map_new() -> (r: CountMap)
    ensures
        counts_of(r).dom() == Set::<Seq<u8>>::empty(),
{
    AHashMap::new()
}

/// Relies on `AHashMap::get`: the value stored under a key equal to `k`, if any.
#[verifier::external_body]
fn map_get(m: &CountMap, k: &Vec<u8>) -> (r: Option<usize>)
    ensures
        r == (if counts_of(*m).contains_key(k@) {
            Some(counts_of(*m)[k@])
        } else {
            None
        }),
{
    m.get(k).copied()
}

/// Relies on `AHashMap::insert`: `k` maps to `v` afterwards, the other entries stay.
#[verifier::external_body]
fn map_insert(m: &mut CountMap, k: Vec<u8>, v: usize)
    ensures
        counts_of(*final(m)) == counts_of(*old(m)).insert(k@, v),
{
    m.insert(k, v);
}

/// Pairs of identifier bytes and count, as plain values.
pub open spec fn pairs_view(v: Seq<(Vec<u8>, usize)>) -> Seq<(Seq<u8>, usize)> {
    v.map_values(|p: (Vec<u8>, usize)| (p.0@, p.1))
}

/// Relies on `AHashMap::into_iter`: every entry once, in an unspecified order.
#[verifier::external_body]
fn map_into_pairs(m: CountMap) -> (r: Vec<(Vec<u8>, usize)>)
    ensures
        forall|i: int, j: int|
            0 <= i < r@.len() && 0 <= j < r@.len() && i != j ==> r@[i].0@ != r@[j].0@,
        forall|i: int|
            0 <= i < r@.len() ==> #[trigger] counts_of(m).contains_key(r@[i].0@)
                && counts_of(m)[r@[i].0@] == r@[i].1,
        forall|k: Seq<u8>|
            #[trigger] counts_of(m).contains_key(k) ==> exists|i: int|
                0 <= i < r@.len() && r@[i].0@ == k,
{
    m.into_iter().collect()
}

/// Relies on `slice::sort_unstable` over `(Vec<u8>, usize)`: a permutation, ordered
/// lexicographically by bytes first.
#[verifier::external_body]
fn sort_pairs(v: &mut Vec<(Vec<u8>, usize)>)
    ensures
        pairs_view(final(v)@).to_multiset() == pairs_view(old(v)@).to_multiset(),
        forall|i: int, j: int|
            0 <= i < j < final(v)@.len() ==> !lex_lt(
                #[trigger] final(v)@[j].0@,
                #[trigger] final(v)@[i].0@,
            ),
{
    v.sort_unstable();
}

/// How many times `k` occurs in `ids`.
pub open spec fn count_of(ids: Seq<Seq<u8>>, k: Seq<u8>) -> nat
    decreases ids.len(),
{
    if ids.len() == 0 {
        0
    } else {
        count_of(ids.drop_last(), k) + if ids.last() == k {
            1nat
        } else {
            0nat
        }
    }
}

/// Observing `x` adds one to its count and leaves the others.
pub proof fn lemma_count_of_push(ids: Seq<Seq<u8>>, x: Seq<u8>, k: Seq<u8>)
    ensures
        count_of(ids.push(x), k) == count_of(ids, k) + if x == k {
            1nat
        } else {
            0nat
        },
{
    assert(ids.push(x).drop_last() =~= ids);
}

/// A count is at most the number of observations, and positive exactly for
/// identifiers that were observed.
pub proof fn lemma_count_of_bounds(ids: Seq<Seq<u8>>, k: Seq<u8>)
    ensures
        count_of(ids, k) <= ids.len(),
        count_of(ids, k) > 0 <==> ids.contains(k),
    decreases ids.len(),
{
    if ids.len() > 0 {
        lemma_count_of_bounds(ids.drop_last(), k);
        if ids.drop_last().contains(k) {
            let i = choose|i: int| 0 <= i < ids.drop_last().len() && ids.drop_last()[i] == k;
            assert(ids[i] == k);
        }
        if ids.contains(k) && ids.last() != k {
            let i = choose|i: int| 0 <= i < ids.len() && ids[i] == k;
            assert(ids.drop_last()[i] == k);
        }
    }
}

/// The ordered tally of `ids`: strictly ascending identifiers, each one that occurs in
/// `ids` exactly once, with the number of its occurrences.
pub open spec fn is_ordered_tally_of(v: Seq<(Seq<u8>, usize)>, ids: Seq<Seq<u8>>) -> bool {
    &&& forall|i: int, j: int| 0 <= i < j < v.len() ==> lex_lt(#[trigger] v[i].0, #[trigger] v[j].0)
    &&& forall|i: int| 0 <= i < v.len() ==> #[trigger] v[i].1 == count_of(ids, v[i].0) && v[i].1 >= 1
    &&& forall|k: Seq<u8>| #[trigger] ids.contains(k) ==> exists|i: int| 0 <= i < v.len() && v[i].0 == k
}

/// Sum of the counts of a sequence of pairs.
pub open spec fn sum_counts(v: Seq<(Seq<u8>, usize)>) -> nat
    decreases v.len(),
{
    if v.len() == 0 {
        0
    } else {
        (sum_counts(v.drop_last()) + v.last().1) as nat
    }
}

/// Whether some pair of `v` carries the identifier `k`.
pub open spec fn has_key(v: Seq<(Seq<u8>, usize)>, k: Seq<u8>) -> bool {
    exists|i: int| 0 <= i < v.len() && v[i].0 == k
}

/// No identifier is carried by two pairs of `v`.
pub open spec fn keys_distinct(v: Seq<(Seq<u8>, usize)>) -> bool {
    forall|i: int, j: int| 0 <= i < v.len() && 0 <= j < v.len() && i != j ==> v[i].0 != v[j].0
}

/// Sum over the pairs of `v` of how often their identifier occurs in `ids`.
pub open spec fn occurrences_of_keys(ids: Seq<Seq<u8>>, v: Seq<(Seq<u8>, usize)>) -> nat
    decreases v.len(),
{
    if v.len() == 0 {
        0
    } else {
        occurrences_of_keys(ids, v.drop_last()) + count_of(ids, v.last().0)
    }
}

/// How many elements of `ids` are carried by some pair of `v`.
pub open spec fn hits(ids: Seq<Seq<u8>>, v: Seq<(Seq<u8>, usize)>) -> nat
    decreases ids.len(),
{
    if ids.len() == 0 {
        0
    } else {
        hits(ids.drop_last(), v) + if has_key(v, ids.last()) {
            1nat
        } else {
            0nat
        }
    }
}

proof fn lemma_has_key_drop_last(v: Seq<(Seq<u8>, usize)>, k: Seq<u8>)
    requires
        v.len() > 0,
    ensures
        has_key(v, k) <==> has_key(v.drop_last(), k) || v.last().0 == k,
{
    if has_key(v, k) && v.last().0 != k {
        let i = choose|i: int| 0 <= i < v.len() && v[i].0 == k;
        assert(v.drop_last()[i].0 == k);
    }
    if has_key(v.drop_last(), k) {
        let i = choose|i: int| 0 <= i < v.drop_last().len() && v.drop_last()[i].0 == k;
        assert(v[i].0 == k);
    }
    assert(v[v.len() - 1] == v.last());
}

proof fn lemma_occurrences_empty(v: Seq<(Seq<u8>, usize)>)
    ensures
        occurrences_of_keys(Seq::empty(), v) == 0,
    decreases v.len(),
{
    if v.len() > 0 {
        lemma_occurrences_empty(v.drop_last());
    }
}

proof fn lemma_occurrences_push(ids: Seq<Seq<u8>>, x: Seq<u8>, v: Seq<(Seq<u8>, usize)>)
    requires
        keys_distinct(v),
    ensures
        occurrences_of_keys(ids.push(x), v) == occurrences_of_keys(ids, v) + if has_key(v, x) {
            1nat
        } else {
            0nat
        },
    decreases v.len(),
{
    if v.len() > 0 {
        let d = v.drop_last();
        assert(keys_distinct(d)) by {
            assert forall|i: int, j: int|
                0 <= i < d.len() && 0 <= j < d.len() && i != j implies d[i].0 != d[j].0 by {
                assert(d[i] == v[i] && d[j] == v[j]);
            }
        }
        lemma_occurrences_push(ids, x, d);
        lemma_count_of_push(ids, x, v.last().0);
        lemma_has_key_drop_last(v, x);
        if has_key(d, x) {
            let i = choose|i: int| 0 <= i < d.len() && d[i].0 == x;
            assert(v[i].0 == x);
            assert(v[v.len() - 1] == v.last());
        }
    }
}

proof fn lemma_occurrences_are_hits(ids: Seq<Seq<u8>>, v: Seq<(Seq<u8>, usize)>)
    requires
        keys_distinct(v),
    ensures
        occurrences_of_keys(ids, v) == hits(ids, v),
    decreases ids.len(),
{
    if ids.len() == 0 {
        lemma_occurrences_empty(v);
        assert(ids =~= Seq::<Seq<u8>>::empty());
    } else {
        lemma_occurrences_are_hits(ids.drop_last(), v);
        lemma_occurrences_push(ids.drop_last(), ids.last(), v);
        assert(ids.drop_last().push(ids.last()) =~= ids);
    }
}

proof fn lemma_all_hit(ids: Seq<Seq<u8>>, v: Seq<(Seq<u8>, usize)>)
    requires
        forall|k: Seq<u8>| ids.contains(k) ==> #[trigger] has_key(v, k),
    ensures
        hits(ids, v) == ids.len(),
    decreases ids.len(),
{
    if ids.len() > 0 {
        let d = ids.drop_last();
        assert forall|k: Seq<u8>| d.contains(k) implies #[trigger] has_key(v, k) by {
            let i = choose|i: int| 0 <= i < d.len() && d[i] == k;
            assert(ids[i] == k);
        }
        lemma_all_hit(d, v);
        assert(ids.contains(ids[ids.len() - 1]));
    }
}

proof fn lemma_sum_is_occurrences(ids: Seq<Seq<u8>>, v: Seq<(Seq<u8>, usize)>)
    requires
        forall|i: int| 0 <= i < v.len() ==> #[trigger] v[i].1 == count_of(ids, v[i].0),
    ensures
        sum_counts(v) == occurrences_of_keys(ids, v),
    decreases v.len(),
{
    if v.len() > 0 {
        let d = v.drop_last();
        assert forall|i: int| 0 <= i < d.len() implies #[trigger] d[i].1 == count_of(ids, d[i].0) by {
            assert(d[i] == v[i]);
        }
        lemma_sum_is_occurrences(ids, d);
        assert(v[v.len() - 1] == v.last());
    }
}

/// The counts of an ordered tally add up to the number of identifiers it was built from.
pub proof fn lemma_ordered_tally_sum(v: Seq<(Seq<u8>, usize)>, ids: Seq<Seq<u8>>)
    requires
        is_ordered_tally_of(v, ids),
    ensures
        sum_counts(v) == ids.len(),
{
    assert(keys_distinct(v)) by {
        assert forall|i: int, j: int|
            0 <= i < v.len() && 0 <= j < v.len() && i != j implies v[i].0 != v[j].0 by {
            if i < j {
                assert(lex_lt(v[i].0, v[j].0));
            } else {
                assert(lex_lt(v[j].0, v[i].0));
            }
            lemma_lex_irreflexive(v[i].0);
        }
    }
    assert forall|k: Seq<u8>| ids.contains(k) implies #[trigger] has_key(v, k) by {
        let i = choose|i: int| 0 <= i < v.len() && v[i].0 == k;
    }
    lemma_sum_is_occurrences(ids, v);
    lemma_occurrences_are_hits(ids, v);
    lemma_all_hit(ids, v);
}

proof fn lemma_sorted_unique(v1: Seq<(Seq<u8>, usize)>, v2: Seq<(Seq<u8>, usize)>, ids: Seq<Seq<u8>>)
    requires
        forall|i: int, j: int| 0 <= i < j < v1.len() ==> lex_lt(#[trigger] v1[i].0, #[trigger] v1[j].0),
        forall|i: int, j: int| 0 <= i < j < v2.len() ==> lex_lt(#[trigger] v2[i].0, #[trigger] v2[j].0),
        forall|i: int| 0 <= i < v1.len() ==> #[trigger] v1[i].1 == count_of(ids, v1[i].0),
        forall|i: int| 0 <= i < v2.len() ==> #[trigger] v2[i].1 == count_of(ids, v2[i].0),
        forall|k: Seq<u8>| #[trigger] has_key(v1, k) <==> has_key(v2, k),
    ensures
        v1 == v2,
    decreases v1.len(),
{
    if v1.len() == 0 {
        if v2.len() > 0 {
            assert(has_key(v2, v2[0].0));
            assert(has_key(v1, v2[0].0));
        }
        assert(v1 =~= v2);
    } else {
        assert(has_key(v1, v1[0].0));
        let j = choose|j: int| 0 <= j < v2.len() && v2[j].0 == v1[0].0;
        assert(has_key(v2, v2[0].0));
        assert(has_key(v1, v2[0].0));
        let i = choose|i: int| 0 <= i < v1.len() && v1[i].0 == v2[0].0;
        if j > 0 {
            assert(lex_lt(v2[0].0, v2[j].0));
            if i > 0 {
                assert(lex_lt(v1[0].0, v1[i].0));
                lemma_lex_transitive(v1[0].0, v2[0].0, v1[0].0);
            }
            lemma_lex_irreflexive(v1[0].0);
        }
        assert(v1[0] == v2[0]);
        let t1 = v1.drop_first();
        let t2 = v2.drop_first();
        assert forall|k: Seq<u8>| #[trigger] has_key(t1, k) <==> has_key(t2, k) by {
            if has_key(t1, k) {
                let a = choose|a: int| 0 <= a < t1.len() && t1[a].0 == k;
                assert(v1[a + 1].0 == k);
                assert(lex_lt(v1[0].0, v1[a + 1].0));
                lemma_lex_irreflexive(k);
                assert(has_key(v1, k));
                let b = choose|b: int| 0 <= b < v2.len() && v2[b].0 == k;
                assert(b != 0);
                assert(t2[b - 1].0 == k);
            }
            if has_key(t2, k) {
                let a = choose|a: int| 0 <= a < t2.len() && t2[a].0 == k;
                assert(v2[a + 1].0 == k);
                assert(lex_lt(v2[0].0, v2[a + 1].0));
                lemma_lex_irreflexive(k);
                assert(has_key(v2, k));
                assert(has_key(v1, k));
                assert(v2[0].0 == v1[0].0);
                let b = choose|b: int| 0 <= b < v1.len() && v1[b].0 == k;
                assert(b != 0);
                assert(t1[b - 1].0 == k);
            }
        }
        assert forall|a: int, b: int| 0 <= a < b < t1.len() implies lex_lt(#[trigger] t1[a].0, #[trigger] t1[b].0) by {
            assert(t1[a] == v1[a + 1] && t1[b] == v1[b + 1]);
        }
        assert forall|a: int, b: int| 0 <= a < b < t2.len() implies lex_lt(#[trigger] t2[a].0, #[trigger] t2[b].0) by {
            assert(t2[a] == v2[a + 1] && t2[b] == v2[b + 1]);
        }
        assert forall|a: int| 0 <= a < t1.len() implies #[trigger] t1[a].1 == count_of(ids, t1[a].0) by {
            assert(t1[a] == v1[a + 1]);
        }
        assert forall|a: int| 0 <= a < t2.len() implies #[trigger] t2[a].1 == count_of(ids, t2[a].0) by {
            assert(t2[a] == v2[a + 1]);
        }
        lemma_sorted_unique(t1, t2, ids);
        assert(v1 =~= seq![v1[0]] + t1);
        assert(v2 =~= seq![v2[0]] + t2);
    }
}

/// A sequence of identifiers has exactly one ordered tally.
pub proof fn lemma_ordered_tally_unique(
    v1: Seq<(Seq<u8>, usize)>,
    v2: Seq<(Seq<u8>, usize)>,
    ids: Seq<Seq<u8>>,
)
    requires
        is_ordered_tally_of(v1, ids),
        is_ordered_tally_of(v2, ids),
    ensures
        v1 == v2,
{
    assert forall|k: Seq<u8>| #[trigger] has_key(v1, k) <==> has_key(v2, k) by {
        if has_key(v1, k) {
            let i = choose|i: int| 0 <= i < v1.len() && v1[i].0 == k;
            lemma_count_of_bounds(ids, k);
            assert(v1[i].1 == count_of(ids, v1[i].0));
        }
        if has_key(v2, k) {
            let i = choose|i: int| 0 <= i < v2.len() && v2[i].0 == k;
            lemma_count_of_bounds(ids, k);
            assert(v2[i].1 == count_of(ids, v2[i].0));
        }
    }
    lemma_sorted_unique(v1, v2, ids);
}

/// The running count of each identifier seen so far.
pub struct Tally {
    counts: CountMap,
    total: usize,
    observed: Ghost<Seq<Seq<u8>>>,
}

impl Tally {
    /// The identifiers observed so far, in order.
    pub closed spec fn observed(&self) -> Seq<Seq<u8>> {
        self.observed@
    }

    /// The map holds exactly the observed identifiers, each with its count.
    pub closed spec fn wf(&self) -> bool {
        &&& forall|k: Seq<u8>| #[trigger]
            counts_of(self.counts).contains_key(k) <==> self.observed@.contains(k)
        &&& forall|k: Seq<u8>| #[trigger]
            counts_of(self.counts).contains_key(k) ==> counts_of(self.counts)[k] == count_of(
                self.observed@,
                k,
            )
        &&& self.total == self.observed@.len()
    }

    /// A tally with nothing observed.
    pub fn new() -> (t: Tally)
        ensures
            t.wf(),
            t.observed() == Seq::<Seq<u8>>::empty(),
    {
        Tally { counts: map_new(), total: 0, observed: Ghost(Seq::empty()) }
    }

    /// Number of identifiers observed so far.
    pub fn observations(&self) -> (r: usize)
        requires
            self.wf(),
        ensures
            r == self.observed().len(),
    {
        self.total
    }

    /// Counts one more occurrence of `id`.
    pub fn observe(&mut self, id: Vec<u8>)
        requires
            old(self).wf(),
            old(self).observed().len() < usize::MAX,
        ensures
            final(self).wf(),
            final(self).observed() == old(self).observed().push(id@),
    {
        let ghost old_obs = self.observed@;
        let ghost key = id@;
        let cur = map_get(&self.counts, &id);
        let next: usize = match cur {
            Some(c) => {
                proof {
                    lemma_count_of_bounds(old_obs, key);
                }
                c + 1
            },
            None => 1,
        };
        proof {
            lemma_count_of_bounds(old_obs, key);
        }
        map_insert(&mut self.counts, id, next);
        self.total = self.total + 1;
        self.observed = Ghost(old_obs.push(key));
        proof {
            let obs = self.observed@;
            assert forall|k: Seq<u8>| #[trigger]
                counts_of(self.counts).contains_key(k) <==> obs.contains(k) by {
                if k == key {
                    assert(obs[obs.len() - 1] == key);
                } else {
                    if obs.contains(k) {
                        let i = choose|i: int| 0 <= i < obs.len() && obs[i] == k;
                        assert(old_obs[i] == k);
                    }
                    if old_obs.contains(k) {
                        let i = choose|i: int| 0 <= i < old_obs.len() && old_obs[i] == k;
                        assert(obs[i] == k);
                    }
                }
            }
            assert forall|k: Seq<u8>| #[trigger]
                counts_of(self.counts).contains_key(k) implies counts_of(self.counts)[k]
                == count_of(obs, k) by {
                lemma_count_of_push(old_obs, key, k);
                if k == key && cur is None {
                    lemma_count_of_bounds(old_obs, key);
                }
            }
        }
    }

    /// The tally as pairs sorted by identifier.
    pub fn finalize(self) -> (r: OrderedTally)
        requires
            self.wf(),
        ensures
            r.wf(),
            r.observed() == self.observed(),
            is_ordered_tally_of(r@, self.observed()),
    {
        let ghost obs = self.observed@;
        let ghost m = counts_of(self.counts);
        let mut v = map_into_pairs(self.counts);
        let ghost pre = v@;
        let ghost before = pairs_view(v@);
        sort_pairs(&mut v);
        proof {
            let after = pairs_view(v@);
            assert forall|i: int, j: int|
                0 <= i < before.len() && 0 <= j < before.len() && i != j implies before[i]
                != before[j] by {
                assert(before[i].0 == pre[i].0@ && before[j].0 == pre[j].0@);
            }
            assert(before.no_duplicates());
            before.lemma_multiset_has_no_duplicates();
            after.lemma_multiset_has_no_duplicates_conv();
            assert forall|i: int|
                0 <= i < after.len() implies #[trigger] after[i].1 == count_of(obs, after[i].0)
                && after[i].1 >= 1 && m.contains_key(after[i].0) && m[after[i].0] == after[i].1 by {
                after.to_multiset_ensures();
                before.to_multiset_ensures();
                assert(after.contains(after[i]));
                assert(after.to_multiset().count(after[i]) > 0);
                assert(before.to_multiset().count(after[i]) > 0);
                assert(before.contains(after[i]));
                let j = choose|j: int| 0 <= j < before.len() && before[j] == after[i];
                assert(before[j].0 == pre[j].0@ && before[j].1 == pre[j].1);
                assert(m.contains_key(pre[j].0@));
                lemma_count_of_bounds(obs, after[i].0);
            }
            assert forall|i: int, j: int|
                0 <= i < j < after.len() implies lex_lt(#[trigger] after[i].0, #[trigger] after[j].0) by {
                assert(!lex_lt(v@[j].0@, v@[i].0@));
                assert(after[i].0 == v@[i].0@ && after[j].0 == v@[j].0@);
                if after[i].0 == after[j].0 {
                    assert(after[i] == after[j]);
                }
                lemma_lex_total(after[i].0, after[j].0);
            }
            assert forall|k: Seq<u8>| #[trigger] obs.contains(k) implies exists|i: int|
                0 <= i < after.len() && after[i].0 == k by {
                assert(m.contains_key(k));
                let j = choose|j: int| 0 <= j < pre.len() && pre[j].0@ == k;
                assert(before[j].0 == k);
                after.to_multiset_ensures();
                before.to_multiset_ensures();
                assert(before.contains(before[j]));
                assert(before.to_multiset().count(before[j]) > 0);
                assert(after.to_multiset().count(before[j]) > 0);
                assert(after.contains(before[j]));
                let i = choose|i: int| 0 <= i < after.len() && after[i] == before[j];
                assert(after[i].0 == k);
            }
        }
        OrderedTally { entries: v, total: self.total, observed: Ghost(obs) }
    }
}

/// Identifiers with their counts, in ascending byte order.
pub struct OrderedTally {
    entries: Vec<(Vec<u8>, usize)>,
    total: usize,
    observed: Ghost<Seq<Seq<u8>>>,
}

impl OrderedTally {
    /// The identifiers the tally was built from.
    pub closed spec fn observed(&self) -> Seq<Seq<u8>> {
        self.observed@
    }

    /// The pairs as plain values.
    pub closed spec fn view(&self) -> Seq<(Seq<u8>, usize)> {
        pairs_view(self.entries@)
    }

    /// The pairs are the ordered tally of what was observed.
    pub closed spec fn wf(&self) -> bool {
        &&& is_ordered_tally_of(pairs_view(self.entries@), self.observed@)
        &&& self.total == self.observed@.len()
    }

    /// The ordered pairs and what they were built from.
    pub proof fn lemma_wf(&self)
        requires
            self.wf(),
        ensures
            is_ordered_tally_of(self@, self.observed()),
    {
    }

    /// Number of distinct identifiers.
    pub fn len(&self) -> (r: usize)
        ensures
            r == self@.len(),
    {
        self.entries.len()
    }

    /// Sum of all counts: the number of identifiers tallied.
    pub fn total(&self) -> (r: usize)
        requires
            self.wf(),
        ensures
            r == sum_counts(self@),
            r == self.observed().len(),
    {
        proof {
            lemma_ordered_tally_sum(self@, self.observed@);
        }
        self.total
    }

    /// The pairs, in ascending identifier order.
    pub fn entries(&self) -> (r: &Vec<(Vec<u8>, usize)>)
        ensures
            pairs_view(r@) == self@,
    {
        &self.entries
    }
}

} // verus!
