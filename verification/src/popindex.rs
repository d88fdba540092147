//! Canonical population order and per-population haplotype counts.
//!
//! The sample map assigns each haplotype position to a population label.
//! The canonical population order is the sorted, deduplicated sequence of
//! the labels that appear in the map; it is the single axis order shared
//! by entry classification and matrix aggregation.

use vstd::prelude::*;
use vstd::std_specs::iter::IteratorSpec;
use std::collections::HashMap;
use crate::strorder::{
    lex_lt, lex_le, views, sorted_distinct, lemma_lex_lt_irreflexive, lemma_lex_lt_transitive,
    lemma_lex_le_total_ordering,
};
use crate::BsfsError;

verus! {

broadcast use vstd::std_specs::hash::group_hash_axioms;

/// The set of haplotype positions that the sample map assigns to `label`.
pub open spec fn pop_set(m: Map<usize, String>, label: Seq<char>) -> Set<usize> {
    m.dom().filter(|i: usize| m[i]@ == label)
}

/// How many haplotypes the sample map assigns to `label`.
pub open spec fn pop_count(m: Map<usize, String>, label: Seq<char>) -> nat {
    pop_set(m, label).len()
}

/// Some haplotype position of `m` carries `label`.
pub open spec fn map_has_label(m: Map<usize, String>, label: Seq<char>) -> bool {
    exists|i: usize| #[trigger] m.contains_key(i) && m[i]@ == label
}

/// `labels` is the canonical population order of `m`: strictly ascending
/// and holding exactly the labels that appear in `m`.
pub open spec fn is_canonical_order(labels: Seq<Seq<char>>, m: Map<usize, String>) -> bool {
    &&& forall|i: int, j: int|
        #![trigger lex_lt(labels[i], labels[j])]
        0 <= i < j < labels.len() ==> lex_lt(labels[i], labels[j])
    &&& forall|l: Seq<char>|
        #![trigger labels.contains(l)]
        #![trigger map_has_label(m, l)]
        labels.contains(l) <==> map_has_label(m, l)
}

/// The canonical population order of `m`. Well defined because a strictly
/// sorted sequence over a fixed label set is unique.
pub open spec fn canonical_order(m: Map<usize, String>) -> Seq<Seq<char>> {
    choose|labels: Seq<Seq<char>>| is_canonical_order(labels, m)
}

/// Strictly sorted label sequences with the same members are equal.
pub proof fn lemma_sorted_distinct_unique(l1: Seq<Seq<char>>, l2: Seq<Seq<char>>)
    requires
        forall|i: int, j: int| 0 <= i < j < l1.len() ==> lex_lt(l1[i], l1[j]),
        forall|i: int, j: int| 0 <= i < j < l2.len() ==> lex_lt(l2[i], l2[j]),
        forall|l: Seq<char>| l1.contains(l) <==> l2.contains(l),
    ensures
        l1 == l2,
    decreases l1.len(),
{
    if l1.len() == 0 {
        if l2.len() > 0 {
            assert(l2.contains(l2[0]));
            assert(l1.contains(l2[0]));
            assert(false);
        }
        assert(l1 =~= l2);
    } else {
        if l2.len() == 0 {
            assert(l1.contains(l1[0]));
            assert(l2.contains(l1[0]));
            assert(false);
        }
        // the heads are equal: each head is a member of the other sequence,
        // and everything after a head is strictly above it
        assert(l1.contains(l1[0]));
        assert(l2.contains(l2[0]));
        let j = choose|j: int| 0 <= j < l2.len() && l2[j] == l1[0];
        let k = choose|k: int| 0 <= k < l1.len() && l1[k] == l2[0];
        if j > 0 {
            assert(lex_lt(l2[0], l1[0]));
            if k > 0 {
                assert(lex_lt(l1[0], l2[0]));
                lemma_lex_lt_transitive(l1[0], l2[0], l1[0]);
                lemma_lex_lt_irreflexive(l1[0]);
                assert(false);
            } else {
                lemma_lex_lt_irreflexive(l1[0]);
                assert(false);
            }
        }
        assert(l1[0] == l2[0]);
        // the tails hold the same members and stay strictly sorted
        let t1 = l1.drop_first();
        let t2 = l2.drop_first();
        assert forall|i: int, j2: int| 0 <= i < j2 < t1.len() implies lex_lt(t1[i], t1[j2]) by {
            assert(t1[i] == l1[i + 1]);
            assert(t1[j2] == l1[j2 + 1]);
        }
        assert forall|i: int, j2: int| 0 <= i < j2 < t2.len() implies lex_lt(t2[i], t2[j2]) by {
            assert(t2[i] == l2[i + 1]);
            assert(t2[j2] == l2[j2 + 1]);
        }
        assert forall|l: Seq<char>| t1.contains(l) implies t2.contains(l) by {
            let u = choose|u: int| 0 <= u < t1.len() && t1[u] == l;
            assert(l1[u + 1] == l);
            assert(l1.contains(l)) by {
                assert(l1[u + 1] == l);
            }
            assert(l2.contains(l));
            let w = choose|w: int| 0 <= w < l2.len() && l2[w] == l;
            if w == 0 {
                // l equals the shared head, yet lies strictly above it
                assert(lex_lt(l1[0], l1[u + 1]));
                lemma_lex_lt_irreflexive(l);
                assert(false);
            }
            assert(t2[w - 1] == l);
        }
        assert forall|l: Seq<char>| t2.contains(l) implies t1.contains(l) by {
            let u = choose|u: int| 0 <= u < t2.len() && t2[u] == l;
            assert(l2[u + 1] == l);
            assert(l2.contains(l)) by {
                assert(l2[u + 1] == l);
            }
            assert(l1.contains(l));
            let w = choose|w: int| 0 <= w < l1.len() && l1[w] == l;
            if w == 0 {
                assert(lex_lt(l2[0], l2[u + 1]));
                lemma_lex_lt_irreflexive(l);
                assert(false);
            }
            assert(t1[w - 1] == l);
        }
        lemma_sorted_distinct_unique(t1, t2);
        assert forall|i: int| 0 <= i < l1.len() implies l1[i] == l2[i] by {
            if i > 0 {
                assert(l1[i] == t1[i - 1]);
                assert(l2[i] == t2[i - 1]);
            }
        }
        assert(l1 =~= l2);
    }
}

/// The canonical order is determined by the sample map alone.
pub proof fn lemma_canonical_order_unique(
    l1: Seq<Seq<char>>,
    l2: Seq<Seq<char>>,
    m: Map<usize, String>,
)
    requires
        is_canonical_order(l1, m),
        is_canonical_order(l2, m),
    ensures
        l1 == l2,
{
    assert forall|l: Seq<char>| l1.contains(l) implies l2.contains(l) by {
        assert(map_has_label(m, l));
    }
    assert forall|l: Seq<char>| l2.contains(l) implies l1.contains(l) by {
        assert(map_has_label(m, l));
    }
    lemma_sorted_distinct_unique(l1, l2);
}

/// Collects the entries of the sample map into a vector of pairs:
/// one pair per entry, keys distinct, every key present.
#[verifier::loop_isolation(false)]
fn map_entry_pairs(m: &HashMap<usize, String>) -> (pairs: Vec<(usize, String)>)
    ensures
        pairs@.len() == m@.dom().len(),
        forall|t: int|
            0 <= t < pairs@.len() ==> #[trigger] m@.contains_key(pairs@[t].0) && m@[pairs@[t].0]@
                == pairs@[t].1@,
        forall|t1: int, t2: int| 0 <= t1 < t2 < pairs@.len() ==> pairs@[t1].0 != pairs@[t2].0,
        forall|k: usize|
            #[trigger] m@.contains_key(k) ==> exists|t: int|
                0 <= t < pairs@.len() && #[trigger] pairs@[t].0 == k,
{
    let ghost v = vstd::std_specs::hash::spec_hash_map_iter(m).remaining();
    let mut pairs: Vec<(usize, String)> = Vec::new();
    for p in it: m.iter()
        invariant
            it.seq() == v,
            pairs@.len() == it.index(),
            forall|t: int|
                0 <= t < it.index() ==> #[trigger] pairs@[t].0 == *v[t].0 && pairs@[t].1@
                    == v[t].1@,
    {
        pairs.push((*p.0, p.1.clone()));
    }
    proof {
        assert(pairs@.len() == v.len());
        assert(v.len() == m@.dom().len());
        assert forall|t1: int, t2: int|
            0 <= t1 < t2 < pairs@.len() implies pairs@[t1].0 != pairs@[t2].0 by {
            if pairs@[t1].0 == pairs@[t2].0 {
                assert(m@.contains_key(*v[t1].0) && m@[*v[t1].0] == *v[t1].1);
                assert(m@.contains_key(*v[t2].0) && m@[*v[t2].0] == *v[t2].1);
                assert(*v[t1].0 == *v[t2].0);
                assert(*v[t1].1 == *v[t2].1);
                assert(v[t1] == v[t2]);
                assert(v.no_duplicates());
                assert(false);
            }
        }
        assert forall|k: usize| #[trigger] m@.contains_key(k) implies exists|t: int|
            0 <= t < pairs@.len() && #[trigger] pairs@[t].0 == k by {
            assert(v.contains((&k, &m@[k])));
            let t = choose|t: int| 0 <= t < v.len() && v[t] == (&k, &m@[k]);
            assert(pairs@[t].0 == k);
        }
    }
    pairs
}

/// The canonical population order of the sample map, as strings.
#[verifier::loop_isolation(false)]
pub(crate) fn canonical_labels_exec(m: &HashMap<usize, String>) -> (labels: Vec<String>)
    ensures
        is_canonical_order(views(labels@), m@),
        views(labels@) == canonical_order(m@),
        forall|i: int, j: int| 0 <= i < j < labels@.len() ==> lex_lt(labels@[i]@, labels@[j]@),
{
    let pairs = map_entry_pairs(m);
    let mut vals: Vec<String> = Vec::new();
    let n = pairs.len();
    for t in 0..n
        invariant
            vals@.len() == t,
            forall|u: int| 0 <= u < t ==> #[trigger] vals@[u]@ == pairs@[u].1@,
    {
        vals.push(pairs[t].1.clone());
    }
    let labels = sorted_distinct(vals);
    proof {
        let lv = views(labels@);
        // membership: exactly the labels that appear in the map
        assert forall|l: Seq<char>| lv.contains(l) implies map_has_label(m@, l) by {
            assert(views(vals@).contains(l));
            let u = choose|u: int| 0 <= u < views(vals@).len() && views(vals@)[u] == l;
            assert(vals@[u]@ == l);
            assert(m@.contains_key(pairs@[u].0) && m@[pairs@[u].0]@ == l);
            assert(map_has_label(m@, l));
        }
        assert forall|l: Seq<char>| map_has_label(m@, l) implies lv.contains(l) by {
            let i = choose|i: usize| #[trigger] m@.contains_key(i) && m@[i]@ == l;
            let t = choose|t: int| 0 <= t < pairs@.len() && #[trigger] pairs@[t].0 == i;
            assert(views(vals@)[t] == pairs@[t].1@);
            assert(views(vals@).contains(l));
            assert(lv.contains(l));
        }
        assert forall|i: int, j: int|
            #![trigger lex_lt(lv[i], lv[j])]
            0 <= i < j < lv.len() implies lex_lt(lv[i], lv[j]) by {
            assert(lv[i] == labels@[i]@);
            assert(lv[j] == labels@[j]@);
        }
        assert(is_canonical_order(lv, m@));
        assert(is_canonical_order(canonical_order(m@), m@)) by {
            assert(exists|ls: Seq<Seq<char>>| is_canonical_order(ls, m@)) by {
                assert(is_canonical_order(lv, m@));
            }
        }
        lemma_canonical_order_unique(lv, canonical_order(m@), m@);
    }
    labels
}

/// The haplotype positions of the sample map's prefix of `pairs` up to `t`
/// that carry `label`.
pub open spec fn counted_set(
    m: Map<usize, String>,
    pairs: Seq<(usize, String)>,
    t: int,
    label: Seq<char>,
) -> Set<usize> {
    pop_set(m, label).filter(|i: usize| exists|u: int| 0 <= u < t && pairs[u].0 == i)
}

/// Count of haplotypes per population, one pair per population label, in
/// canonical (ascending) label order.
#[verifier::loop_isolation(false)]
pub fn n_haps_per_pop(sample_map: &HashMap<usize, String>) -> (r: Vec<(String, usize)>)
    ensures
        r@.map_values(|p: (String, usize)| p.0@) == canonical_order(sample_map@),
        is_canonical_order(canonical_order(sample_map@), sample_map@),
        forall|k: int| 0 <= k < r@.len() ==> #[trigger] r@[k].1 == pop_count(sample_map@, r@[k].0@),
{
    let labels = canonical_labels_exec(sample_map);
    let pairs = map_entry_pairs(sample_map);
    let ghost m = sample_map@;
    let mut counts: Vec<usize> = Vec::new();
    let nl = labels.len();
    for k in 0..nl
        invariant
            counts@.len() == k,
            forall|q: int| 0 <= q < k ==> #[trigger] counts@[q] == 0,
    {
        counts.push(0);
    }
    let np = pairs.len();
    proof {
        assert forall|k: int| 0 <= k < counts@.len() implies #[trigger] counts@[k] == counted_set(
            m,
            pairs@,
            0,
            labels@[k]@,
        ).len() by {
            assert(counted_set(m, pairs@, 0, labels@[k]@) =~= Set::<usize>::empty());
        }
    }
    for t in 0..np
        invariant
            counts@.len() == labels@.len(),
            forall|k: int|
                0 <= k < counts@.len() ==> #[trigger] counts@[k] == counted_set(
                    m,
                    pairs@,
                    t as int,
                    labels@[k]@,
                ).len(),
            forall|k: int| 0 <= k < counts@.len() ==> #[trigger] counts@[k] <= t,
    {
        let lab = &pairs[t].1;
        let ghost i = pairs@[t as int].0;
        let ghost lv = pairs@[t as int].1@;
        // find the (unique) index of this label in the canonical order
        let mut k: usize = 0;
        let mut found: bool = false;
        while k < labels.len() && !found
            invariant
                0 <= k <= labels@.len(),
                found ==> k < labels@.len() && labels@[k as int]@ == lv,
                !found ==> forall|q: int| 0 <= q < k ==> labels@[q]@ != lv,
            decreases labels@.len() - k + (if found { 0int } else { 1int }),
        {
            if labels[k] == *lab {
                found = true;
            } else {
                k = k + 1;
            }
        }
        proof {
            // the label of every map entry occurs in the canonical order
            assert(m.contains_key(i));
            assert(m[i]@ == lv);
            assert(is_canonical_order(views(labels@), m));
            assert(map_has_label(m, m[i]@));
            assert(views(labels@).contains(m[i]@));
            if !found {
                let w = choose|w: int| 0 <= w < views(labels@).len() && views(labels@)[w] == lv;
                assert(labels@[w]@ == lv);
                assert(false);
            }
        }
        let ghost old_counts = counts@;
        let c = counts[k];
        counts.set(k, c + 1);
        proof {
            let ki = k as int;
            let ti = t as int;
            // the sets grow only at this label's axis, by exactly this key
            assert forall|q: int| 0 <= q < counts@.len() implies counts@[q] == counted_set(
                m,
                pairs@,
                ti + 1,
                labels@[q]@,
            ).len() by {
                let lq = labels@[q]@;
                if q == ki {
                    assert(counted_set(m, pairs@, ti + 1, lq) =~= counted_set(
                        m,
                        pairs@,
                        ti,
                        lq,
                    ).insert(i)) by {
                        assert(m.contains_key(i) && m[i]@ == lq);
                    }
                    assert(!counted_set(m, pairs@, ti, lq).contains(i)) by {
                        if exists|u: int| 0 <= u < ti && pairs@[u].0 == i {
                            let u = choose|u: int| 0 <= u < ti && pairs@[u].0 == i;
                            assert(pairs@[u].0 != pairs@[ti].0);
                            assert(false);
                        }
                    }
                    assert(counted_set(m, pairs@, ti, lq).finite()) by {
                        assert(m.dom().finite());
                    }
                    assert(counted_set(m, pairs@, ti + 1, lq).len() == counted_set(
                        m,
                        pairs@,
                        ti,
                        lq,
                    ).len() + 1);
                } else {
                    // a strictly sorted order never repeats a label
                    assert(lq != lv) by {
                        if q < ki {
                            assert(lex_lt(labels@[q]@, labels@[ki]@));
                        } else {
                            assert(lex_lt(labels@[ki]@, labels@[q]@));
                        }
                        lemma_lex_lt_irreflexive(lv);
                    }
                    assert(counted_set(m, pairs@, ti + 1, lq) =~= counted_set(m, pairs@, ti, lq))
                        by {
                        assert forall|x: usize|
                            counted_set(m, pairs@, ti + 1, lq).contains(x) implies counted_set(
                            m,
                            pairs@,
                            ti,
                            lq,
                        ).contains(x) by {
                            assert(m[x]@ == lq);
                            if x == i {
                                assert(m[i]@ == lv);
                                assert(false);
                            }
                            let u = choose|u: int| 0 <= u < ti + 1 && pairs@[u].0 == x;
                            assert(u < ti);
                        }
                    }
                    assert(counts@[q] == old_counts[q]);
                }
            }
        }
    }
    proof {
        // after the last entry, every assigned position has been counted
        assert forall|k: int| 0 <= k < counts@.len() implies #[trigger] counts@[k] == pop_count(
            m,
            labels@[k]@,
        ) by {
            let lk = labels@[k]@;
            assert(counted_set(m, pairs@, np as int, lk) =~= pop_set(m, lk)) by {
                assert forall|x: usize| pop_set(m, lk).contains(x) implies counted_set(
                    m,
                    pairs@,
                    np as int,
                    lk,
                ).contains(x) by {
                    assert(m.contains_key(x));
                }
            }
        }
    }
    let mut r: Vec<(String, usize)> = Vec::new();
    let n2 = labels.len();
    for k in 0..n2
        invariant
            r@.len() == k,
            counts@.len() == labels@.len(),
            forall|q: int|
                0 <= q < k ==> #[trigger] r@[q].0@ == labels@[q]@ && r@[q].1 == counts@[q],
    {
        r.push((labels[k].clone(), counts[k]));
    }
    proof {
        assert(r@.map_values(|p: (String, usize)| p.0@) =~= views(labels@));
    }
    r
}

/// The canonical population order with its per-population haplotype
/// counts, the shared axis order of every downstream computation.
pub struct PopulationIndex {
    /// Distinct population labels, ascending.
    pub labels: Vec<String>,
    /// Haplotype count per label, aligned with `labels`.
    pub counts: Vec<usize>,
}

impl PopulationIndex {
    /// The index describes the sample map `m`.
    pub open spec fn wf(&self, m: Map<usize, String>) -> bool {
        &&& views(self.labels@) == canonical_order(m)
        &&& is_canonical_order(views(self.labels@), m)
        &&& self.counts@.len() == self.labels@.len()
        &&& forall|k: int|
            0 <= k < self.counts@.len() ==> #[trigger] self.counts@[k] == pop_count(
                m,
                self.labels@[k]@,
            )
    }
}

/// Derives the canonical population order and haplotype counts from the
/// sample map. An empty sample map has no populations to index and is
/// rejected.
#[verifier::loop_isolation(false)]
pub fn index_populations(sample_map: &HashMap<usize, String>) -> (r: Result<
    PopulationIndex,
    BsfsError,
>)
    ensures
        sample_map@.dom().len() == 0 <==> r == Result::<PopulationIndex, BsfsError>::Err(
            BsfsError::ConfigError,
        ),
        sample_map@.dom().len() > 0 ==> r is Ok && r->Ok_0.wf(sample_map@)
            && r->Ok_0.labels@.len() > 0,
{
    if sample_map.is_empty() {
        return Err(BsfsError::ConfigError);
    }
    let pops = n_haps_per_pop(sample_map);
    let mut labels: Vec<String> = Vec::new();
    let mut counts: Vec<usize> = Vec::new();
    let n = pops.len();
    for k in 0..n
        invariant
            labels@.len() == k,
            counts@.len() == k,
            forall|q: int|
                0 <= q < k ==> #[trigger] labels@[q]@ == pops@[q].0@ && counts@[q] == pops@[q].1,
    {
        labels.push(pops[k].0.clone());
        counts.push(pops[k].1);
    }
    proof {
        let m = sample_map@;
        assert(views(labels@) =~= pops@.map_values(|p: (String, usize)| p.0@));
        assert(views(labels@).len() > 0) by {
            assert(m.dom().len() > 0);
            if views(labels@).len() == 0 {
                let i = m.dom().choose();
                assert(m.dom().contains(i)) by {
                    vstd::set_lib::lemma_set_empty_equivalency_len(m.dom());
                }
                assert(canonical_order(m).contains(m[i]@));
                assert(false);
            }
        }
    }
    Ok(PopulationIndex { labels, counts })
}

proof fn lemma_to_seq_no_dups<A>(s: Set<A>)
    requires
        s.finite(),
    ensures
        s.to_seq().no_duplicates(),
    decreases s.len(),
{
    if s.len() == 0 {
    } else {
        let x = s.choose();
        let rest = s.remove(x);
        lemma_to_seq_no_dups(rest);
        rest.lemma_to_seq_to_set_id();
        let head = Seq::<A>::empty().push(x);
        assert(head.no_duplicates());
        assert forall|i: int, j: int|
            0 <= i < head.len() && 0 <= j < rest.to_seq().len() implies head[i] != rest.to_seq()[j]
            by {
            if head[i] == rest.to_seq()[j] {
                assert(rest.to_seq().contains(x)) by {
                    assert(rest.to_seq()[j] == x);
                }
                assert(rest.to_seq().to_set().contains(x));
                assert(rest.contains(x));
                assert(false);
            }
        }
        vstd::seq_lib::lemma_no_dup_in_concat(head, rest.to_seq());
        assert(s.to_seq() == head + rest.to_seq());
    }
}

/// Every sample map has a canonical population order: the labels that
/// appear in it, sorted ascending without repetition.
pub proof fn lemma_canonical_order_exists(m: Map<usize, String>)
    requires
        m.dom().finite(),
    ensures
        is_canonical_order(canonical_order(m), m),
{
    let leq = |a: Seq<char>, b: Seq<char>| lex_le(a, b);
    lemma_lex_le_total_ordering();
    let f = |i: usize| m[i]@;
    let lset = m.dom().map(f);
    m.dom().lemma_map_finite(f);
    let useq = lset.to_seq();
    lset.lemma_to_seq_to_set_id();
    lemma_to_seq_no_dups(lset);
    let sorted = useq.sort_by(leq);
    useq.lemma_sort_by_ensures(leq);
    useq.to_multiset_ensures();
    sorted.to_multiset_ensures();
    // same members as the label set, still without repetition
    assert forall|l: Seq<char>| sorted.contains(l) <==> lset.contains(l) by {
        assert(sorted.contains(l) <==> sorted.to_multiset().count(l) > 0);
        assert(useq.contains(l) <==> useq.to_multiset().count(l) > 0);
        assert(useq.contains(l) <==> useq.to_set().contains(l));
    }
    useq.lemma_multiset_has_no_duplicates();
    sorted.lemma_multiset_has_no_duplicates_conv();
    // weakly sorted and duplicate-free: strictly ascending
    assert forall|i: int, j: int|
        #![trigger lex_lt(sorted[i], sorted[j])]
        0 <= i < j < sorted.len() implies lex_lt(sorted[i], sorted[j]) by {
        assert(leq(sorted[i], sorted[j]));
        assert(sorted[i] != sorted[j]);
    }
    // its members are exactly the labels of the map
    assert forall|l: Seq<char>|
        #![trigger sorted.contains(l)]
        #![trigger map_has_label(m, l)]
        sorted.contains(l) <==> map_has_label(m, l) by {
        if lset.contains(l) {
            let i = choose|i: usize| m.dom().contains(i) && l == f(i);
            assert(m.contains_key(i) && m[i]@ == l);
            assert(map_has_label(m, l));
        }
        if map_has_label(m, l) {
            let i = choose|i: usize| #[trigger] m.contains_key(i) && m[i]@ == l;
            assert(m.dom().contains(i) && l == f(i));
            assert(lset.contains(l));
        }
    }
    assert(is_canonical_order(sorted, m));
    assert(exists|ls: Seq<Seq<char>>| is_canonical_order(ls, m));
    lemma_canonical_order_unique(sorted, canonical_order(m), m);
}

} // verus!
