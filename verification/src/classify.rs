//! Flattening a site's calls and classifying it into an entry.
//!
//! A site arrives as one call vector per individual. Flattening
//! concatenates those vectors, individual order first and ploidy order
//! within, into one call per haplotype position. Classification counts,
//! for each population in a given order, the haplotype positions assigned
//! to it whose call is derived (non-zero).

use vstd::prelude::*;
use std::collections::HashMap;
use crate::popindex::{
    pop_set, pop_count, is_canonical_order, canonical_order, canonical_labels_exec,
};
use crate::strorder::{lex_lt, lemma_lex_lt_irreflexive, views};
use crate::BsfsError;

verus! {

broadcast use vstd::std_specs::hash::group_hash_axioms;

/// A site's calls in one flat sequence: individuals concatenated in
/// order, each contributing its ploidy vector unchanged.
pub open spec fn flat_of(site: Seq<Seq<u32>>) -> Seq<u32>
    decreases site.len(),
{
    if site.len() == 0 {
        Seq::empty()
    } else {
        site.first() + flat_of(site.drop_first())
    }
}

/// The total number of calls over a site's individuals.
pub open spec fn sum_lens(site: Seq<Seq<u32>>) -> nat
    decreases site.len(),
{
    if site.len() == 0 {
        0
    } else {
        site.first().len() + sum_lens(site.drop_first())
    }
}

/// Flattening is length-additive: the flat sequence is exactly as long
/// as the individuals' call vectors together.
pub proof fn lemma_flatten_length(site: Seq<Seq<u32>>)
    ensures
        flat_of(site).len() == sum_lens(site),
    decreases site.len(),
{
    if site.len() > 0 {
        lemma_flatten_length(site.drop_first());
    }
}

proof fn lemma_flat_of_push(site: Seq<Seq<u32>>, v: Seq<u32>)
    ensures
        flat_of(site.push(v)) == flat_of(site) + v,
    decreases site.len(),
{
    if site.len() == 0 {
        assert(site.push(v).drop_first() =~= site);
        assert(flat_of(site.push(v)) =~= flat_of(site) + v);
    } else {
        assert(site.push(v).drop_first() =~= site.drop_first().push(v));
        lemma_flat_of_push(site.drop_first(), v);
        assert(flat_of(site.push(v)) =~= flat_of(site) + v);
    }
}

/// Flattens one site: the individuals' call vectors concatenated in
/// individual order, ploidy order kept within each individual.
#[verifier::loop_isolation(false)]
pub fn flatten_site(site: Vec<Vec<u32>>) -> (r: Vec<u32>)
    ensures
        r@ == flat_of(site.deep_view()),
        r@.len() == sum_lens(site.deep_view()),
{
    let ghost sv = site.deep_view();
    let mut r: Vec<u32> = Vec::new();
    let n = site.len();
    proof {
        assert(sv.take(0) =~= Seq::<Seq<u32>>::empty());
    }
    for i in 0..n
        invariant
            r@ == flat_of(sv.take(i as int)),
    {
        let ni = site[i].len();
        proof {
            assert(sv[i as int] =~= site@[i as int]@);
        }
        for j in 0..ni
            invariant
                r@ == flat_of(sv.take(i as int)) + sv[i as int].take(j as int),
        {
            r.push(site[i][j]);
            proof {
                assert(sv[i as int].take(j + 1) =~= sv[i as int].take(j as int).push(
                    sv[i as int][j as int],
                ));
                assert(r@ =~= flat_of(sv.take(i as int)) + sv[i as int].take(j + 1));
            }
        }
        proof {
            lemma_flat_of_push(sv.take(i as int), sv[i as int]);
            assert(sv.take(i + 1) =~= sv.take(i as int).push(sv[i as int]));
            assert(sv[i as int].take(ni as int) =~= sv[i as int]);
            assert(r@ =~= flat_of(sv.take(i + 1)));
        }
    }
    proof {
        assert(sv.take(n as int) =~= sv);
        lemma_flatten_length(sv);
    }
    r
}

/// The haplotype positions of the flat site assigned to `label` whose
/// call is derived, looking only at positions below `p`.
pub open spec fn nton_set_upto(
    site: Seq<u32>,
    m: Map<usize, String>,
    label: Seq<char>,
    p: int,
) -> Set<usize> {
    pop_set(m, label).filter(|q: usize| (q as int) < p && site[q as int] != 0)
}

/// The haplotype positions of the flat site assigned to `label` whose
/// call is derived.
pub open spec fn nton_set(site: Seq<u32>, m: Map<usize, String>, label: Seq<char>) -> Set<usize> {
    nton_set_upto(site, m, label, site.len() as int)
}

/// The derived-allele count of the flat site for `label`.
pub open spec fn nton(site: Seq<u32>, m: Map<usize, String>, label: Seq<char>) -> nat {
    nton_set(site, m, label).len()
}

/// The entry of a flat site: its derived-allele count for each canonical
/// population of the sample map, in canonical order.
pub open spec fn entry_of(site: Seq<u32>, m: Map<usize, String>) -> Seq<nat> {
    canonical_order(m).map_values(|l: Seq<char>| nton(site, m, l))
}

/// A population's derived count never exceeds its haplotype count.
pub proof fn lemma_nton_le_pop_count(site: Seq<u32>, m: Map<usize, String>, label: Seq<char>)
    requires
        m.dom().finite(),
    ensures
        nton(site, m, label) <= pop_count(m, label),
{
    assert(pop_set(m, label).finite());
    assert(nton_set(site, m, label).finite());
    assert(nton_set(site, m, label).subset_of(pop_set(m, label)));
    vstd::set_lib::lemma_len_subset(nton_set(site, m, label), pop_set(m, label));
}

/// A population without assigned haplotypes always counts zero: its
/// coordinate is zero for every site, and its matrix axis has a single
/// point. This is valid, never an error.
pub proof fn lemma_empty_population(site: Seq<u32>, m: Map<usize, String>, label: Seq<char>)
    requires
        m.dom().finite(),
        pop_count(m, label) == 0,
    ensures
        nton(site, m, label) == 0,
        pop_count(m, label) + 1 == 1,
{
    lemma_nton_le_pop_count(site, m, label);
}

/// The sum of a sequence of counts.
pub open spec fn sum_seq(s: Seq<nat>) -> nat
    decreases s.len(),
{
    if s.len() == 0 {
        0
    } else {
        s.first() + sum_seq(s.drop_first())
    }
}

proof fn lemma_disjoint_count(
    site: Seq<u32>,
    m: Map<usize, String>,
    labels: Seq<Seq<char>>,
    d: Set<usize>,
)
    requires
        d.finite(),
        forall|i: int, j: int| 0 <= i < j < labels.len() ==> labels[i] != labels[j],
        forall|k: int|
            0 <= k < labels.len() ==> (#[trigger] nton_set(site, m, labels[k])).subset_of(d),
    ensures
        sum_seq(labels.map_values(|l: Seq<char>| nton(site, m, l))) <= d.len(),
    decreases labels.len(),
{
    let counts = labels.map_values(|l: Seq<char>| nton(site, m, l));
    if labels.len() == 0 {
        assert(sum_seq(counts) == 0);
    } else {
        let l0 = labels[0];
        let s0 = nton_set(site, m, l0);
        let rest = labels.drop_first();
        let d2 = d.difference(s0);
        assert(s0.subset_of(d));
        assert(s0.finite());
        assert(d2.finite());
        assert forall|k: int|
            0 <= k < rest.len() implies (#[trigger] nton_set(site, m, rest[k])).subset_of(d2) by {
            assert(rest[k] == labels[k + 1]);
            assert(nton_set(site, m, labels[k + 1]).subset_of(d));
            assert forall|x: usize|
                nton_set(site, m, rest[k]).contains(x) implies d2.contains(x) by {
                assert(m[x]@ == rest[k]);
                assert(labels[0] != labels[k + 1]);
                if s0.contains(x) {
                    assert(m[x]@ == l0);
                    assert(false);
                }
            }
        }
        lemma_disjoint_count(site, m, rest, d2);
        assert(s0 + d2 =~= d);
        vstd::set_lib::lemma_set_disjoint_lens(s0, d2);
        assert(d.len() == s0.len() + d2.len());
        assert(counts.drop_first() =~= rest.map_values(|l: Seq<char>| nton(site, m, l)));
        assert(counts.first() == s0.len());
        assert(sum_seq(counts) == s0.len() + sum_seq(counts.drop_first()));
    }
}

/// Over distinct populations, the summed entry never exceeds the number
/// of mapped haplotypes: each position is counted for at most one
/// population.
pub proof fn lemma_entry_sum_le_total(site: Seq<u32>, m: Map<usize, String>, labels: Seq<Seq<char>>)
    requires
        m.dom().finite(),
        forall|i: int, j: int| 0 <= i < j < labels.len() ==> labels[i] != labels[j],
    ensures
        sum_seq(labels.map_values(|l: Seq<char>| nton(site, m, l))) <= m.dom().len(),
{
    assert forall|k: int|
        0 <= k < labels.len() implies (#[trigger] nton_set(site, m, labels[k])).subset_of(
        m.dom(),
    ) by {
        assert forall|x: usize| nton_set(site, m, labels[k]).contains(x) implies m.dom().contains(
            x,
        ) by {
        }
    }
    lemma_disjoint_count(site, m, labels, m.dom());
}

/// A canonical order never repeats a label.
pub proof fn lemma_canonical_distinct(labels: Seq<Seq<char>>, m: Map<usize, String>)
    requires
        is_canonical_order(labels, m),
    ensures
        forall|i: int, j: int| 0 <= i < j < labels.len() ==> labels[i] != labels[j],
{
    assert forall|i: int, j: int| 0 <= i < j < labels.len() implies labels[i] != labels[j] by {
        assert(lex_lt(labels[i], labels[j]));
        if labels[i] == labels[j] {
            lemma_lex_lt_irreflexive(labels[i]);
        }
    }
}

/// Classifies a flat site against an explicit population order: one
/// count per population, each the number of derived calls at positions
/// assigned to that population. Positions without a sample-map entry are
/// never counted.
#[verifier::loop_isolation(false)]
pub fn classify_with(
    site: &Vec<u32>,
    sample_map: &HashMap<usize, String>,
    population_order: &Vec<String>,
) -> (r: Vec<usize>)
    ensures
        r@.len() == population_order@.len(),
        forall|k: int|
            0 <= k < r@.len() ==> #[trigger] r@[k] == nton(site@, sample_map@, population_order@[k]@),
{
    let ghost m = sample_map@;
    let mut r: Vec<usize> = Vec::new();
    let npop = population_order.len();
    for k in 0..npop
        invariant
            r@.len() == k,
            forall|q: int|
                0 <= q < k ==> #[trigger] r@[q] == nton(site@, m, population_order@[q]@),
    {
        let label = &population_order[k];
        let ghost lk = population_order@[k as int]@;
        let mut c: usize = 0;
        let n = site.len();
        proof {
            assert(nton_set_upto(site@, m, lk, 0) =~= Set::<usize>::empty());
        }
        for p in 0..n
            invariant
                c == nton_set_upto(site@, m, lk, p as int).len(),
                c <= p,
        {
            let counted: bool = match sample_map.get(&p) {
                Some(pop) => *pop == *label && site[p] != 0,
                None => false,
            };
            proof {
                if counted {
                    assert(m.contains_key(p) && m[p]@ == lk && site@[p as int] != 0);
                    assert(nton_set_upto(site@, m, lk, p + 1) =~= nton_set_upto(
                        site@,
                        m,
                        lk,
                        p as int,
                    ).insert(p));
                    assert(!nton_set_upto(site@, m, lk, p as int).contains(p));
                    assert(nton_set_upto(site@, m, lk, p as int).finite()) by {
                        assert(m.dom().finite());
                    }
                    assert(nton_set_upto(site@, m, lk, p + 1).len() == c + 1);
                } else {
                    assert(nton_set_upto(site@, m, lk, p + 1) =~= nton_set_upto(
                        site@,
                        m,
                        lk,
                        p as int,
                    ));
                }
            }
            if counted {
                c = c + 1;
            }
        }
        r.push(c);
    }
    r
}

/// The entry of one flat site, classified against the canonical
/// population order derived from the sample map itself. Positions
/// without a sample-map entry are silently excluded from every count.
pub fn site_to_entry(site: Vec<u32>, sample_map: &HashMap<usize, String>) -> (r: Vec<usize>)
    ensures
        r@.len() == entry_of(site@, sample_map@).len(),
        forall|k: int| 0 <= k < r@.len() ==> #[trigger] r@[k] == entry_of(site@, sample_map@)[k],
        is_canonical_order(canonical_order(sample_map@), sample_map@),
{
    let populations = canonical_labels_exec(sample_map);
    let r = classify_with(&site, sample_map, &populations);
    proof {
        let m = sample_map@;
        assert(views(populations@).len() == canonical_order(m).len());
        assert forall|k: int| 0 <= k < r@.len() implies #[trigger] r@[k] == entry_of(site@, m)[k]
            by {
            assert(views(populations@)[k] == populations@[k]@);
            assert(canonical_order(m)[k] == populations@[k]@);
            assert(entry_of(site@, m)[k] == nton(site@, m, canonical_order(m)[k]));
        }
    }
    r
}

/// The entry of one flat site under strict validation: a haplotype
/// position without a sample-map entry is an error naming the first such
/// position, and no entry is produced.
#[verifier::loop_isolation(false)]
pub fn site_to_entry_strict(site: Vec<u32>, sample_map: &HashMap<usize, String>) -> (r: Result<
    Vec<usize>,
    BsfsError,
>)
    ensures
        (forall|p: usize| (p as int) < site@.len() ==> #[trigger] sample_map@.contains_key(p))
            <==> r is Ok,
        r is Ok ==> {
            let e = r->Ok_0;
            &&& e@.len() == entry_of(site@, sample_map@).len()
            &&& forall|k: int| 0 <= k < e@.len() ==> #[trigger] e@[k] == entry_of(site@, sample_map@)[k]
        },
        r is Err ==> exists|p0: usize|
            r == Result::<Vec<usize>, BsfsError>::Err(BsfsError::IndexError(p0))
            && (p0 as int) < site@.len() && !(#[trigger] sample_map@.contains_key(p0))
            && forall|q: usize| q < p0 ==> #[trigger] sample_map@.contains_key(q),
{
    let n = site.len();
    for p in 0..n
        invariant
            forall|q: usize| q < p ==> #[trigger] sample_map@.contains_key(q),
    {
        if !sample_map.contains_key(&p) {
            return Err(BsfsError::IndexError(p));
        }
    }
    Ok(site_to_entry(site, sample_map))
}

/// The classified entry of a site is bounded: each coordinate by its
/// population's haplotype count, and the coordinates together by the
/// number of mapped haplotypes.
pub proof fn lemma_entry_bounds(site: Seq<u32>, m: Map<usize, String>)
    requires
        m.dom().finite(),
    ensures
        forall|k: int|
            0 <= k < entry_of(site, m).len() ==> #[trigger] entry_of(site, m)[k] <= pop_count(
                m,
                canonical_order(m)[k],
            ),
        sum_seq(entry_of(site, m)) <= m.dom().len(),
{
    crate::popindex::lemma_canonical_order_exists(m);
    let labels = canonical_order(m);
    assert forall|k: int|
        0 <= k < entry_of(site, m).len() implies #[trigger] entry_of(site, m)[k] <= pop_count(
        m,
        labels[k],
    ) by {
        lemma_nton_le_pop_count(site, m, labels[k]);
    }
    lemma_canonical_distinct(labels, m);
    lemma_entry_sum_le_total(site, m, labels);
    assert(labels.map_values(|l: Seq<char>| nton(site, m, l)) == entry_of(site, m));
}

} // verus!
