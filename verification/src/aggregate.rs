//! Block aggregation: the entry list and the bSFS count matrix.
//!
//! A block is an ordered sequence of sites. Indices mode classifies each
//! site and returns the entries in site order. Matrix mode folds the
//! same entries into a dense count matrix with one axis per population,
//! axis `k` sized one more than population `k`'s haplotype count. The
//! matrix is stored flat in row-major order, the last axis fastest.

use vstd::prelude::*;
use std::collections::HashMap;
use crate::popindex::{
    pop_count, is_canonical_order, canonical_order, index_populations, PopulationIndex,
};
use crate::classify::{
    flat_of, entry_of, nton, site_to_entry, flatten_site, classify_with, sum_lens, sum_seq,
    lemma_nton_le_pop_count,
};
use crate::popindex::canonical_labels_exec;
use crate::strorder::views;
use crate::BsfsError;

verus! {

broadcast use vstd::std_specs::hash::group_hash_axioms, vstd::std_specs::vec::group_vec_axioms;

/// The number of cells of a matrix with the given axis sizes.
pub open spec fn prod(d: Seq<nat>) -> nat
    decreases d.len(),
{
    if d.len() == 0 {
        1
    } else {
        prod(d.drop_last()) * d.last()
    }
}

/// The row-major flat position of multi-index `e` in a matrix with axis
/// sizes `d`, the last axis fastest.
pub open spec fn flat_index(e: Seq<nat>, d: Seq<nat>) -> nat
    decreases e.len(),
{
    if e.len() == 0 {
        0
    } else {
        flat_index(e.drop_last(), d.drop_last()) * d.last() + e.last()
    }
}

/// `e` is a valid multi-index for axis sizes `d`.
pub open spec fn entry_valid(e: Seq<nat>, d: Seq<nat>) -> bool {
    e.len() == d.len() && forall|k: int| 0 <= k < e.len() ==> e[k] < d[k]
}

/// All-zero cells for a matrix with axis sizes `d`.
pub open spec fn zero_cells(n: nat) -> Seq<nat> {
    Seq::new(n, |i: int| 0nat)
}

/// The cells after folding each entry of `entries` in turn into an
/// all-zero matrix: every entry increments its own cell by one.
pub open spec fn accum(entries: Seq<Seq<nat>>, d: Seq<nat>) -> Seq<nat>
    decreases entries.len(),
{
    if entries.len() == 0 {
        zero_cells(prod(d))
    } else {
        let c = accum(entries.drop_last(), d);
        let f = flat_index(entries.last(), d) as int;
        c.update(f, (c[f] + 1) as nat)
    }
}

/// How many of the entries land on flat position `f`.
pub open spec fn count_flat(entries: Seq<Seq<nat>>, d: Seq<nat>, f: nat) -> nat
    decreases entries.len(),
{
    if entries.len() == 0 {
        0
    } else {
        count_flat(entries.drop_last(), d, f) + (if flat_index(entries.last(), d) == f {
            1nat
        } else {
            0nat
        })
    }
}

/// A valid multi-index lands strictly inside the matrix.
pub proof fn lemma_flat_index_bound(e: Seq<nat>, d: Seq<nat>)
    requires
        entry_valid(e, d),
    ensures
        flat_index(e, d) < prod(d),
    decreases e.len(),
{
    if e.len() == 0 {
    } else {
        let e2 = e.drop_last();
        let d2 = d.drop_last();
        assert(entry_valid(e2, d2)) by {
            assert(forall|k: int| 0 <= k < e2.len() ==> e2[k] == e[k] && d2[k] == d[k]);
        }
        lemma_flat_index_bound(e2, d2);
        assert(flat_index(e2, d2) * d.last() + e.last() < prod(d2) * d.last()) by (nonlinear_arith)
            requires
                flat_index(e2, d2) < prod(d2),
                e.last() < d.last(),
        {}
    }
}

/// The matrix has exactly one cell per point of the axis box.
pub proof fn lemma_accum_len(entries: Seq<Seq<nat>>, d: Seq<nat>)
    requires
        forall|s: int| 0 <= s < entries.len() ==> entry_valid(#[trigger] entries[s], d),
    ensures
        accum(entries, d).len() == prod(d),
    decreases entries.len(),
{
    if entries.len() > 0 {
        let rest = entries.drop_last();
        assert(forall|s: int| 0 <= s < rest.len() ==> entry_valid(#[trigger] rest[s], d));
        lemma_accum_len(rest, d);
        assert(entry_valid(entries.last(), d));
        lemma_flat_index_bound(entries.last(), d);
    }
}

proof fn lemma_sum_update(s: Seq<nat>, i: int, v: nat)
    requires
        0 <= i < s.len(),
    ensures
        sum_seq(s.update(i, v)) + s[i] == sum_seq(s) + v,
    decreases s.len(),
{
    if i == 0 {
        assert(s.update(0, v).drop_first() =~= s.drop_first());
        assert(s.update(0, v).first() == v);
    } else {
        assert(s.update(i, v).drop_first() =~= s.drop_first().update(i - 1, v));
        assert(s.update(i, v).first() == s.first());
        lemma_sum_update(s.drop_first(), i - 1, v);
    }
}

proof fn lemma_sum_zero(n: nat)
    ensures
        sum_seq(zero_cells(n)) == 0,
    decreases n,
{
    if n > 0 {
        assert(zero_cells(n).drop_first() =~= zero_cells((n - 1) as nat));
        lemma_sum_zero((n - 1) as nat);
    }
}

/// The matrix total equals the number of sites folded in: every site
/// increments exactly one cell, none is dropped or counted twice.
pub proof fn lemma_matrix_total(entries: Seq<Seq<nat>>, d: Seq<nat>)
    requires
        forall|s: int| 0 <= s < entries.len() ==> entry_valid(#[trigger] entries[s], d),
    ensures
        sum_seq(accum(entries, d)) == entries.len(),
    decreases entries.len(),
{
    if entries.len() == 0 {
        lemma_sum_zero(prod(d));
    } else {
        let rest = entries.drop_last();
        assert(forall|s: int| 0 <= s < rest.len() ==> entry_valid(#[trigger] rest[s], d));
        lemma_matrix_total(rest, d);
        let c = accum(rest, d);
        let f = flat_index(entries.last(), d) as int;
        assert(entry_valid(entries.last(), d));
        lemma_flat_index_bound(entries.last(), d);
        lemma_accum_len(rest, d);
        lemma_sum_update(c, f, (c[f] + 1) as nat);
    }
}

/// Each cell of the matrix holds the number of sites whose entry lands
/// on it: folding the entries one at a time counts them per cell.
pub proof fn lemma_accum_counts(entries: Seq<Seq<nat>>, d: Seq<nat>, f: nat)
    requires
        f < prod(d),
        forall|s: int| 0 <= s < entries.len() ==> entry_valid(#[trigger] entries[s], d),
    ensures
        accum(entries, d)[f as int] == count_flat(entries, d, f),
    decreases entries.len(),
{
    if entries.len() > 0 {
        let rest = entries.drop_last();
        assert(forall|s: int| 0 <= s < rest.len() ==> entry_valid(#[trigger] rest[s], d));
        lemma_accum_counts(rest, d, f);
        lemma_accum_len(rest, d);
        assert(entry_valid(entries.last(), d));
        lemma_flat_index_bound(entries.last(), d);
    }
}

/// The per-population axis sizes of the sample map's bSFS matrix: one
/// more than each population's haplotype count, in canonical order.
pub open spec fn dims_of(m: Map<usize, String>) -> Seq<nat> {
    canonical_order(m).map_values(|l: Seq<char>| (pop_count(m, l) + 1) as nat)
}

/// The entries of a block: each site flattened and classified, in site
/// order.
pub open spec fn entries_of(calls: Seq<Seq<Seq<u32>>>, m: Map<usize, String>) -> Seq<Seq<nat>> {
    calls.map_values(|site: Seq<Seq<u32>>| entry_of(flat_of(site), m))
}

proof fn lemma_prod_take(d: Seq<nat>, k: int)
    requires
        0 <= k < d.len(),
    ensures
        prod(d.take(k + 1)) == prod(d.take(k)) * d[k],
    decreases d.len(),
{
    assert(d.take(k + 1).drop_last() =~= d.take(k));
    assert(d.take(k + 1).last() == d[k]);
}

proof fn lemma_prod_prefix_le(d: Seq<nat>, k: int)
    requires
        0 <= k <= d.len(),
        forall|q: int| 0 <= q < d.len() ==> d[q] >= 1,
    ensures
        prod(d.take(k)) <= prod(d),
    decreases d.len() - k,
{
    if k == d.len() {
        assert(d.take(k) =~= d);
    } else {
        lemma_prod_take(d, k);
        assert(prod(d.take(k)) <= prod(d.take(k + 1))) by (nonlinear_arith)
            requires
                prod(d.take(k + 1)) == prod(d.take(k)) * d[k],
                d[k] >= 1,
        {}
        lemma_prod_prefix_le(d, k + 1);
    }
}

/// A sequence of machine counts as mathematical counts.
pub open spec fn nat_seq(s: Seq<usize>) -> Seq<nat> {
    s.map_values(|x: usize| x as nat)
}

/// Indices mode: every site of the block flattened and classified, in
/// site order; no site is dropped or classified twice. Performs no
/// validation: `bsfs_indices_checked` refuses sites whose haplotype
/// count disagrees with the sample map's, and `bsfs_indices_strict`
/// additionally refuses haplotype positions without a sample-map entry.
#[verifier::loop_isolation(false)]
pub fn bsfs_indices(calls: Vec<Vec<Vec<u32>>>, sample_map: HashMap<usize, String>) -> (r: Vec<
    Vec<usize>,
>)
    ensures
        r@.len() == calls.deep_view().len(),
        forall|s: int|
            0 <= s < r@.len() ==> (#[trigger] r@[s])@.len() == entries_of(
                calls.deep_view(),
                sample_map@,
            )[s].len(),
        forall|s: int, k: int|
            0 <= s < r@.len() && 0 <= k < r@[s]@.len() ==> (#[trigger] r@[s]@[k]) as nat
                == entries_of(calls.deep_view(), sample_map@)[s][k],
{
    let ghost cv = calls.deep_view();
    let ghost m = sample_map@;
    let mut r: Vec<Vec<usize>> = Vec::new();
    let n = calls.len();
    for s in 0..n
        invariant
            r@.len() == s,
            forall|q: int| 0 <= q < s ==> (#[trigger] r@[q])@.len() == entries_of(cv, m)[q].len(),
            forall|q: int, k: int|
                0 <= q < s && 0 <= k < r@[q]@.len() ==> (#[trigger] r@[q]@[k]) as nat
                    == entries_of(cv, m)[q][k],
    {
        let site = calls[s].clone();
        proof {
            assert(site.deep_view() =~= cv[s as int]);
        }
        let flat = flatten_site(site);
        let entry = site_to_entry(flat, &sample_map);
        proof {
            assert(entries_of(cv, m)[s as int] == entry_of(flat_of(cv[s as int]), m));
        }
        r.push(entry);
    }
    r
}

/// A dense bSFS count matrix: one axis per population in canonical
/// order, cells flat in row-major order with the last axis fastest.
pub struct BsfsMatrix {
    /// Axis sizes: one more than each population's haplotype count.
    pub dims: Vec<usize>,
    /// Cell counts, `prod(dims)` of them.
    pub cells: Vec<usize>,
}

impl BsfsMatrix {
    /// The cells hold one count per point of the axis box.
    pub open spec fn wf(&self) -> bool {
        self.cells@.len() == prod(nat_seq(self.dims@))
    }

    /// The count stored at multi-index `entry`.
    pub fn get(&self, entry: &Vec<usize>) -> (c: usize)
        requires
            self.wf(),
            entry_valid(nat_seq(entry@), nat_seq(self.dims@)),
        ensures
            c as nat == nat_seq(self.cells@)[flat_index(nat_seq(entry@), nat_seq(self.dims@)) as int],
    {
        let ghost dn = nat_seq(self.dims@);
        let total = self.cells.len();
        proof {
            assert(total == prod(dn));
            lemma_flat_index_bound(nat_seq(entry@), dn);
        }
        let f = flat_index_exec(entry, &self.dims);
        self.cells[f]
    }

    /// The total of all cells.
    pub fn total(&self) -> (t: usize)
        requires
            sum_seq(nat_seq(self.cells@)) <= usize::MAX,
        ensures
            t as nat == sum_seq(nat_seq(self.cells@)),
    {
        let mut t: usize = 0;
        let n = self.cells.len();
        proof {
            assert(nat_seq(self.cells@).take(0) =~= Seq::<nat>::empty());
        }
        for f in 0..n
            invariant
                n == self.cells@.len(),
                t as nat == sum_seq(nat_seq(self.cells@).take(f as int)),
                sum_seq(nat_seq(self.cells@)) <= usize::MAX,
        {
            proof {
                lemma_sum_take_step(nat_seq(self.cells@), f as int);
                lemma_sum_take_le(nat_seq(self.cells@), f + 1);
                assert(nat_seq(self.cells@)[f as int] == self.cells@[f as int] as nat);
            }
            t = t + self.cells[f];
        }
        proof {
            assert(nat_seq(self.cells@).take(n as int) =~= nat_seq(self.cells@));
        }
        t
    }
}

/// The sum over a prefix grows by the next element.
proof fn lemma_sum_take_step(s: Seq<nat>, f: int)
    requires
        0 <= f < s.len(),
    ensures
        sum_seq(s.take(f + 1)) == sum_seq(s.take(f)) + s[f],
    decreases f,
{
    if f == 0 {
        assert(s.take(1).drop_first() =~= s.take(0));
        assert(s.take(1).first() == s[0]);
    } else {
        assert(s.take(f + 1).drop_first() =~= s.drop_first().take(f));
        assert(s.take(f).drop_first() =~= s.drop_first().take(f - 1));
        lemma_sum_take_step(s.drop_first(), f - 1);
    }
}

/// A prefix never sums to more than the whole.
proof fn lemma_sum_take_le(s: Seq<nat>, f: int)
    requires
        0 <= f <= s.len(),
    ensures
        sum_seq(s.take(f)) <= sum_seq(s),
    decreases s.len() - f,
{
    if f == s.len() {
        assert(s.take(f) =~= s);
    } else {
        lemma_sum_take_step(s, f);
        lemma_sum_take_le(s, f + 1);
    }
}

/// The row-major flat position of `entry` in a matrix with axis sizes
/// `dims`, by Horner's rule.
#[verifier::loop_isolation(false)]
fn flat_index_exec(entry: &Vec<usize>, dims: &Vec<usize>) -> (f: usize)
    requires
        entry_valid(nat_seq(entry@), nat_seq(dims@)),
        prod(nat_seq(dims@)) <= usize::MAX,
    ensures
        f as nat == flat_index(nat_seq(entry@), nat_seq(dims@)),
{
    let ghost en = nat_seq(entry@);
    let ghost dn = nat_seq(dims@);
    let mut f: usize = 0;
    let nk = entry.len();
    proof {
        assert(en.take(0) =~= Seq::<nat>::empty());
        assert(dn.take(0) =~= Seq::<nat>::empty());
        assert(forall|q: int| 0 <= q < dn.len() ==> dn[q] >= 1);
    }
    for k in 0..nk
        invariant
            f as nat == flat_index(en.take(k as int), dn.take(k as int)),
            (f as nat) < prod(dn.take(k as int)),
    {
        proof {
            lemma_prod_take(dn, k as int);
            lemma_prod_prefix_le(dn, k + 1);
            assert((f as nat) * dn[k as int] + en[k as int] < prod(dn.take(k + 1))) by (
            nonlinear_arith)
                requires
                    (f as nat) < prod(dn.take(k as int)),
                    en[k as int] < dn[k as int],
                    prod(dn.take(k + 1)) == prod(dn.take(k as int)) * dn[k as int],
            {}
            assert(prod(dn.take(k + 1)) <= prod(dn));
            assert(en.take(k + 1).drop_last() =~= en.take(k as int));
            assert(dn.take(k + 1).drop_last() =~= dn.take(k as int));
            assert(en[k as int] == entry@[k as int] as nat);
            assert(dn[k as int] == dims@[k as int] as nat);
        }
        f = f * dims[k] + entry[k];
    }
    proof {
        assert(en.take(nk as int) =~= en);
        assert(dn.take(nk as int) =~= dn);
    }
    f
}

proof fn lemma_prod_pos(d: Seq<nat>)
    requires
        forall|q: int| 0 <= q < d.len() ==> d[q] >= 1,
    ensures
        prod(d) >= 1,
    decreases d.len(),
{
    if d.len() > 0 {
        let d2 = d.drop_last();
        assert(forall|q: int| 0 <= q < d2.len() ==> d2[q] >= 1);
        lemma_prod_pos(d2);
        assert(prod(d2) * d.last() >= 1) by (nonlinear_arith)
            requires
                prod(d2) >= 1,
                d.last() >= 1,
        {}
    }
}

proof fn lemma_prod_ge_elem(d: Seq<nat>, k: int)
    requires
        0 <= k < d.len(),
        forall|q: int| 0 <= q < d.len() ==> d[q] >= 1,
    ensures
        prod(d) >= d[k],
{
    lemma_prod_take(d, k);
    assert(forall|q: int| 0 <= q < d.take(k).len() ==> d.take(k)[q] >= 1);
    lemma_prod_pos(d.take(k));
    assert(prod(d.take(k + 1)) >= d[k]) by (nonlinear_arith)
        requires
            prod(d.take(k + 1)) == prod(d.take(k)) * d[k],
            prod(d.take(k)) >= 1,
    {}
    lemma_prod_prefix_le(d, k + 1);
}

/// Matrix mode: the block's entries folded into a dense count matrix.
/// An empty sample map has no populations and is rejected; a site whose
/// haplotype count disagrees with the sample map's is refused naming the
/// first such site; a matrix with more cells than the machine can
/// address is refused rather than silently wrapped. No partial matrix
/// is ever returned.
#[verifier::loop_isolation(false)]
pub fn bsfs_matrix(calls: Vec<Vec<Vec<u32>>>, sample_map: HashMap<usize, String>) -> (r: Result<
    BsfsMatrix,
    BsfsError,
>)
    ensures
        sample_map@.dom().len() == 0 <==> r == Result::<BsfsMatrix, BsfsError>::Err(
            BsfsError::ConfigError,
        ),
        sample_map@.dom().len() > 0 && !block_conforms(calls.deep_view(), sample_map@) ==> (
        exists|s0: usize|
            {
                &&& r == Result::<BsfsMatrix, BsfsError>::Err(BsfsError::ShapeError(s0))
                &&& (s0 as int) < calls.deep_view().len()
                &&& sum_lens(calls.deep_view()[s0 as int]) != sample_map@.dom().len()
                &&& forall|q: int|
                    0 <= q < s0 ==> sum_lens(#[trigger] calls.deep_view()[q])
                        == sample_map@.dom().len()
            }),
        sample_map@.dom().len() > 0 && block_conforms(calls.deep_view(), sample_map@) ==> ((prod(
            dims_of(sample_map@),
        ) > usize::MAX) <==> r == Result::<BsfsMatrix, BsfsError>::Err(BsfsError::OverflowError)),
        r is Ok <==> (sample_map@.dom().len() > 0 && block_conforms(calls.deep_view(), sample_map@)
            && prod(dims_of(sample_map@)) <= usize::MAX),
        r is Ok ==> ({
            let mat = r->Ok_0;
            let m = sample_map@;
            &&& mat.dims@.len() == dims_of(m).len()
            &&& forall|k: int|
                0 <= k < mat.dims@.len() ==> (#[trigger] mat.dims@[k]) as nat == dims_of(m)[k]
            &&& mat.wf()
            &&& mat.cells@.len() == prod(dims_of(m))
            &&& forall|f: int|
                0 <= f < mat.cells@.len() ==> (#[trigger] mat.cells@[f]) as nat == accum(
                    entries_of(calls.deep_view(), m),
                    dims_of(m),
                )[f]
        }),
{
    let ghost m = sample_map@;
    let ghost cv = calls.deep_view();
    let ghost dn = dims_of(m);
    let index = match index_populations(&sample_map) {
        Err(_) => {
            return Err(BsfsError::ConfigError);
        },
        Ok(ix) => ix,
    };
    // shape validation: every site must flatten to the map's haplotype
    // count, else the block is refused at its first offending site
    let n_inds = sample_map.len();
    let nsites = calls.len();
    for s in 0..nsites
        invariant
            forall|q: int| 0 <= q < s ==> sum_lens(#[trigger] cv[q]) == m.dom().len(),
    {
        let site = calls[s].clone();
        proof {
            assert(site.deep_view() =~= cv[s as int]);
        }
        let flat = flatten_site(site);
        if flat.len() != n_inds {
            proof {
                assert(sum_lens(cv[s as int]) != m.dom().len());
            }
            return Err(BsfsError::ShapeError(s));
        }
    }
    proof {
        assert(index.wf(m));
        assert(views(index.labels@).len() == canonical_order(m).len());
        assert forall|k: int| 0 <= k < dn.len() implies #[trigger] dn[k] == index.counts@[k] + 1
            by {
            assert(views(index.labels@)[k] == index.labels@[k]@);
            assert(canonical_order(m)[k] == index.labels@[k]@);
            assert(dn[k] == pop_count(m, canonical_order(m)[k]) + 1);
        }
        assert(dn.len() == index.counts@.len());
        assert(forall|q: int| 0 <= q < dn.len() ==> #[trigger] dn[q] >= 1);
    }
    let mut dims: Vec<usize> = Vec::new();
    let npop = index.counts.len();
    for k in 0..npop
        invariant
            dims@.len() == k,
            forall|q: int| 0 <= q < k ==> (#[trigger] dims@[q]) as nat == dn[q],
    {
        let c = index.counts[k];
        if c == usize::MAX {
            proof {
                assert(dn[k as int] == c as nat + 1);
                lemma_prod_ge_elem(dn, k as int);
                assert(prod(dn) > usize::MAX);
            }
            return Err(BsfsError::OverflowError);
        }
        dims.push(c + 1);
    }
    let mut total: usize = 1;
    proof {
        assert(dn.take(0) =~= Seq::<nat>::empty());
    }
    for k in 0..npop
        invariant
            dims@.len() == npop as int,
            forall|q: int| 0 <= q < npop ==> (#[trigger] dims@[q]) as nat == dn[q],
            total as nat == prod(dn.take(k as int)),
    {
        proof {
            lemma_prod_take(dn, k as int);
        }
        total = match total.checked_mul(dims[k]) {
            Some(t) => t,
            None => {
                proof {
                    assert(prod(dn.take(k + 1)) > usize::MAX);
                    lemma_prod_prefix_le(dn, k + 1);
                }
                return Err(BsfsError::OverflowError);
            },
        };
    }
    proof {
        assert(dn.take(npop as int) =~= dn);
        assert(total as nat == prod(dn));
    }
    let mut cells: Vec<usize> = Vec::new();
    for i in 0..total
        invariant
            cells@.len() == i,
            forall|f: int| 0 <= f < i ==> (#[trigger] cells@[f]) == 0,
    {
        cells.push(0);
    }
    proof {
        assert(nat_seq(dims@) =~= dn);
        // every site's entry fits inside the axis box
        assert forall|s: int|
            0 <= s < cv.len() implies entry_valid(#[trigger] entries_of(cv, m)[s], dn) by {
            let e = entries_of(cv, m)[s];
            assert(e == entry_of(flat_of(cv[s]), m));
            assert(e.len() == canonical_order(m).len());
            assert forall|k: int| 0 <= k < e.len() implies e[k] < dn[k] by {
                assert(e[k] == nton(flat_of(cv[s]), m, canonical_order(m)[k]));
                assert(m.dom().finite());
                lemma_nton_le_pop_count(flat_of(cv[s]), m, canonical_order(m)[k]);
                assert(dn[k] == pop_count(m, canonical_order(m)[k]) + 1);
            }
        }
        assert forall|f: int|
            0 <= f < cells@.len() implies (#[trigger] cells@[f]) as nat == accum(
            entries_of(cv, m).take(0),
            dn,
        )[f] by {
            assert(entries_of(cv, m).take(0) =~= Seq::<Seq<nat>>::empty());
        }
    }
    let ns = calls.len();
    for s in 0..ns
        invariant
            cells@.len() == prod(dn),
            total as nat == prod(dn),
            forall|f: int|
                0 <= f < cells@.len() ==> (#[trigger] cells@[f]) as nat == accum(
                    entries_of(cv, m).take(s as int),
                    dn,
                )[f],
            forall|f: int| 0 <= f < cells@.len() ==> (#[trigger] cells@[f]) <= s,
    {
        let site = calls[s].clone();
        proof {
            assert(site.deep_view() =~= cv[s as int]);
        }
        let flat = flatten_site(site);
        let entry = site_to_entry(flat, &sample_map);
        let ghost en = nat_seq(entry@);
        proof {
            assert(en =~= entries_of(cv, m)[s as int]) by {
                assert(entries_of(cv, m)[s as int] == entry_of(flat_of(cv[s as int]), m));
                assert(en.len() == entry@.len());
                assert forall|k: int|
                    0 <= k < en.len() implies en[k] == entries_of(cv, m)[s as int][k] by {
                    assert(en[k] == entry@[k] as nat);
                }
            }
            assert(entry_valid(en, dn));
            assert(entry_valid(nat_seq(entry@), nat_seq(dims@)));
            assert(prod(nat_seq(dims@)) <= usize::MAX);
        }
        let f = flat_index_exec(&entry, &dims);
        proof {
            lemma_flat_index_bound(en, dn);
            assert((f as nat) < prod(dn));
        }
        let c = cells[f];
        let ghost old_cells = cells@;
        cells.set(f, c + 1);
        proof {
            let pre = entries_of(cv, m).take(s as int);
            let post = entries_of(cv, m).take(s + 1);
            assert(forall|q: int| 0 <= q < pre.len() ==> entry_valid(#[trigger] pre[q], dn));
            lemma_accum_len(pre, dn);
            assert(post.drop_last() =~= pre);
            assert(post.last() == entries_of(cv, m)[s as int]);
            assert(accum(post, dn) == accum(pre, dn).update(
                flat_index(entries_of(cv, m)[s as int], dn) as int,
                (accum(pre, dn)[flat_index(entries_of(cv, m)[s as int], dn) as int] + 1) as nat,
            ));
            assert(flat_index(entries_of(cv, m)[s as int], dn) == f as nat);
            assert forall|f2: int|
                0 <= f2 < cells@.len() implies (#[trigger] cells@[f2]) as nat == accum(
                post,
                dn,
            )[f2] by {
                if f2 == f as int {
                    assert(cells@[f2] == c + 1);
                    assert(accum(pre, dn)[f2] == c as nat);
                } else {
                    assert(cells@[f2] == old_cells[f2]);
                }
            }
        }
    }
    proof {
        assert(entries_of(cv, m).take(ns as int) =~= entries_of(cv, m));
    }
    Ok(BsfsMatrix { dims, cells })
}

/// A list of machine-count entries as mathematical entries.
pub open spec fn entries_nat(es: Seq<Seq<usize>>) -> Seq<Seq<nat>> {
    es.map_values(|e: Seq<usize>| nat_seq(e))
}

proof fn lemma_prod_zero(d: Seq<nat>, q: int)
    requires
        0 <= q < d.len(),
        d[q] == 0,
    ensures
        prod(d) == 0,
    decreases d.len(),
{
    if q == d.len() - 1 {
        assert(d.last() == d[q]);
    } else {
        assert(d.drop_last()[q] == d[q]);
        lemma_prod_zero(d.drop_last(), q);
    }
}

/// Rebuilds a matrix by folding an indices-mode entry list into zeroed
/// cells. An entry that does not fit the axis box is a shape error
/// naming the first offending site; an axis box with more cells than
/// the machine can address is refused rather than wrapped.
#[verifier::loop_isolation(false)]
pub fn accumulate_entries(entries: &Vec<Vec<usize>>, dims: &Vec<usize>) -> (r: Result<
    BsfsMatrix,
    BsfsError,
>)
    ensures
        prod(nat_seq(dims@)) > usize::MAX <==> r == Result::<BsfsMatrix, BsfsError>::Err(
            BsfsError::OverflowError,
        ),
        prod(nat_seq(dims@)) <= usize::MAX ==> ((forall|s: int|
            0 <= s < entries@.len() ==> entry_valid(
                nat_seq((#[trigger] entries@[s])@),
                nat_seq(dims@),
            )) <==> r is Ok),
        r is Ok ==> ({
            let mat = r->Ok_0;
            &&& mat.dims@ == dims@
            &&& mat.wf()
            &&& mat.cells@.len() == prod(nat_seq(dims@))
            &&& forall|f: int|
                0 <= f < mat.cells@.len() ==> (#[trigger] mat.cells@[f]) as nat == accum(
                    entries_nat(entries.deep_view()),
                    nat_seq(dims@),
                )[f]
        }),
        r is Err ==> r == Result::<BsfsMatrix, BsfsError>::Err(BsfsError::OverflowError) || (
        exists|s0: int|
            {
                &&& r == Result::<BsfsMatrix, BsfsError>::Err(BsfsError::ShapeError(s0 as usize))
                &&& 0 <= s0 < entries@.len()
                &&& !entry_valid(nat_seq((#[trigger] entries@[s0])@), nat_seq(dims@))
                &&& forall|q: int|
                    0 <= q < s0 ==> entry_valid(nat_seq((#[trigger] entries@[q])@), nat_seq(dims@))
            }),
{
    let ghost dn = nat_seq(dims@);
    let ghost ev = entries.deep_view();
    proof {
        assert(ev.len() == entries@.len());
        assert forall|s: int| 0 <= s < ev.len() implies #[trigger] ev[s] == entries@[s]@ by {}
    }
    // the number of cells
    let mut total: usize = 1;
    let npop = dims.len();
    let mut zero_axis: bool = false;
    for k in 0..npop
        invariant
            zero_axis ==> exists|q: int| 0 <= q < k && #[trigger] dn[q] == 0,
            !zero_axis ==> forall|q: int| 0 <= q < k ==> #[trigger] dn[q] >= 1,
    {
        if dims[k] == 0 {
            zero_axis = true;
            proof {
                assert(dn[k as int] == 0);
            }
        }
    }
    if zero_axis {
        proof {
            let q = choose|q: int| 0 <= q < npop && #[trigger] dn[q] == 0;
            lemma_prod_zero(dn, q);
        }
        total = 0;
    } else {
        proof {
            assert(dn.take(0) =~= Seq::<nat>::empty());
        }
        for k in 0..npop
            invariant
                !zero_axis,
                forall|q: int| 0 <= q < npop ==> #[trigger] dn[q] >= 1,
                total as nat == prod(dn.take(k as int)),
        {
            proof {
                lemma_prod_take(dn, k as int);
            }
            total = match total.checked_mul(dims[k]) {
                Some(t) => t,
                None => {
                    proof {
                        assert(prod(dn.take(k + 1)) > usize::MAX);
                        lemma_prod_prefix_le(dn, k + 1);
                    }
                    return Err(BsfsError::OverflowError);
                },
            };
        }
        proof {
            assert(dn.take(npop as int) =~= dn);
        }
    }
    proof {
        assert(total as nat == prod(dn));
    }
    // shape check: every entry must fit the axis box
    let ns = entries.len();
    for s in 0..ns
        invariant
            forall|q: int| 0 <= q < s ==> entry_valid(nat_seq((#[trigger] entries@[q])@), dn),
    {
        let e = &entries[s];
        let mut ok: bool = e.len() == npop;
        let ne = e.len();
        let ghost len_ok = ok;
        if ok {
            for k in 0..ne
                invariant
                    ne == e@.len(),
                    ne == npop,
                    ok ==> forall|q: int| 0 <= q < k ==> #[trigger] nat_seq(e@)[q] < dn[q],
                    !ok ==> exists|q: int| 0 <= q < k && !(#[trigger] nat_seq(e@)[q] < dn[q]),
            {
                proof {
                    assert(nat_seq(e@)[k as int] == e@[k as int] as nat);
                    assert(dn[k as int] == dims@[k as int] as nat);
                }
                if !(e[k] < dims[k]) {
                    ok = false;
                    proof {
                        assert(!(nat_seq(e@)[k as int] < dn[k as int]));
                    }
                }
            }
        }
        if !ok {
            proof {
                let env = nat_seq(entries@[s as int]@);
                assert(env == nat_seq(e@));
                if !len_ok {
                    assert(e@.len() != npop as int);
                    assert(dn.len() == npop as int);
                    assert(env.len() == e@.len());
                    assert(!entry_valid(env, dn));
                } else {
                    let q = choose|q: int| 0 <= q < ne && !(#[trigger] nat_seq(e@)[q] < dn[q]);
                    assert(!(env[q] < dn[q]));
                    assert(!entry_valid(env, dn));
                }
            }
            return Err(BsfsError::ShapeError(s));
        }
        proof {
            assert(nat_seq(e@).len() == e@.len());
            assert(entry_valid(nat_seq((entries@[s as int])@), dn));
        }
    }
    // fold the entries into zeroed cells
    let mut cells: Vec<usize> = Vec::new();
    for i in 0..total
        invariant
            cells@.len() == i,
            forall|f: int| 0 <= f < i ==> (#[trigger] cells@[f]) == 0,
    {
        cells.push(0);
    }
    proof {
        assert forall|s: int|
            0 <= s < entries_nat(ev).len() implies entry_valid(
            #[trigger] entries_nat(ev)[s],
            dn,
        ) by {
            assert(entries_nat(ev)[s] == nat_seq(ev[s]));
            assert(ev[s] == entries@[s]@);
        }
        assert forall|f: int|
            0 <= f < cells@.len() implies (#[trigger] cells@[f]) as nat == accum(
            entries_nat(ev).take(0),
            dn,
        )[f] by {
            assert(entries_nat(ev).take(0) =~= Seq::<Seq<nat>>::empty());
        }
    }
    for s in 0..ns
        invariant
            cells@.len() == prod(dn),
            total as nat == prod(dn),
            forall|q: int| 0 <= q < ns ==> entry_valid(nat_seq((#[trigger] entries@[q])@), dn),
            forall|s2: int|
                0 <= s2 < entries_nat(ev).len() ==> entry_valid(#[trigger] entries_nat(ev)[s2], dn),
            forall|f: int|
                0 <= f < cells@.len() ==> (#[trigger] cells@[f]) as nat == accum(
                    entries_nat(ev).take(s as int),
                    dn,
                )[f],
            forall|f: int| 0 <= f < cells@.len() ==> (#[trigger] cells@[f]) <= s,
    {
        let ghost en = entries_nat(ev)[s as int];
        proof {
            assert(en == nat_seq(entries@[s as int]@));
            assert(entry_valid(nat_seq(entries@[s as int]@), nat_seq(dims@)));
        }
        let f = flat_index_exec(&entries[s], dims);
        proof {
            lemma_flat_index_bound(en, dn);
        }
        let c = cells[f];
        let ghost old_cells = cells@;
        cells.set(f, c + 1);
        proof {
            let pre = entries_nat(ev).take(s as int);
            let post = entries_nat(ev).take(s + 1);
            assert(forall|q: int| 0 <= q < pre.len() ==> entry_valid(#[trigger] pre[q], dn));
            lemma_accum_len(pre, dn);
            assert(post.drop_last() =~= pre);
            assert(post.last() == entries_nat(ev)[s as int]);
            assert(accum(post, dn) == accum(pre, dn).update(
                flat_index(en, dn) as int,
                (accum(pre, dn)[flat_index(en, dn) as int] + 1) as nat,
            ));
            assert forall|f2: int|
                0 <= f2 < cells@.len() implies (#[trigger] cells@[f2]) as nat == accum(
                post,
                dn,
            )[f2] by {
                if f2 == f as int {
                    assert(cells@[f2] == c + 1);
                    assert(accum(pre, dn)[f2] == c as nat);
                } else {
                    assert(cells@[f2] == old_cells[f2]);
                }
            }
        }
    }
    proof {
        assert(entries_nat(ev).take(ns as int) =~= entries_nat(ev));
        assert(nat_seq(dims@) == dn);
    }
    Ok(BsfsMatrix { dims: dims.clone(), cells })
}

/// Cross-mode consistency: a matrix built by folding the indices-mode
/// entry list equals the direct matrix-mode cells, for any block and
/// sample map. Both modes classify each site through the same canonical
/// population order, so the folded cells agree cell for cell.
pub proof fn lemma_cross_mode_consistent(
    indices: Seq<Seq<usize>>,
    calls: Seq<Seq<Seq<u32>>>,
    m: Map<usize, String>,
)
    requires
        indices.len() == entries_of(calls, m).len(),
        forall|s: int|
            0 <= s < indices.len() ==> (#[trigger] indices[s]).len() == entries_of(
                calls,
                m,
            )[s].len(),
        forall|s: int, k: int|
            0 <= s < indices.len() && 0 <= k < indices[s].len() ==> (#[trigger] indices[s][k])
                as nat == entries_of(calls, m)[s][k],
    ensures
        entries_nat(indices) == entries_of(calls, m),
        accum(entries_nat(indices), dims_of(m)) == accum(entries_of(calls, m), dims_of(m)),
{
    assert forall|s: int|
        0 <= s < indices.len() implies #[trigger] entries_nat(indices)[s] == entries_of(
        calls,
        m,
    )[s] by {
        assert(entries_nat(indices)[s] == nat_seq(indices[s]));
        assert(nat_seq(indices[s]) =~= entries_of(calls, m)[s]);
    }
    assert(entries_nat(indices) =~= entries_of(calls, m));
}

/// The block matrix total equals the number of sites in the block: the
/// matrix-mode cells for any block and sample map sum to the block
/// length.
pub proof fn lemma_block_matrix_total(calls: Seq<Seq<Seq<u32>>>, m: Map<usize, String>)
    requires
        m.dom().finite(),
    ensures
        sum_seq(accum(entries_of(calls, m), dims_of(m))) == calls.len(),
{
    crate::popindex::lemma_canonical_order_exists(m);
    let dn = dims_of(m);
    assert forall|s: int|
        0 <= s < entries_of(calls, m).len() implies entry_valid(
        #[trigger] entries_of(calls, m)[s],
        dn,
    ) by {
        let e = entries_of(calls, m)[s];
        assert(e == entry_of(flat_of(calls[s]), m));
        assert(e.len() == canonical_order(m).len());
        assert forall|k: int| 0 <= k < e.len() implies e[k] < dn[k] by {
            assert(e[k] == nton(flat_of(calls[s]), m, canonical_order(m)[k]));
            lemma_nton_le_pop_count(flat_of(calls[s]), m, canonical_order(m)[k]);
            assert(dn[k] == pop_count(m, canonical_order(m)[k]) + 1);
        }
    }
    lemma_matrix_total(entries_of(calls, m), dn);
}

/// How many of the entries equal `e`.
pub open spec fn count_entry(entries: Seq<Seq<nat>>, e: Seq<nat>) -> nat
    decreases entries.len(),
{
    if entries.len() == 0 {
        0
    } else {
        count_entry(entries.drop_last(), e) + (if entries.last() == e {
            1nat
        } else {
            0nat
        })
    }
}

/// Distinct valid multi-indices land on distinct cells.
pub proof fn lemma_flat_index_injective(e1: Seq<nat>, e2: Seq<nat>, d: Seq<nat>)
    requires
        entry_valid(e1, d),
        entry_valid(e2, d),
        e1 != e2,
    ensures
        flat_index(e1, d) != flat_index(e2, d),
    decreases d.len(),
{
    if d.len() == 0 {
        assert(e1 =~= e2);
        assert(false);
    } else {
        let a1 = flat_index(e1.drop_last(), d.drop_last());
        let a2 = flat_index(e2.drop_last(), d.drop_last());
        let b1 = e1.last();
        let b2 = e2.last();
        let dl = d.last();
        assert(entry_valid(e1.drop_last(), d.drop_last())) by {
            assert(forall|k: int|
                0 <= k < e1.drop_last().len() ==> e1.drop_last()[k] == e1[k] && d.drop_last()[k]
                    == d[k]);
        }
        assert(entry_valid(e2.drop_last(), d.drop_last())) by {
            assert(forall|k: int|
                0 <= k < e2.drop_last().len() ==> e2.drop_last()[k] == e2[k] && d.drop_last()[k]
                    == d[k]);
        }
        if flat_index(e1, d) == flat_index(e2, d) {
            // the last coordinate is the remainder and the rest the
            // quotient by the last axis size: both are determined
            assert(a1 == a2 && b1 == b2) by (nonlinear_arith)
                requires
                    a1 * dl + b1 == a2 * dl + b2,
                    b1 < dl,
                    b2 < dl,
            {}
            if e1.drop_last() =~= e2.drop_last() {
                assert forall|k: int| 0 <= k < e1.len() implies e1[k] == e2[k] by {
                    if k < e1.len() - 1 {
                        assert(e1[k] == e1.drop_last()[k]);
                        assert(e2[k] == e2.drop_last()[k]);
                    }
                }
                assert(e1 =~= e2);
                assert(false);
            } else {
                lemma_flat_index_injective(e1.drop_last(), e2.drop_last(), d.drop_last());
                assert(false);
            }
        }
    }
}

proof fn lemma_count_flat_is_count_entry(entries: Seq<Seq<nat>>, d: Seq<nat>, e: Seq<nat>)
    requires
        entry_valid(e, d),
        forall|s: int| 0 <= s < entries.len() ==> entry_valid(#[trigger] entries[s], d),
    ensures
        count_flat(entries, d, flat_index(e, d)) == count_entry(entries, e),
    decreases entries.len(),
{
    if entries.len() > 0 {
        let rest = entries.drop_last();
        assert(forall|s: int| 0 <= s < rest.len() ==> entry_valid(#[trigger] rest[s], d));
        lemma_count_flat_is_count_entry(rest, d, e);
        assert(entry_valid(entries.last(), d));
        if entries.last() != e {
            lemma_flat_index_injective(entries.last(), e, d);
        }
    }
}

/// The matrix stores counts of entries, not site identities: the cell
/// at any valid multi-index holds exactly the number of sites whose
/// entry equals it.
pub proof fn lemma_cell_counts_entry(entries: Seq<Seq<nat>>, d: Seq<nat>, e: Seq<nat>)
    requires
        entry_valid(e, d),
        forall|s: int| 0 <= s < entries.len() ==> entry_valid(#[trigger] entries[s], d),
    ensures
        accum(entries, d)[flat_index(e, d) as int] == count_entry(entries, e),
{
    lemma_flat_index_bound(e, d);
    lemma_accum_counts(entries, d, flat_index(e, d));
    lemma_count_flat_is_count_entry(entries, d, e);
}

/// Every site of the block flattens to exactly the sample map's
/// haplotype count.
pub open spec fn block_conforms(calls: Seq<Seq<Seq<u32>>>, m: Map<usize, String>) -> bool {
    forall|s: int| 0 <= s < calls.len() ==> sum_lens(#[trigger] calls[s]) == m.dom().len()
}

/// Indices mode under shape validation: as `bsfs_indices`, but a site
/// whose haplotype count disagrees with the sample map's is an error
/// naming the first such site, and no entry list is produced.
#[verifier::loop_isolation(false)]
pub fn bsfs_indices_checked(calls: Vec<Vec<Vec<u32>>>, sample_map: HashMap<usize, String>) -> (r:
    Result<Vec<Vec<usize>>, BsfsError>)
    ensures
        block_conforms(calls.deep_view(), sample_map@) <==> r is Ok,
        r is Ok ==> ({
            let v = r->Ok_0;
            &&& v@.len() == calls.deep_view().len()
            &&& forall|s: int|
                0 <= s < v@.len() ==> (#[trigger] v@[s])@.len() == entries_of(
                    calls.deep_view(),
                    sample_map@,
                )[s].len()
            &&& forall|s: int, k: int|
                0 <= s < v@.len() && 0 <= k < v@[s]@.len() ==> (#[trigger] v@[s]@[k]) as nat
                    == entries_of(calls.deep_view(), sample_map@)[s][k]
        }),
        r is Err ==> (exists|s0: usize|
            {
                &&& r == Result::<Vec<Vec<usize>>, BsfsError>::Err(BsfsError::ShapeError(s0))
                &&& (s0 as int) < calls.deep_view().len()
                &&& sum_lens(calls.deep_view()[s0 as int]) != sample_map@.dom().len()
                &&& forall|q: int|
                    0 <= q < s0 ==> sum_lens(#[trigger] calls.deep_view()[q])
                        == sample_map@.dom().len()
            }),
{
    let ghost cv = calls.deep_view();
    let ghost m = sample_map@;
    let n_inds = sample_map.len();
    let mut r: Vec<Vec<usize>> = Vec::new();
    let n = calls.len();
    for s in 0..n
        invariant
            r@.len() == s,
            forall|q: int| 0 <= q < s ==> sum_lens(#[trigger] cv[q]) == m.dom().len(),
            forall|q: int| 0 <= q < s ==> (#[trigger] r@[q])@.len() == entries_of(cv, m)[q].len(),
            forall|q: int, k: int|
                0 <= q < s && 0 <= k < r@[q]@.len() ==> (#[trigger] r@[q]@[k]) as nat
                    == entries_of(cv, m)[q][k],
    {
        let site = calls[s].clone();
        proof {
            assert(site.deep_view() =~= cv[s as int]);
        }
        let flat = flatten_site(site);
        if flat.len() != n_inds {
            proof {
                assert(sum_lens(cv[s as int]) != m.dom().len());
            }
            return Err(BsfsError::ShapeError(s));
        }
        let entry = site_to_entry(flat, &sample_map);
        proof {
            assert(entries_of(cv, m)[s as int] == entry_of(flat_of(cv[s as int]), m));
        }
        r.push(entry);
    }
    Ok(r)
}

/// Indices mode under strict validation: a site whose haplotype count
/// disagrees with the sample map's is a shape error naming the first
/// such site; after that, a haplotype position without a sample-map
/// entry is an index error naming the first such position. A strict
/// matrix follows by folding this result through `accumulate_entries`.
#[verifier::loop_isolation(false)]
pub fn bsfs_indices_strict(calls: Vec<Vec<Vec<u32>>>, sample_map: HashMap<usize, String>) -> (r:
    Result<Vec<Vec<usize>>, BsfsError>)
    ensures
        !block_conforms(calls.deep_view(), sample_map@) ==> (exists|s0: usize|
            {
                &&& r == Result::<Vec<Vec<usize>>, BsfsError>::Err(BsfsError::ShapeError(s0))
                &&& (s0 as int) < calls.deep_view().len()
                &&& sum_lens(calls.deep_view()[s0 as int]) != sample_map@.dom().len()
                &&& forall|q: int|
                    0 <= q < s0 ==> sum_lens(#[trigger] calls.deep_view()[q])
                        == sample_map@.dom().len()
            }),
        block_conforms(calls.deep_view(), sample_map@) ==> (r is Ok <==> (calls.deep_view().len()
            == 0 || forall|p: usize|
            (p as int) < sample_map@.dom().len() ==> #[trigger] sample_map@.contains_key(p))),
        block_conforms(calls.deep_view(), sample_map@) && r is Err ==> (exists|p0: usize|
            {
                &&& r == Result::<Vec<Vec<usize>>, BsfsError>::Err(BsfsError::IndexError(p0))
                &&& calls.deep_view().len() > 0
                &&& (p0 as int) < sample_map@.dom().len()
                &&& !sample_map@.contains_key(p0)
                &&& forall|q: usize| q < p0 ==> #[trigger] sample_map@.contains_key(q)
            }),
        r is Ok ==> ({
            let v = r->Ok_0;
            &&& block_conforms(calls.deep_view(), sample_map@)
            &&& v@.len() == calls.deep_view().len()
            &&& forall|s: int|
                0 <= s < v@.len() ==> (#[trigger] v@[s])@.len() == entries_of(
                    calls.deep_view(),
                    sample_map@,
                )[s].len()
            &&& forall|s: int, k: int|
                0 <= s < v@.len() && 0 <= k < v@[s]@.len() ==> (#[trigger] v@[s]@[k]) as nat
                    == entries_of(calls.deep_view(), sample_map@)[s][k]
        }),
{
    let ghost cv = calls.deep_view();
    let ghost m = sample_map@;
    let n_inds = sample_map.len();
    let n = calls.len();
    let mut flats: Vec<Vec<u32>> = Vec::new();
    for s in 0..n
        invariant
            flats@.len() == s,
            forall|q: int| 0 <= q < s ==> sum_lens(#[trigger] cv[q]) == m.dom().len(),
            forall|q: int| 0 <= q < s ==> (#[trigger] flats@[q])@ == flat_of(cv[q]),
    {
        let site = calls[s].clone();
        proof {
            assert(site.deep_view() =~= cv[s as int]);
        }
        let flat = flatten_site(site);
        if flat.len() != n_inds {
            proof {
                assert(sum_lens(cv[s as int]) != m.dom().len());
            }
            return Err(BsfsError::ShapeError(s));
        }
        flats.push(flat);
    }
    if n > 0 {
        for p in 0..n_inds
            invariant
                forall|q: usize| q < p ==> #[trigger] m.contains_key(q),
        {
            if !sample_map.contains_key(&p) {
                return Err(BsfsError::IndexError(p));
            }
        }
    }
    let labels = canonical_labels_exec(&sample_map);
    let mut r: Vec<Vec<usize>> = Vec::new();
    for s in 0..n
        invariant
            r@.len() == s,
            forall|q: int| 0 <= q < s ==> (#[trigger] r@[q])@.len() == entries_of(cv, m)[q].len(),
            forall|q: int, k: int|
                0 <= q < s && 0 <= k < r@[q]@.len() ==> (#[trigger] r@[q]@[k]) as nat
                    == entries_of(cv, m)[q][k],
    {
        let entry = classify_with(&flats[s], &sample_map, &labels);
        proof {
            assert(entries_of(cv, m)[s as int] == entry_of(flat_of(cv[s as int]), m));
            assert(flats@[s as int]@ == flat_of(cv[s as int]));
            assert forall|k: int|
                0 <= k < entry@.len() implies (#[trigger] entry@[k]) as nat == entries_of(
                cv,
                m,
            )[s as int][k] by {
                assert(crate::strorder::views(labels@)[k] == labels@[k]@);
                assert(canonical_order(m)[k] == labels@[k]@);
                assert(entries_of(cv, m)[s as int][k] == nton(
                    flat_of(cv[s as int]),
                    m,
                    canonical_order(m)[k],
                ));
            }
        }
        r.push(entry);
    }
    Ok(r)
}

} // verus!
