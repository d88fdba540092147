//! Blockwise site frequency spectrum (bSFS) computation.
//!
//! Given a block of genomic sites (per-individual genotype calls) and a
//! sample map assigning each haplotype position to a population, this
//! library flattens each site into a haplotype vector, classifies it into
//! a per-population derived-allele count tuple, and aggregates those
//! tuples across the block, either as the raw list of tuples or as a
//! dense count matrix with one axis per population.

pub mod strorder;
pub mod popindex;
pub mod classify;
pub mod aggregate;

pub use aggregate::{
    accumulate_entries, bsfs_indices, bsfs_indices_checked, bsfs_indices_strict, bsfs_matrix,
    BsfsMatrix,
};
pub use classify::{classify_with, flatten_site, site_to_entry, site_to_entry_strict};
pub use popindex::{index_populations, n_haps_per_pop, PopulationIndex};

use vstd::prelude::*;

verus! {

/// Failure of a bSFS operation, with the offending index where one exists.
#[derive(Clone, Copy, Debug, PartialEq, Eq, Structural)]
pub enum BsfsError {
    /// The sample map is empty: there are no populations to index.
    ConfigError,
    /// The haplotype position carried by the variant has no sample-map entry.
    IndexError(usize),
    /// The site or entry at the carried position does not fit: its
    /// haplotype count disagrees with the sample map's, or its entry
    /// does not fit the matrix shape.
    ShapeError(usize),
    /// The matrix would exceed the representable size.
    OverflowError,
}

} // verus!
