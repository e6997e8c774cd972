//! Detection of low-complexity regions in nucleotide sequences with the
//! symmetric DUST algorithm, and masking of the regions found.
use vstd::prelude::*;

pub mod bounds;
pub mod counting;

pub mod masker;
pub mod sdust;

verus! {

} // verus!
