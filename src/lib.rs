//! Pipe tables inside markdown documents: finding them, reading their
//! headers, alignments and cells, rendering them as aligned text, and
//! splicing edited tables back into the document they came from.
use vstd::prelude::*;

pub mod files;
pub mod laws;
pub mod render;
pub mod round_trip;
pub mod row;
pub mod table;
pub mod text;

verus! {

} // verus!
