//! Retained-mode layer trees: reference-counted layers, their geometry and
//! the decision of when and how each is redrawn, plus the guest file
//! descriptor table.
use vstd::prelude::*;

pub mod geometry;
pub mod laws;
pub mod layer_tree;
pub mod posix_io;
mod tree_lemmas;

verus! {
}
