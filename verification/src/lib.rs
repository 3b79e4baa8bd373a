//! Conversion of theorem-prover dump markup into well-formed hypertext.
//!
//! The pipeline: a delimiter-dialect parser produces a forest of named,
//! attributed regions over text; the forest is lowered to an annotation
//! tree of style and tooltip regions; the tree is canonicalized (empty
//! regions pruned, nested tooltips merged innermost-wins) and split into
//! newline-free per-line forests; finally the per-line forests are written
//! out as nested markup with symbol substitution and escaping.

pub mod ir;
pub mod laws;
pub mod output;
pub mod render;
pub mod symbols;
pub mod text;
pub mod wire;

use vstd::prelude::*;

verus! {

} // verus!
