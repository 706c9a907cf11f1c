//! Schema-driven XML validation that quarantines defects instead of rejecting documents.

use vstd::prelude::*;

pub mod annotate;
pub mod automaton;
pub mod coherence;
pub mod content;
pub mod decimal;
pub mod facets;
pub mod identity;
pub mod laws;
pub mod name;
pub mod pattern;
pub mod recovery;
pub mod result;
pub mod schema;
pub mod text;
pub mod validate;
pub mod xml;

verus! {

/// The release line of this crate.
pub fn placeholder_info() -> (info: &'static str)
    ensures
        info@ == "sdc4-validator v0.1.0 - Placeholder release (Implementation planned Q2 2026)"@,
{
    "sdc4-validator v0.1.0 - Placeholder release (Implementation planned Q2 2026)"
}

} // verus!
