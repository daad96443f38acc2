//! Layer effect values.

use vstd::prelude::*;

verus! {

/// Pattern used by an effect, by name and id.
#[derive(Debug, Clone, PartialEq, Eq)]
pub struct EffectPattern {
    pub name: String,
    pub id: String,
}

} // verus!
