//! Font families the editor offers.
use vstd::prelude::*;

verus! {

/// A font family: proportional or monospace.
#[derive(Clone, Copy, Debug, PartialEq, Eq, Structural)]
pub enum FontFamilyType {
    Proportional,
    Monospace,
}

} // verus!
