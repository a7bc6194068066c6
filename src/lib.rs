//! Stable identities for the module items of a syntax tree, and the ordered
//! collection of the runtime intrinsics that a typed body needs.
use vstd::prelude::*;

pub mod intrinsics;
pub mod prototype;
pub mod source_id;

verus! {

} // verus!
