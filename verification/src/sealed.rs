//! The seal: a marker that only this crate can hand out.

use vstd::prelude::*;
use crate::spanned::Node;

verus! {

/// Marks the types that have a span. The module is private, so no other
/// crate can name the trait or add an impl: the set of types with a span is
/// closed, and `Node` is the one way into it.
pub trait Sealed {
}

impl Sealed for Node {
}

} // verus!
