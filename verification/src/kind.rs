//! The closed set of resource kinds that the network moves.

use vstd::prelude::*;

verus! {

/// A resource kind. The simulation moves typed units; the set of types is
/// closed and small.
#[derive(Clone, Copy, Debug, PartialEq, Eq, Structural)]
pub enum ResourceKind {
    Material,
}

} // verus!
