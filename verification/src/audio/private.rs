//! Seals the traits of this layer.

use vstd::prelude::*;

verus! {

/// Keeps the traits of this layer from being implemented elsewhere.
pub trait Sealed {

}

} // verus!
