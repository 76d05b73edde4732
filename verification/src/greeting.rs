//! The nominal example type with a custom textual projection.

use vstd::prelude::*;

verus! {

/// A fieldless example type whose textual projection is always the same
/// literal, whatever instance it is called on.
#[derive(Clone, Copy, Debug, PartialEq, Eq)]
pub struct Greeting;

impl Greeting {
    /// Every instance serializes to exactly `"Hello, world!"`.
    pub fn serialize(&self) -> (r: String)
        ensures
            r@ == "Hello, world!"@,
    {
        String::from_str("Hello, world!")
    }
}

} // verus!
