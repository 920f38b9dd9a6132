//! Handles: generation-stamped references to the slots of a pool.

use vstd::prelude::*;

verus! {

/// A copyable, non-owning reference to one slot of a [`Pool`](crate::pool::Pool).
///
/// A handle names a slot by its index and carries the generation that the slot
/// had when the handle was issued. Two handles are equal when both parts are
/// equal. A handle whose generation differs from the slot's is stale.
#[derive(Clone, Copy, PartialEq, Eq, Structural, Debug, Hash)]
pub struct Handle {
    pub index: usize,
    pub generation: u32,
}

impl Handle {
    /// The handle that refers to nothing, in specifications.
    pub open spec fn none_spec() -> Handle {
        Handle { index: 0, generation: 0 }
    }

    /// The handle that refers to nothing.
    #[verifier::when_used_as_spec(none_spec)]
    pub fn none() -> (h: Handle)
        ensures
            h == Handle::none_spec(),
    {
        Handle { index: 0, generation: 0 }
    }

    /// The handle for the slot `index` under `generation`.
    pub fn new(index: usize, generation: u32) -> (h: Handle)
        ensures
            h == (Handle { index, generation }),
    {
        Handle { index, generation }
    }

    /// Whether this is the sentinel, in specifications.
    pub open spec fn is_none_spec(&self) -> bool {
        self.index == 0 && self.generation == 0
    }

    /// Whether this is the sentinel.
    #[verifier::when_used_as_spec(is_none_spec)]
    pub fn is_none(&self) -> (b: bool)
        ensures
            b == self.is_none_spec(),
    {
        self.index == 0 && self.generation == 0
    }

    /// Whether this is not the sentinel, in specifications.
    pub open spec fn is_some_spec(&self) -> bool {
        !self.is_none_spec()
    }

    /// Whether this handle refers to some slot, live or not.
    #[verifier::when_used_as_spec(is_some_spec)]
    pub fn is_some(&self) -> (b: bool)
        ensures
            b == self.is_some_spec(),
    {
        !self.is_none()
    }

    /// The index of the slot that the handle names.
    pub fn index(&self) -> (i: usize)
        ensures
            i == self.index,
    {
        self.index
    }

    /// The generation under which the handle names its slot.
    pub fn generation(&self) -> (g: u32)
        ensures
            g == self.generation,
    {
        self.generation
    }
}

} // verus!
