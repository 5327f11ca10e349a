//! Class labels.

use vstd::prelude::*;

verus! {

/// A class label, numbered from 0 in the order in which the classes were met.
#[derive(Clone, Copy, Debug, PartialEq, Eq, Structural, Hash)]
pub struct Class {
    pub id: u16,
}

impl Class {
    /// The class numbered `id`.
    pub fn new(id: u16) -> (c: Class)
        ensures
            c.id == id,
    {
        Class { id }
    }
}

} // verus!
