//! Writer identity: a small explicit value identifying the subsystem that
//! performs a domain write, issued once per subsystem at construction and
//! attached to every trail event for provenance.

use vstd::prelude::*;

verus! {

/// Identifies an external writer to the model.
#[derive(Clone, Copy, PartialEq, Eq, Structural, Hash, PartialOrd, Ord, Debug)]
pub struct WriterId {
    pub num: u8,
}

impl WriterId {
    pub fn new(num: u8) -> (r: WriterId)
        ensures
            r.num == num,
    {
        WriterId { num }
    }
}

} // verus!
