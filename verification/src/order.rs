use core::cmp::Ordering;
use vstd::prelude::*;
use vstd::std_specs::cmp::PartialOrdSpecImpl;

use crate::fps::Fps;

verus! {

/// How two frame times compare.
pub open spec fn frametime_order(a: u64, b: u64) -> Ordering {
    if a < b {
        Ordering::Less
    } else if a == b {
        Ordering::Equal
    } else {
        Ordering::Greater
    }
}

impl Fps {
    /// Orders by frame time alone: a longer frame is a greater value.
    pub fn cmp(&self, other: &Self) -> (r: Ordering)
        ensures
            r == frametime_order(self.frametime, other.frametime),
    {
        if self.frametime < other.frametime {
            Ordering::Less
        } else if self.frametime == other.frametime {
            Ordering::Equal
        } else {
            Ordering::Greater
        }
    }
}

impl PartialOrd for Fps {
    fn partial_cmp(&self, other: &Self) -> (r: Option<Ordering>) {
        Some(self.cmp(other))
    }
}

impl PartialOrdSpecImpl for Fps {
    open spec fn obeys_partial_cmp_spec() -> bool {
        true
    }

    open spec fn partial_cmp_spec(&self, other: &Self) -> Option<Ordering> {
        Some(frametime_order(self.frametime, other.frametime))
    }
}

} // verus!
