//! Stand-in "version 2" code that the upgrade path installs.
use vstd::prelude::*;

verus! {

pub struct UpgradeFixture;

impl UpgradeFixture {
    /// The code version of this stand-in.
    pub fn version() -> (r: u32)
        ensures
            r == 2,
    {
        2
    }
}

} // verus!
