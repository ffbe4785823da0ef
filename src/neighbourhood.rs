//! The neighborhood under its British spelling.
use vstd::prelude::*;

use crate::address::Address;
use crate::neighborhood::Neighborhood;

pub use crate::neighborhood::Charge;

verus! {

pub type Neighbourhood = Neighborhood;

impl Neighborhood {
    /// Every known neighbour, each once.
    pub fn get_all_neighbours(&self) -> (r: Vec<Address>)
        requires
            self.wf(),
        ensures
            r@.no_duplicates(),
            r@.to_set() == self@.dom(),
    {
        self.get_all_neighbors()
    }
}

} // verus!
