//! An estimate in hours: the least and the most.
use vstd::prelude::*;

verus! {

#[derive(Debug, Clone, Copy, Default, PartialEq, Eq)]
pub struct Hours {
    pub min: u32,
    pub max: u32,
}

} // verus!
