use vstd::prelude::*;

verus! {

/// A categorical distance for a commute.
#[derive(Debug, Clone, Copy, PartialEq, Eq, Hash, Structural)]
pub enum JourneyType {
    LocalCommute,
    CityCommute,
    DistantCommute,
}

impl JourneyType {
    /// A number for each commute length, different for different lengths, by which
    /// commutes are grouped.
    pub open spec fn spec_code(self) -> usize {
        match self {
            JourneyType::LocalCommute => 0,
            JourneyType::CityCommute => 1,
            JourneyType::DistantCommute => 2,
        }
    }

    /// The number by which the commute length is grouped.
    pub fn code(&self) -> (c: usize)
        ensures
            c == self.spec_code(),
    {
        match self {
            JourneyType::LocalCommute => 0,
            JourneyType::CityCommute => 1,
            JourneyType::DistantCommute => 2,
        }
    }
}

} // verus!
