use vstd::prelude::*;

verus! {

/// A season of the year.
#[derive(Debug, Clone, Copy, PartialEq, Eq, Hash, Structural)]
pub enum Season {
    Winter,
    Spring,
    Summer,
    Autumn,
}

/// The season of a day of the year (`0..365`): winter runs from day 334 to day 58,
/// spring from day 59 to day 150, summer from day 151 to day 242 and autumn from
/// day 243 to day 333.
pub open spec fn season_of_day_in_year(day_in_year: nat) -> Season {
    if day_in_year < 59 || 334 <= day_in_year {
        Season::Winter
    } else if day_in_year < 151 {
        Season::Spring
    } else if day_in_year < 243 {
        Season::Summer
    } else {
        Season::Autumn
    }
}

/// The season of a day, days being counted in years of 365 days.
pub open spec fn season_of(day: nat) -> Season {
    season_of_day_in_year(day % 365)
}

/// Gets the season for a given day, days being counted in years of 365 days.
pub fn season(day: u32) -> (s: Season)
    ensures
        s == season_of(day as nat),
{
    let day_in_year = day % 365;
    if day_in_year < 59 || (day_in_year >= 334 && day_in_year < 365) {
        Season::Winter
    } else if day_in_year >= 59 && day_in_year < 151 {
        Season::Spring
    } else if day_in_year >= 151 && day_in_year < 243 {
        Season::Summer
    } else {
        Season::Autumn
    }
}

/// The seasons repeat every year: a day and the same day a year later are in the same season.
pub proof fn lemma_season_repeats_yearly(day: nat)
    ensures
        season_of(day) == season_of(day + 365),
{
    assert((day + 365) % 365 == day % 365);
}

} // verus!
