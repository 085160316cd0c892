use vstd::prelude::*;

verus! {

/// The weather for a given day.
#[derive(Debug, Clone, Copy, PartialEq, Eq, Hash, Structural)]
pub enum Weather {
    Good,
    Bad,
}

impl Weather {
    /// Builds a weather pattern of `days` days with a Markov chain: day 0 has the weather
    /// `first`, and each later day has the weather that `next` draws given the weather of
    /// the day before. The index of a weather in the pattern is its day.
    pub fn markov_pattern<F: Fn(Weather) -> Weather>(first: Weather, days: usize, next: F) -> (pattern:
        Vec<Weather>)
        requires
            forall|w: Weather| #[trigger] next.requires((w,)),
        ensures
            pattern.len() == days,
            days > 0 ==> pattern@[0] == first,
            forall|i: int|
                1 <= i < pattern.len() ==> next.ensures((pattern@[i - 1],), #[trigger] pattern@[i]),
    {
        let mut pattern: Vec<Weather> = Vec::new();
        if days == 0 {
            return pattern;
        }
        pattern.push(first);
        let mut i: usize = 1;
        while i < days
            invariant
                1 <= i <= days,
                pattern.len() == i,
                pattern@[0] == first,
                forall|w: Weather| #[trigger] next.requires((w,)),
                forall|j: int|
                    1 <= j < pattern.len() ==> next.ensures((pattern@[j - 1],), #[trigger] pattern@[j]),
            decreases days - i,
        {
            let previous = pattern[i - 1];
            let today = next(previous);
            pattern.push(today);
            i = i + 1;
        }
        pattern
    }
}

} // verus!
