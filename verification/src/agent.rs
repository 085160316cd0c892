use crate::grouping::{group_positions, lemma_grouped_len, lemma_indexed_keys};
use crate::journey_type::JourneyType;
use crate::mode_map::ModeMap;
use crate::transport_mode::TransportMode;
use vstd::prelude::*;

verus! {

/// The discrete state of an agent: who it is linked to, where it lives, how far it
/// commutes, what it owns and how it travels. Agents refer to each other, to their
/// subculture and to their neighbourhood by position: `social_network` and `neighbours`
/// hold positions of other agents in the population, `subculture` and `neighbourhood`
/// positions in the scenario's lists. Subcultures and neighbourhoods are equal when they
/// share an id: the functions that group agents by them take their ids.
#[derive(Debug, Clone)]
pub struct Agent {
    pub subculture: usize,
    pub neighbourhood: usize,
    pub commute_length: JourneyType,
    pub current_mode: TransportMode,
    pub last_mode: TransportMode,
    pub norm: TransportMode,
    pub owns_bike: bool,
    pub owns_car: bool,
    pub social_network: Vec<usize>,
    pub neighbours: Vec<usize>,
}

/// How the weather of the previous day bears on an agent's resolve to travel actively
/// when the weather is bad.
#[derive(Debug, Clone, Copy, PartialEq, Eq, Structural)]
pub enum Resolve {
    /// The weather stayed bad and the agent walked or cycled: active modes cost less.
    Strengthened,
    /// The weather stayed bad and the agent did not walk or cycle: active modes cost more.
    Weakened,
    /// The weather has just turned bad: no change.
    Unchanged,
}

/// How many elements of `s` satisfy `p`.
pub open spec fn count_matching<T>(s: Seq<T>, p: spec_fn(T) -> bool) -> nat
    decreases s.len(),
{
    if s.len() == 0 {
        0
    } else {
        count_matching(s.drop_last(), p) + if p(s.last()) {
            1nat
        } else {
            0nat
        }
    }
}

pub proof fn lemma_count_matching_push<T>(s: Seq<T>, x: T, p: spec_fn(T) -> bool)
    ensures
        count_matching(s.push(x), p) == count_matching(s, p) + if p(x) {
            1nat
        } else {
            0nat
        },
{
    assert(s.push(x).drop_last() =~= s);
}

pub proof fn lemma_count_matching_bound<T>(s: Seq<T>, p: spec_fn(T) -> bool)
    ensures
        count_matching(s, p) <= s.len(),
    decreases s.len(),
{
    if s.len() > 0 {
        lemma_count_matching_bound(s.drop_last(), p);
    }
}

/// Whether the agent at a position took `mode` on the previous day.
pub open spec fn took_last(agents: Seq<Agent>, mode: TransportMode) -> spec_fn(usize) -> bool {
    |g: usize| agents[g as int].last_mode == mode
}

/// The number by which the agent at a position is grouped: that of its last mode.
pub open spec fn last_mode_key(agents: Seq<Agent>) -> spec_fn(usize) -> usize {
    |g: usize| agents[g as int].last_mode.spec_code()
}

/// The number of agents at the positions `group` whose last mode was `mode`.
pub open spec fn count_last_mode(group: Seq<usize>, agents: Seq<Agent>, mode: TransportMode) -> nat {
    count_matching(group, took_last(agents, mode))
}

/// Counts, among the agents at the positions `group`, how many took each transport mode
/// on the previous day: groups them by last mode and takes the size of each group. A mode
/// is in the result only when at least one of them took it.
pub fn count_last_modes(group: &Vec<usize>, agents: &Vec<Agent>) -> (counts: ModeMap<usize>)
    requires
        forall|k: int| 0 <= k < group.len() ==> #[trigger] group@[k] < agents.len(),
    ensures
        forall|m: TransportMode| #[trigger]
            counts.entry(m) == if count_last_mode(group@, agents@, m) > 0 {
                Some(count_last_mode(group@, agents@, m) as usize)
            } else {
                None
            },
{
    let mut keys: Vec<usize> = Vec::new();
    let mut k: usize = 0;
    while k < group.len()
        invariant
            k <= group.len(),
            keys.len() == k,
            forall|j: int| 0 <= j < group.len() ==> #[trigger] group@[j] < agents.len(),
            forall|j: int| 0 <= j < k ==> #[trigger] keys@[j] == last_mode_key(agents@)(group@[j]),
        decreases group.len() - k,
    {
        keys.push(agents[group[k]].last_mode.code());
        k = k + 1;
    }
    let groups = group_positions(&keys);
    proof {
        lemma_indexed_keys(keys@, group@, last_mode_key(agents@));
    }
    let mut counts: ModeMap<usize> = ModeMap::new();
    let modes = [
        TransportMode::Car,
        TransportMode::PublicTransport,
        TransportMode::Cycle,
        TransportMode::Walk,
    ];
    let mut i: usize = 0;
    while i < 4
        invariant
            i <= 4,
            modes@ == seq![
                TransportMode::Car,
                TransportMode::PublicTransport,
                TransportMode::Cycle,
                TransportMode::Walk,
            ],
            forall|m: TransportMode| #[trigger]
                counts.entry(m) == if m.spec_code() < i && groups@.contains_key(m.spec_code()) {
                    Some(groups@[m.spec_code()]@.len() as usize)
                } else {
                    None
                },
        decreases 4 - i,
    {
        let mode = modes[i];
        if let Some(members) = groups.get(&mode.code()) {
            counts.insert(mode, members.len());
        }
        i = i + 1;
    }
    proof {
        assert forall|m: TransportMode| #[trigger]
            counts.entry(m) == if count_last_mode(group@, agents@, m) > 0 {
                Some(count_last_mode(group@, agents@, m) as usize)
            } else {
                None
            } by {
            lemma_grouped_len(
                groups@,
                group@,
                last_mode_key(agents@),
                m.spec_code(),
                took_last(agents@, m),
            );
        }
    }
    counts
}

impl Agent {
    /// How the previous day's weather and mode bear on the agent's resolve when the
    /// weather is bad: if the weather did not change and the agent walked or cycled,
    /// its resolve to do so again is strengthened; if the weather did not change and it
    /// did not, its resolve is weakened; if the weather changed, nothing changes.
    pub fn resolve(&self, change_in_weather: bool) -> (r: Resolve)
        ensures
            r == if !change_in_weather && self.last_mode.spec_is_active() {
                Resolve::Strengthened
            } else if !change_in_weather {
                Resolve::Weakened
            } else {
                Resolve::Unchanged
            },
    {
        if !change_in_weather && (self.last_mode == TransportMode::Walk || self.last_mode
            == TransportMode::Cycle) {
            Resolve::Strengthened
        } else if !change_in_weather {
            Resolve::Weakened
        } else {
            Resolve::Unchanged
        }
    }
}

} // verus!
