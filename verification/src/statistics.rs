use crate::agent::{count_matching, lemma_count_matching_bound, lemma_count_matching_push, Agent};
use crate::grouping::{
    group_positions, grouped_by, keyed_positions, lemma_count_matching_congruent,
    lemma_count_positive, lemma_grouped_count, lemma_grouped_len, lemma_indexed_keys,
};
use crate::intervention::{
    first_sharing_id, id_group, ids_of, is_first_with_id, is_last_with_id, lemma_id_group,
    neighbourhood_ids_of,
};
use crate::journey_type::JourneyType;
use crate::neighbourhood::Neighbourhood;
use std::collections::HashMap;
use vstd::prelude::*;

verus! {

broadcast use vstd::std_specs::hash::group_hash_axioms;

/// The agent's current mode is active (walk or cycle).
pub open spec fn takes_active_mode(a: Agent) -> bool {
    a.current_mode.spec_is_active()
}

/// The agent takes an active mode although its norm is inactive (car or public transport).
pub open spec fn active_counter_to_inactive_norm(a: Agent) -> bool {
    a.current_mode.spec_is_active() && !a.norm.spec_is_active()
}

/// The agent takes an inactive mode although its norm is active.
pub open spec fn inactive_counter_to_active_norm(a: Agent) -> bool {
    !a.current_mode.spec_is_active() && a.norm.spec_is_active()
}

/// The agent's norm is active.
pub open spec fn has_active_norm(a: Agent) -> bool {
    a.norm.spec_is_active()
}

/// Counts the number of agents who take an active mode
/// * agents: The agents to count from
/// * Returns: The number of agents whose current_mode is either Walk or Cycle
pub fn count_active_mode(agents: &[Agent]) -> (n: usize)
    ensures
        n == count_matching(agents@, |a: Agent| takes_active_mode(a)),
{
    let mut n: usize = 0;
    let mut k: usize = 0;
    while k < agents.len()
        invariant
            k <= agents.len(),
            n == count_matching(agents@.take(k as int), |a: Agent| takes_active_mode(a)),
        decreases agents.len() - k,
    {
        proof {
            assert(agents@.take(k + 1) =~= agents@.take(k as int).push(agents@[k as int]));
            lemma_count_matching_push(
                agents@.take(k as int),
                agents@[k as int],
                |a: Agent| takes_active_mode(a),
            );
            lemma_count_matching_bound(agents@.take(k as int), |a: Agent| takes_active_mode(a));
        }
        if agents[k].current_mode.is_active() {
            n = n + 1;
        }
        k = k + 1;
    }
    proof {
        assert(agents@.take(agents.len() as int) =~= agents@);
    }
    n
}

/// Counts the number of agents who take an active mode counter to their inactive norm
/// * agents: The agents to count from
/// * Returns: The number of agents whose current mode is Walk or Cycle but their norm is
///   Car or PublicTransport
pub fn count_active_mode_counter_to_inactive_norm(agents: &[Agent]) -> (n: usize)
    ensures
        n == count_matching(agents@, |a: Agent| active_counter_to_inactive_norm(a)),
{
    let mut n: usize = 0;
    let mut k: usize = 0;
    while k < agents.len()
        invariant
            k <= agents.len(),
            n == count_matching(
                agents@.take(k as int),
                |a: Agent| active_counter_to_inactive_norm(a),
            ),
        decreases agents.len() - k,
    {
        proof {
            assert(agents@.take(k + 1) =~= agents@.take(k as int).push(agents@[k as int]));
            lemma_count_matching_push(
                agents@.take(k as int),
                agents@[k as int],
                |a: Agent| active_counter_to_inactive_norm(a),
            );
            lemma_count_matching_bound(
                agents@.take(k as int),
                |a: Agent| active_counter_to_inactive_norm(a),
            );
        }
        if agents[k].current_mode.is_active() && !agents[k].norm.is_active() {
            n = n + 1;
        }
        k = k + 1;
    }
    proof {
        assert(agents@.take(agents.len() as int) =~= agents@);
    }
    n
}

/// Counts the number of agents who take an inactive mode counter to their active norm
/// * agents: The agents to count from
/// * Returns: The number of agents whose current mode is Car or PublicTransport but their
///   norm is Walk or Cycle
pub fn count_inactive_mode_counter_to_active_norm(agents: &[Agent]) -> (n: usize)
    ensures
        n == count_matching(agents@, |a: Agent| inactive_counter_to_active_norm(a)),
{
    let mut n: usize = 0;
    let mut k: usize = 0;
    while k < agents.len()
        invariant
            k <= agents.len(),
            n == count_matching(
                agents@.take(k as int),
                |a: Agent| inactive_counter_to_active_norm(a),
            ),
        decreases agents.len() - k,
    {
        proof {
            assert(agents@.take(k + 1) =~= agents@.take(k as int).push(agents@[k as int]));
            lemma_count_matching_push(
                agents@.take(k as int),
                agents@[k as int],
                |a: Agent| inactive_counter_to_active_norm(a),
            );
            lemma_count_matching_bound(
                agents@.take(k as int),
                |a: Agent| inactive_counter_to_active_norm(a),
            );
        }
        if !agents[k].current_mode.is_active() && agents[k].norm.is_active() {
            n = n + 1;
        }
        k = k + 1;
    }
    proof {
        assert(agents@.take(agents.len() as int) =~= agents@);
    }
    n
}

/// Counts the number of agents who have an active norm
/// * agents: The agents to count from
/// * Returns: The number of agents whose norm is Walk or Cycle
pub fn count_active_norm(agents: &[Agent]) -> (n: usize)
    ensures
        n == count_matching(agents@, |a: Agent| has_active_norm(a)),
{
    let mut n: usize = 0;
    let mut k: usize = 0;
    while k < agents.len()
        invariant
            k <= agents.len(),
            n == count_matching(agents@.take(k as int), |a: Agent| has_active_norm(a)),
        decreases agents.len() - k,
    {
        proof {
            assert(agents@.take(k + 1) =~= agents@.take(k as int).push(agents@[k as int]));
            lemma_count_matching_push(
                agents@.take(k as int),
                agents@[k as int],
                |a: Agent| has_active_norm(a),
            );
            lemma_count_matching_bound(agents@.take(k as int), |a: Agent| has_active_norm(a));
        }
        if agents[k].norm.is_active() {
            n = n + 1;
        }
        k = k + 1;
    }
    proof {
        assert(agents@.take(agents.len() as int) =~= agents@);
    }
    n
}

/// Count the statistics of the agents
/// Returns: A tuple (Number of active commutes, Number of active commutes counter to their
///     (inactive) norm, Number of inactive commutes counter to their norm, Number of agents
///     whose norm is active)
pub fn count_stats(agents: &[Agent]) -> (stats: (usize, usize, usize, usize))
    ensures
        stats.0 == count_matching(agents@, |a: Agent| takes_active_mode(a)),
        stats.1 == count_matching(agents@, |a: Agent| active_counter_to_inactive_norm(a)),
        stats.2 == count_matching(agents@, |a: Agent| inactive_counter_to_active_norm(a)),
        stats.3 == count_matching(agents@, |a: Agent| has_active_norm(a)),
{
    (
        count_active_mode(agents),
        count_active_mode_counter_to_inactive_norm(agents),
        count_inactive_mode_counter_to_active_norm(agents),
        count_active_norm(agents),
    )
}

/// The agents who take an active mode and the agents counter to an active norm make up,
/// between them, the agents with an active norm and the agents counter to an inactive norm:
/// `active modes + inactive modes counter to an active norm ==
///  active norms + active modes counter to an inactive norm`.
pub proof fn lemma_active_counts_balance(agents: Seq<Agent>)
    ensures
        count_matching(agents, |a: Agent| takes_active_mode(a)) + count_matching(
            agents,
            |a: Agent| inactive_counter_to_active_norm(a),
        ) == count_matching(agents, |a: Agent| has_active_norm(a)) + count_matching(
            agents,
            |a: Agent| active_counter_to_inactive_norm(a),
        ),
    decreases agents.len(),
{
    if agents.len() > 0 {
        lemma_active_counts_balance(agents.drop_last());
    }
}

/// Whether an agent has the given commute length.
pub open spec fn commutes(journey: JourneyType) -> spec_fn(Agent) -> bool {
    |a: Agent| a.commute_length == journey
}

/// Whether an agent has the given commute length and takes an active mode.
pub open spec fn commutes_actively(journey: JourneyType) -> spec_fn(Agent) -> bool {
    |a: Agent| a.commute_length == journey && takes_active_mode(a)
}

/// The number of agents with the given commute length.
pub open spec fn count_commuting(agents: Seq<Agent>, journey: JourneyType) -> nat {
    count_matching(agents, commutes(journey))
}

/// The number of agents with the given commute length who take an active mode.
pub open spec fn count_active_commuting(agents: Seq<Agent>, journey: JourneyType) -> nat {
    count_matching(agents, commutes_actively(journey))
}

/// A count for each commute length, held for some of the commute lengths.
#[derive(Debug, Clone, Copy, PartialEq, Eq, Structural)]
pub struct CommuteCounts {
    pub local_commute: Option<usize>,
    pub city_commute: Option<usize>,
    pub distant_commute: Option<usize>,
}

impl CommuteCounts {
    /// The count held for `journey`, if any.
    pub open spec fn entry(self, journey: JourneyType) -> Option<usize> {
        match journey {
            JourneyType::LocalCommute => self.local_commute,
            JourneyType::CityCommute => self.city_commute,
            JourneyType::DistantCommute => self.distant_commute,
        }
    }

    /// The count held for `journey`, if any.
    pub fn get(&self, journey: JourneyType) -> (count: Option<usize>)
        ensures
            count == self.entry(journey),
    {
        match journey {
            JourneyType::LocalCommute => self.local_commute,
            JourneyType::CityCommute => self.city_commute,
            JourneyType::DistantCommute => self.distant_commute,
        }
    }
}

/// The number by which an agent is grouped by commute length.
pub open spec fn journey_key() -> spec_fn(Agent) -> usize {
    |a: Agent| a.commute_length.spec_code()
}

/// Counts the number of agents who take an active mode grouped by commute length
/// * agents: The agents to count from
/// * Returns: for each commute length that some agent has, the number of agents with that
///   commute length whose current mode is Walk or Cycle
pub fn count_active_mode_by_commute_length(agents: &[Agent]) -> (counts: CommuteCounts)
    ensures
        forall|j: JourneyType| #[trigger]
            counts.entry(j) == if count_commuting(agents@, j) > 0 {
                Some(count_active_commuting(agents@, j) as usize)
            } else {
                None
            },
{
    let mut keys: Vec<usize> = Vec::new();
    let mut k: usize = 0;
    while k < agents.len()
        invariant
            k <= agents.len(),
            keys.len() == k,
            forall|j: int| 0 <= j < k ==> #[trigger] keys@[j] == journey_key()(agents@[j]),
        decreases agents.len() - k,
    {
        keys.push(agents[k].commute_length.code());
        k = k + 1;
    }
    let groups = group_positions(&keys);
    proof {
        lemma_indexed_keys(keys@, agents@, journey_key());
    }
    proof {
        assert forall|c: usize| #[trigger] groups@.contains_key(c) implies forall|i: int|
            0 <= i < groups@[c]@.len() ==> #[trigger] groups@[c]@[i] < agents.len() by {
            lemma_grouped_len(groups@, agents@, journey_key(), c, |a: Agent| journey_key()(a) == c);
        }
    }
    let local = JourneyType::LocalCommute;
    let city = JourneyType::CityCommute;
    let distant = JourneyType::DistantCommute;
    let counts = CommuteCounts {
        local_commute: count_active_in_group(&groups, local.code(), agents),
        city_commute: count_active_in_group(&groups, city.code(), agents),
        distant_commute: count_active_in_group(&groups, distant.code(), agents),
    };
    proof {
        assert forall|j: JourneyType| #[trigger]
            counts.entry(j) == if count_commuting(agents@, j) > 0 {
                Some(count_active_commuting(agents@, j) as usize)
            } else {
                None
            } by {
            lemma_grouped_len(groups@, agents@, journey_key(), j.spec_code(), commutes(j));
            if groups@.contains_key(j.spec_code()) {
                lemma_grouped_count(
                    groups@,
                    agents@,
                    journey_key(),
                    j.spec_code(),
                    |a: Agent| takes_active_mode(a),
                    commutes_actively(j),
                    active_at(agents@),
                );
            }
        }
    }
    counts
}

/// The number of agents under `key` in `groups` who take an active mode, when the key is
/// there.
fn count_active_in_group(groups: &HashMap<usize, Vec<usize>>, key: usize, agents: &[Agent]) -> (count:
    Option<usize>)
    requires
        groups@.contains_key(key) ==> forall|i: int|
            0 <= i < groups@[key]@.len() ==> #[trigger] groups@[key]@[i] < agents.len(),
    ensures
        count is Some <==> groups@.contains_key(key),
        count is Some ==> count->0 == count_active_residents(groups@[key]@, agents@),
{
    match groups.get(&key) {
        Some(members) => Some(count_active_at(members, agents)),
        None => None,
    }
}

/// Whether an agent's subculture has the id of the subculture at position `subculture`
/// (`ids` are the ids of the subcultures, by position).
pub open spec fn in_subculture(ids: Seq<Seq<char>>, subculture: usize) -> spec_fn(Agent) -> bool {
    |a: Agent| ids[a.subculture as int] == ids[subculture as int]
}

/// Whether an agent's subculture has the id of the subculture at position `subculture`
/// and the agent takes an active mode.
pub open spec fn active_in_subculture(ids: Seq<Seq<char>>, subculture: usize) -> spec_fn(
    Agent,
) -> bool {
    |a: Agent| ids[a.subculture as int] == ids[subculture as int] && takes_active_mode(a)
}

/// The number by which an agent is grouped by subculture: subcultures are equal when they
/// share an id, and a group is named by the position of the first subculture with its id.
pub open spec fn subculture_key(ids: Seq<Seq<char>>) -> spec_fn(Agent) -> usize {
    |a: Agent| id_group(ids, a.subculture)
}

/// Counts the number of agents who take an active mode grouped by subculture
/// * agents: The agents to count from
/// * subculture_ids: The ids of the subcultures, by position; subcultures are equal when
///   they have the same id
/// * Returns: A map from each subculture that some agent belongs to, named by the position
///   of the first subculture with its id, to the number of agents of a subculture with
///   that id whose current mode is Walk or Cycle
pub fn count_active_mode_by_subculture(agents: &[Agent], subculture_ids: &Vec<String>) -> (counts:
    HashMap<usize, usize>)
    requires
        forall|k: int| 0 <= k < agents.len() ==> (#[trigger] agents@[k]).subculture < subculture_ids.len(),
    ensures
        forall|s: usize| #[trigger]
            counts@.contains_key(s) <==> is_first_with_id(
                ids_of(subculture_ids@),
                ids_of(subculture_ids@)[s as int],
                s as int,
            ) && count_matching(agents@, in_subculture(ids_of(subculture_ids@), s)) > 0,
        forall|s: usize| #[trigger]
            counts@.contains_key(s) ==> counts@[s] == count_matching(
                agents@,
                active_in_subculture(ids_of(subculture_ids@), s),
            ),
{
    let ghost ids = ids_of(subculture_ids@);
    let mut keys: Vec<usize> = Vec::new();
    let mut k: usize = 0;
    while k < agents.len()
        invariant
            k <= agents.len(),
            keys.len() == k,
            ids == ids_of(subculture_ids@),
            forall|j: int| 0 <= j < agents.len() ==> (#[trigger] agents@[j]).subculture < subculture_ids.len(),
            forall|j: int| 0 <= j < k ==> #[trigger] keys@[j] == subculture_key(ids)(agents@[j]),
        decreases agents.len() - k,
    {
        keys.push(first_sharing_id(subculture_ids, agents[k].subculture));
        k = k + 1;
    }
    let groups = group_positions(&keys);
    proof {
        lemma_indexed_keys(keys@, agents@, subculture_key(ids));
        assert forall|c: usize| #[trigger] groups@.contains_key(c) implies forall|i: int|
            0 <= i < groups@[c]@.len() ==> #[trigger] groups@[c]@[i] < agents.len() by {
            lemma_grouped_len(
                groups@,
                agents@,
                subculture_key(ids),
                c,
                |a: Agent| subculture_key(ids)(a) == c,
            );
        }
    }
    let mut counts: HashMap<usize, usize> = HashMap::new();
    let mut k: usize = 0;
    while k < agents.len()
        invariant
            k <= agents.len(),
            grouped_by(groups@, keyed_positions(agents@, subculture_key(ids))),
            forall|c: usize| #[trigger] groups@.contains_key(c) ==> forall|i: int|
                0 <= i < groups@[c]@.len() ==> #[trigger] groups@[c]@[i] < agents.len(),
            forall|s: usize| #[trigger]
                counts@.contains_key(s) ==> groups@.contains_key(s) && counts@[s]
                    == count_active_residents(groups@[s]@, agents@),
            forall|j: int| 0 <= j < k ==> counts@.contains_key(#[trigger] keys@[j]),
            forall|j: int| 0 <= j < agents.len() ==> #[trigger] keys@[j] == subculture_key(ids)(agents@[j]),
            keys.len() == agents.len(),
        decreases agents.len() - k,
    {
        let key = keys[k];
        if !counts.contains_key(&key) {
            if let Some(count) = count_active_in_group(&groups, key, agents) {
                counts.insert(key, count);
            }
        }
        proof {
            assert(keyed_positions(agents@, subculture_key(ids))[k as int].0 == key);
        }
        k = k + 1;
    }
    proof {
        assert forall|s: usize| #[trigger] counts@.contains_key(s) <==> is_first_with_id(
            ids,
            ids[s as int],
            s as int,
        ) && count_matching(agents@, in_subculture(ids, s)) > 0 by {
            let in_group = |a: Agent| subculture_key(ids)(a) == s;
            lemma_grouped_len(groups@, agents@, subculture_key(ids), s, in_group);
            lemma_count_positive(agents@, in_group);
            lemma_count_positive(agents@, in_subculture(ids, s));
            if counts@.contains_key(s) {
                let j = choose|j: int| 0 <= j < agents.len() && #[trigger] in_group(agents@[j]);
                lemma_id_group(ids, agents@[j].subculture, agents@[j].subculture);
                assert(in_subculture(ids, s)(agents@[j]));
            }
            if is_first_with_id(ids, ids[s as int], s as int) && count_matching(
                agents@,
                in_subculture(ids, s),
            ) > 0 {
                let j = choose|j: int|
                    0 <= j < agents.len() && #[trigger] in_subculture(ids, s)(agents@[j]);
                lemma_id_group(ids, agents@[j].subculture, s);
                assert(counts@.contains_key(keys@[j]));
            }
        }
        assert forall|s: usize| #[trigger] counts@.contains_key(s) implies counts@[s]
            == count_matching(agents@, active_in_subculture(ids, s)) by {
            let in_group_p = |a: Agent| subculture_key(ids)(a) == s && takes_active_mode(a);
            lemma_grouped_count(
                groups@,
                agents@,
                subculture_key(ids),
                s,
                |a: Agent| takes_active_mode(a),
                in_group_p,
                active_at(agents@),
            );
            assert(is_first_with_id(ids, ids[s as int], s as int));
            assert forall|i: int| 0 <= i < agents.len() implies #[trigger] in_group_p(agents@[i])
                == active_in_subculture(ids, s)(agents@[i]) by {
                lemma_id_group(ids, agents@[i].subculture, s);
            }
            lemma_count_matching_congruent(agents@, in_group_p, active_in_subculture(ids, s));
        }
    }
    counts
}

/// Whether the agent at a position takes an active mode.
pub open spec fn active_at(agents: Seq<Agent>) -> spec_fn(usize) -> bool {
    |r: usize| takes_active_mode(agents[r as int])
}

/// The number of agents at the positions `residents` who take an active mode.
pub open spec fn count_active_residents(residents: Seq<usize>, agents: Seq<Agent>) -> nat {
    count_matching(residents, active_at(agents))
}

/// Counts the agents at the positions `positions` who take an active mode.
pub fn count_active_at(positions: &Vec<usize>, agents: &[Agent]) -> (n: usize)
    requires
        forall|j: int| 0 <= j < positions.len() ==> #[trigger] positions@[j] < agents.len(),
    ensures
        n == count_active_residents(positions@, agents@),
{
    let mut n: usize = 0;
    let mut k: usize = 0;
    while k < positions.len()
        invariant
            k <= positions.len(),
            forall|j: int| 0 <= j < positions.len() ==> #[trigger] positions@[j] < agents.len(),
            n == count_active_residents(positions@.take(k as int), agents@),
        decreases positions.len() - k,
    {
        proof {
            assert(positions@.take(k + 1) =~= positions@.take(k as int).push(positions@[k as int]));
            lemma_count_matching_push(positions@.take(k as int), positions@[k as int], active_at(agents@));
            lemma_count_matching_bound(positions@.take(k as int), active_at(agents@));
        }
        if agents[positions[k]].current_mode.is_active() {
            n = n + 1;
        }
        k = k + 1;
    }
    proof {
        assert(positions@.take(positions.len() as int) =~= positions@);
    }
    n
}

/// Counts the number of agents who take an active mode grouped by neighbourhood
/// * neighbourhoods: The neighbourhoods to count from; neighbourhoods are equal when they
///   have the same id
/// * agents: The population the neighbourhoods' residents are positions in
/// * Returns: A map from each neighbourhood, named by the position of the first
///   neighbourhood with its id, to the number of residents whose current mode is Walk or
///   Cycle; where several neighbourhoods share an id, the count of the last of them is kept
pub fn count_active_mode_by_neighbourhood(neighbourhoods: &[Neighbourhood], agents: &[Agent]) -> (counts:
    HashMap<usize, usize>)
    requires
        forall|n: int, k: int|
            0 <= n < neighbourhoods.len() && 0 <= k < neighbourhoods@[n].residents.len()
                ==> #[trigger] neighbourhoods@[n].residents@[k] < agents.len(),
    ensures
        forall|c: usize| #[trigger]
            counts@.contains_key(c) <==> is_first_with_id(
                neighbourhood_ids_of(neighbourhoods@),
                neighbourhood_ids_of(neighbourhoods@)[c as int],
                c as int,
            ),
        forall|c: usize, l: int|
            #[trigger] counts@.contains_key(c) && #[trigger] is_last_with_id(
                neighbourhood_ids_of(neighbourhoods@),
                neighbourhood_ids_of(neighbourhoods@)[c as int],
                l,
            ) ==> counts@[c] == count_active_residents(neighbourhoods@[l].residents@, agents@),
{
    let ghost nids = neighbourhood_ids_of(neighbourhoods@);
    let mut ids: Vec<String> = Vec::new();
    let mut n: usize = 0;
    while n < neighbourhoods.len()
        invariant
            n <= neighbourhoods.len(),
            nids == neighbourhood_ids_of(neighbourhoods@),
            ids.len() == n,
            ids_of(ids@) == nids.take(n as int),
        decreases neighbourhoods.len() - n,
    {
        let id = neighbourhoods[n].id.clone();
        let ghost before = ids@;
        ids.push(id);
        proof {
            assert(id@ == nids[n as int]);
            assert forall|k: int| 0 <= k < n implies #[trigger] ids@[k]@ == nids[k] by {
                assert(ids@[k] == before[k]);
                assert(ids_of(before)[k] == nids.take(n as int)[k]);
            }
            assert(ids_of(ids@) =~= nids.take(n + 1));
        }
        n = n + 1;
    }
    proof {
        assert(nids.take(neighbourhoods.len() as int) =~= nids);
    }
    let mut counts: HashMap<usize, usize> = HashMap::new();
    let mut n: usize = 0;
    while n < neighbourhoods.len()
        invariant
            n <= neighbourhoods.len(),
            nids == neighbourhood_ids_of(neighbourhoods@),
            ids_of(ids@) == nids,
            forall|m: int, k: int|
                0 <= m < neighbourhoods.len() && 0 <= k < neighbourhoods@[m].residents.len()
                    ==> #[trigger] neighbourhoods@[m].residents@[k] < agents.len(),
            forall|c: usize| #[trigger]
                counts@.contains_key(c) <==> c < n && is_first_with_id(nids, nids[c as int], c as int),
            forall|c: usize, l: int|
                #[trigger] counts@.contains_key(c) && #[trigger] is_last_with_id(
                    nids.take(n as int),
                    nids[c as int],
                    l,
                ) ==> counts@[c] == count_active_residents(neighbourhoods@[l].residents@, agents@),
        decreases neighbourhoods.len() - n,
    {
        let key = first_sharing_id(&ids, n);
        let count = count_active_at(&neighbourhoods[n].residents, agents);
        let ghost old_counts = counts@;
        counts.insert(key, count);
        proof {
            lemma_id_group(nids, n, n);
            assert forall|c: usize| #[trigger] counts@.contains_key(c) <==> c < n + 1
                && is_first_with_id(nids, nids[c as int], c as int) by {
                if c < nids.len() {
                    lemma_id_group(nids, n, c);
                }
            }
            assert forall|c: usize, l: int|
                #[trigger] counts@.contains_key(c) && #[trigger] is_last_with_id(
                    nids.take(n + 1),
                    nids[c as int],
                    l,
                ) implies counts@[c] == count_active_residents(
                neighbourhoods@[l].residents@,
                agents@,
            ) by {
                lemma_id_group(nids, n, c);
                if c != key {
                    assert(nids[n as int] != nids[c as int]);
                    assert(l != n);
                    assert(is_last_with_id(nids.take(n as int), nids[c as int], l));
                    assert(old_counts.contains_key(c));
                } else {
                    assert(nids.take(n + 1)[n as int] == nids[c as int]);
                }
            }
        }
        n = n + 1;
    }
    proof {
        assert(nids.take(neighbourhoods.len() as int) =~= nids);
    }
    counts
}

} // verus!
