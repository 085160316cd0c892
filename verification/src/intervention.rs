use crate::agent::{count_matching, lemma_count_matching_push, Agent};
use crate::mode_map::ModeMap;
use crate::neighbourhood::Neighbourhood;
use crate::transport_mode::TransportMode;
use rand::seq::sample_slice_ref;
use rand::thread_rng;
use vstd::prelude::*;

verus! {

/// A vehicle that agents may own.
#[derive(Debug, Clone, Copy, PartialEq, Eq, Structural)]
pub enum Vehicle {
    Bike,
    Car,
}

/// Whether the agent owns the vehicle.
pub open spec fn owns(a: Agent, vehicle: Vehicle) -> bool {
    match vehicle {
        Vehicle::Bike => a.owns_bike,
        Vehicle::Car => a.owns_car,
    }
}

/// Whether an agent owns the vehicle.
pub open spec fn owner_of(vehicle: Vehicle) -> spec_fn(Agent) -> bool {
    |a: Agent| owns(a, vehicle)
}

/// Whether an agent does not own the vehicle.
pub open spec fn non_owner_of(vehicle: Vehicle) -> spec_fn(Agent) -> bool {
    |a: Agent| !owns(a, vehicle)
}

/// The two agents are the same but for which vehicles they own.
pub open spec fn same_but_vehicles(a: Agent, b: Agent) -> bool {
    &&& a.subculture == b.subculture
    &&& a.neighbourhood == b.neighbourhood
    &&& a.commute_length == b.commute_length
    &&& a.current_mode == b.current_mode
    &&& a.last_mode == b.last_mode
    &&& a.norm == b.norm
    &&& a.social_network@ == b.social_network@
    &&& a.neighbours@ == b.neighbours@
}

/// The two agents are the same but for whether they own the vehicle.
pub open spec fn same_but_ownership_of(a: Agent, b: Agent, vehicle: Vehicle) -> bool {
    &&& same_but_vehicles(a, b)
    &&& vehicle == Vehicle::Bike ==> a.owns_car == b.owns_car
    &&& vehicle == Vehicle::Car ==> a.owns_bike == b.owns_bike
}

/// Draws `amount` of the `candidates` at random, none twice, through rand's
/// `seq::sample_slice_ref` with `thread_rng`; rand panics when `amount` exceeds the
/// number of candidates and otherwise returns references to `amount` different positions
/// of the slice. Which candidates come out, and in which order, is left to chance.
#[verifier::external_body]
fn sample_candidates(candidates: &Vec<usize>, amount: usize) -> (sample: Vec<usize>)
    requires
        amount <= candidates.len(),
        candidates@.no_duplicates(),
    ensures
        sample.len() == amount,
        sample@.no_duplicates(),
        forall|k: int| 0 <= k < amount ==> candidates@.contains(#[trigger] sample@[k]),
{
    let mut rng = thread_rng();
    sample_slice_ref(&mut rng, candidates.as_slice(), amount).into_iter().map(|c| *c).collect()
}

proof fn lemma_count_matching_update(s: Seq<Agent>, i: int, x: Agent, p: spec_fn(Agent) -> bool)
    requires
        0 <= i < s.len(),
    ensures
        count_matching(s.update(i, x), p) + (if p(s[i]) {
            1nat
        } else {
            0nat
        }) == count_matching(s, p) + if p(x) {
            1nat
        } else {
            0nat
        },
    decreases s.len(),
{
    if i == s.len() - 1 {
        assert(s.update(i, x).drop_last() =~= s.drop_last());
    } else {
        assert(s.update(i, x).drop_last() =~= s.drop_last().update(i, x));
        lemma_count_matching_update(s.drop_last(), i, x, p);
    }
}

/// The positions of the agents whose ownership of `vehicle` is `owned`, in order.
fn positions_with_ownership(agents: &Vec<Agent>, vehicle: Vehicle, owned: bool) -> (positions: Vec<usize>)
    ensures
        positions.len() == if owned {
            count_matching(agents@, owner_of(vehicle))
        } else {
            count_matching(agents@, non_owner_of(vehicle))
        },
        positions@.no_duplicates(),
        forall|k: int|
            0 <= k < positions.len() ==> #[trigger] positions@[k] < agents.len() && owns(
                agents@[positions@[k] as int],
                vehicle,
            ) == owned,
{
    let mut positions: Vec<usize> = Vec::new();
    let mut k: usize = 0;
    while k < agents.len()
        invariant
            k <= agents.len(),
            positions.len() == if owned {
                count_matching(agents@.take(k as int), owner_of(vehicle))
            } else {
                count_matching(agents@.take(k as int), non_owner_of(vehicle))
            },
            forall|j: int| 0 <= j < positions.len() ==> #[trigger] positions@[j] < k,
            forall|i: int, j: int|
                0 <= i < j < positions.len() ==> #[trigger] positions@[i] < #[trigger] positions@[j],
            forall|j: int|
                0 <= j < positions.len() ==> #[trigger] owns(agents@[positions@[j] as int], vehicle)
                    == owned,
        decreases agents.len() - k,
    {
        proof {
            assert(agents@.take(k + 1) =~= agents@.take(k as int).push(agents@[k as int]));
            lemma_count_matching_push(agents@.take(k as int), agents@[k as int], owner_of(vehicle));
            lemma_count_matching_push(
                agents@.take(k as int),
                agents@[k as int],
                non_owner_of(vehicle),
            );
        }
        let has = match vehicle {
            Vehicle::Bike => agents[k].owns_bike,
            Vehicle::Car => agents[k].owns_car,
        };
        if has == owned {
            positions.push(k);
        }
        k = k + 1;
    }
    proof {
        assert(agents@.take(agents.len() as int) =~= agents@);
        assert forall|i: int, j: int|
            0 <= i < positions.len() && 0 <= j < positions.len() && i != j implies positions@[i]
            != positions@[j] by {
            if i < j {
                assert(positions@[i] < positions@[j]);
            } else {
                assert(positions@[j] < positions@[i]);
            }
        }
    }
    positions
}

/// Gives `change` agents who do not own `vehicle` one, or, when `change` is negative,
/// takes it away from `-change` agents who own one; the agents are drawn at random.
/// Nothing else about the agents changes: the owners of the vehicle afterwards are the
/// owners before with the drawn agents added (or removed), so their number changes by
/// exactly `change`.
pub fn change_ownership(agents: &mut Vec<Agent>, vehicle: Vehicle, change: i32)
    requires
        change != i32::MIN,
        change > 0 ==> change <= count_matching(old(agents)@, non_owner_of(vehicle)),
        change < 0 ==> -change <= count_matching(old(agents)@, owner_of(vehicle)),
    ensures
        final(agents).len() == old(agents).len(),
        forall|k: int|
            0 <= k < final(agents).len() ==> same_but_ownership_of(
                #[trigger] final(agents)@[k],
                old(agents)@[k],
                vehicle,
            ),
        change >= 0 ==> forall|k: int|
            0 <= k < final(agents).len() && owns(old(agents)@[k], vehicle) ==> owns(
                #[trigger] final(agents)@[k],
                vehicle,
            ),
        change <= 0 ==> forall|k: int|
            0 <= k < final(agents).len() && !owns(old(agents)@[k], vehicle) ==> !owns(
                #[trigger] final(agents)@[k],
                vehicle,
            ),
        count_matching(final(agents)@, owner_of(vehicle)) == count_matching(
            old(agents)@,
            owner_of(vehicle),
        ) + change,
{
    if change == 0 {
        return ;
    }
    let give = change > 0;
    let amount: usize = if give {
        change as usize
    } else {
        (-change) as usize
    };
    let candidates = positions_with_ownership(agents, vehicle, !give);
    let sample = sample_candidates(&candidates, amount);
    let ghost start = agents@;
    let mut j: usize = 0;
    while j < sample.len()
        invariant
            j <= sample.len(),
            sample.len() == amount,
            amount as int == if give {
                change as int
            } else {
                -change
            },
            give == (change > 0),
            sample@.no_duplicates(),
            agents.len() == start.len(),
            forall|k: int|
                0 <= k < amount ==> #[trigger] sample@[k] < start.len() && owns(
                    start[sample@[k] as int],
                    vehicle,
                ) != give,
            forall|k: int|
                0 <= k < agents.len() ==> same_but_ownership_of(
                    #[trigger] agents@[k],
                    start[k],
                    vehicle,
                ),
            forall|k: int|
                0 <= k < agents.len() ==> #[trigger] owns(agents@[k], vehicle) == if exists|
                    i: int,
                | 0 <= i < j && sample@[i] == k {
                    give
                } else {
                    owns(start[k], vehicle)
                },
            count_matching(agents@, owner_of(vehicle)) == count_matching(start, owner_of(vehicle))
                + if give {
                j as int
            } else {
                -(j as int)
            },
        decreases sample.len() - j,
    {
        let target = sample[j];
        let ghost before = agents@;
        proof {
            assert(forall|i: int| 0 <= i < j ==> sample@[i] != sample@[j as int]);
        }
        match vehicle {
            Vehicle::Bike => agents[target].owns_bike = give,
            Vehicle::Car => agents[target].owns_car = give,
        }
        proof {
            assert(agents@ == before.update(target as int, agents@[target as int]));
            lemma_count_matching_update(before, target as int, agents@[target as int], owner_of(vehicle));
        }
        j = j + 1;
    }
}

/// A capacity brought back into the range of `u32`: negative values become 0 and values
/// above `u32::MAX` become `u32::MAX`.
pub open spec fn clamp_capacity(v: int) -> u32 {
    if v < 0 {
        0
    } else if v > u32::MAX {
        u32::MAX
    } else {
        v as u32
    }
}

/// The capacity of a mode after an increase, where either may be missing.
pub open spec fn changed_capacity(capacity: Option<u32>, increase: Option<i64>) -> Option<u32> {
    match (capacity, increase) {
        (None, None) => None,
        (Some(c), None) => Some(c),
        (None, Some(i)) => Some(clamp_capacity(i as int)),
        (Some(c), Some(i)) => Some(clamp_capacity(c + i)),
    }
}

/// An intervention adds its increase to a capacity: where both are given, the new
/// capacity is their sum when that lies in the range of `u32`, 0 when the sum is negative
/// and `u32::MAX` when it is larger; a capacity without an increase stays as it is, and
/// an increase without a capacity becomes the capacity, brought into the same range.
pub proof fn lemma_capacity_change_adds(c: u32, i: i64)
    ensures
        0 <= c + i <= u32::MAX ==> changed_capacity(Some(c), Some(i)) == Some((c + i) as u32),
        c + i < 0 ==> changed_capacity(Some(c), Some(i)) == Some(0u32),
        c + i > u32::MAX ==> changed_capacity(Some(c), Some(i)) == Some(u32::MAX),
        changed_capacity(Some(c), None) == Some(c),
        0 <= i <= u32::MAX ==> changed_capacity(None, Some(i)) == Some(i as u32),
        i < 0 ==> changed_capacity(None, Some(i)) == Some(0u32),
        i > u32::MAX ==> changed_capacity(None, Some(i)) == Some(u32::MAX),
        changed_capacity(None, None) == None::<u32>,
{
}

/// An increase that keeps the capacity within the range of `u32` is undone by the opposite
/// change: changing by `i` and then by `-i` gives the capacity back.
pub proof fn lemma_capacity_change_undone(c: u32, i: i64)
    requires
        0 <= c + i <= u32::MAX,
        i > i64::MIN,
    ensures
        changed_capacity(changed_capacity(Some(c), Some(i)), Some((-i) as i64)) == Some(c),
{
    lemma_capacity_change_adds(c, i);
    lemma_capacity_change_adds((c + i) as u32, (-i) as i64);
}

/// A larger increase never gives a smaller capacity.
pub proof fn lemma_capacity_change_monotone(c: u32, i: i64, j: i64)
    requires
        i <= j,
    ensures
        changed_capacity(Some(c), Some(i))->0 <= changed_capacity(Some(c), Some(j))->0,
{
}

fn mode_capacity_change(capacity: Option<u32>, increase: Option<i64>) -> (changed: Option<u32>)
    requires
        capacity is Some && increase is Some ==> capacity->0 + increase->0 <= i64::MAX,
    ensures
        changed == changed_capacity(capacity, increase),
        capacity is Some && increase is Some && 0 <= capacity->0 + increase->0 <= u32::MAX
            ==> changed == Some((capacity->0 + increase->0) as u32),
{
    let signed: Option<i64> = match (capacity, increase) {
        (None, None) => None,
        (Some(c), None) => Some(c as i64),
        (None, Some(i)) => Some(i),
        (Some(c), Some(i)) => Some(c as i64 + i),
    };
    match signed {
        None => None,
        Some(v) => {
            if v < 0 {
                Some(0)
            } else if v > u32::MAX as i64 {
                Some(u32::MAX)
            } else {
                Some(v as u32)
            }
        },
    }
}

/// The capacities after an intervention: each capacity is widened to a signed value, the
/// increase is added where both are given (a mode with only one of them keeps it), and the
/// result is brought back into the range of `u32` (below 0 becomes 0, above `u32::MAX`
/// becomes `u32::MAX`).
pub fn apply_capacity_change(capacity: &ModeMap<u32>, increase: &ModeMap<i64>) -> (changed:
    ModeMap<u32>)
    requires
        forall|m: TransportMode|
            (#[trigger] capacity.entry(m)) is Some && increase.entry(m) is Some ==> capacity.entry(
                m,
            )->0 + increase.entry(m)->0 <= i64::MAX,
    ensures
        forall|m: TransportMode| #[trigger]
            changed.entry(m) == changed_capacity(capacity.entry(m), increase.entry(m)),
        forall|m: TransportMode|
            (#[trigger] capacity.entry(m)) is Some && increase.entry(m) is Some && 0
                <= capacity.entry(m)->0 + increase.entry(m)->0 <= u32::MAX ==> changed.entry(m)
                == Some((capacity.entry(m)->0 + increase.entry(m)->0) as u32),
{
    proof {
        assert(capacity.entry(TransportMode::Car) == capacity.car);
        assert(capacity.entry(TransportMode::PublicTransport) == capacity.public_transport);
        assert(capacity.entry(TransportMode::Cycle) == capacity.cycle);
        assert(capacity.entry(TransportMode::Walk) == capacity.walk);
    }
    let changed = ModeMap {
        car: mode_capacity_change(capacity.car, increase.car),
        public_transport: mode_capacity_change(
            capacity.public_transport,
            increase.public_transport,
        ),
        cycle: mode_capacity_change(capacity.cycle, increase.cycle),
        walk: mode_capacity_change(capacity.walk, increase.walk),
    };
    assert(forall|m: TransportMode| #[trigger]
        changed.entry(m) == changed_capacity(capacity.entry(m), increase.entry(m)));
    changed
}

/// Whether `p` is the position of the first id in `ids` equal to `id`.
pub open spec fn is_first_with_id(ids: Seq<Seq<char>>, id: Seq<char>, p: int) -> bool {
    &&& 0 <= p < ids.len()
    &&& ids[p] == id
    &&& forall|q: int| 0 <= q < p ==> ids[q] != id
}

/// The ids of a list of strings.
pub open spec fn ids_of(ids: Seq<String>) -> Seq<Seq<char>> {
    Seq::new(ids.len(), |k: int| ids[k]@)
}

/// The ids of a list of neighbourhoods.
pub open spec fn neighbourhood_ids_of(neighbourhoods: Seq<Neighbourhood>) -> Seq<Seq<char>> {
    Seq::new(neighbourhoods.len(), |k: int| neighbourhoods[k].id@)
}

/// The position of the first id in `ids` equal to `id`; some id must be equal to it.
pub fn position_of_id(ids: &Vec<String>, id: &String) -> (position: usize)
    requires
        exists|q: int| 0 <= q < ids.len() && (#[trigger] ids@[q])@ == id@,
    ensures
        is_first_with_id(ids_of(ids@), id@, position as int),
{
    let mut k: usize = 0;
    while k < ids.len()
        invariant
            k <= ids.len(),
            forall|q: int| 0 <= q < k ==> (#[trigger] ids@[q])@ != id@,
            exists|q: int| 0 <= q < ids.len() && (#[trigger] ids@[q])@ == id@,
        decreases ids.len() - k,
    {
        if ids[k] == *id {
            return k;
        }
        k = k + 1;
    }
    proof {
        let q = choose|q: int| 0 <= q < ids.len() && (#[trigger] ids@[q])@ == id@;
        assert(ids@[q]@ != id@);
    }
    0
}

/// The position of the first id in `ids` equal to `id` (meaningful when there is one).
pub open spec fn first_with_id(ids: Seq<Seq<char>>, id: Seq<char>) -> int {
    choose|p: int| is_first_with_id(ids, id, p)
}

/// Entries that share an id are one group, named by the position of its first entry:
/// the group of the entry at position `p`.
pub open spec fn id_group(ids: Seq<Seq<char>>, p: usize) -> usize {
    first_with_id(ids, ids[p as int]) as usize
}

/// Whether `p` is the position of the last id in `ids` equal to `id`.
pub open spec fn is_last_with_id(ids: Seq<Seq<char>>, id: Seq<char>, p: int) -> bool {
    &&& 0 <= p < ids.len()
    &&& ids[p] == id
    &&& forall|q: int| p < q < ids.len() ==> ids[q] != id
}

/// An id that occurs has a first position, which `first_with_id` names, and no other
/// position is the first.
pub proof fn lemma_first_with_id(ids: Seq<Seq<char>>, id: Seq<char>, p: int)
    requires
        0 <= p < ids.len(),
        ids[p] == id,
    ensures
        is_first_with_id(ids, id, first_with_id(ids, id)),
        first_with_id(ids, id) <= p,
        forall|q: int| #[trigger] is_first_with_id(ids, id, q) ==> q == first_with_id(ids, id),
    decreases p,
{
    if exists|q: int| 0 <= q < p && ids[q] == id {
        let q = choose|q: int| 0 <= q < p && ids[q] == id;
        lemma_first_with_id(ids, id, q);
    } else {
        assert(is_first_with_id(ids, id, p));
    }
    let f = first_with_id(ids, id);
    assert forall|q: int| #[trigger] is_first_with_id(ids, id, q) implies q == f by {
        if q < f {
            assert(ids[q] == id);
        } else if f < q {
            assert(ids[f] == id);
        }
    }
}

/// Two entries are in one group exactly when they have the same id; a group is named by
/// the first position with its id.
pub proof fn lemma_id_group(ids: Seq<Seq<char>>, p: usize, q: usize)
    requires
        p < ids.len(),
        q < ids.len(),
    ensures
        id_group(ids, p) < ids.len(),
        is_first_with_id(ids, ids[p as int], id_group(ids, p) as int),
        ids[id_group(ids, p) as int] == ids[p as int],
        (id_group(ids, p) == id_group(ids, q)) == (ids[p as int] == ids[q as int]),
        (id_group(ids, p) == q) == (ids[p as int] == ids[q as int] && is_first_with_id(
            ids,
            ids[q as int],
            q as int,
        )),
{
    lemma_first_with_id(ids, ids[p as int], p as int);
    lemma_first_with_id(ids, ids[q as int], q as int);
}

/// The group of the entry at position `p`: the position of the first entry with its id.
pub fn first_sharing_id(ids: &Vec<String>, p: usize) -> (group: usize)
    requires
        p < ids.len(),
    ensures
        group == id_group(ids_of(ids@), p),
{
    let group = position_of_id(ids, &ids[p]);
    proof {
        lemma_id_group(ids_of(ids@), p, p);
        lemma_first_with_id(ids_of(ids@), ids@[p as int]@, p as int);
    }
    group
}

/// The position of the last id in `ids` equal to `id`; some id must be equal to it.
pub fn last_position_of_id(ids: &Vec<String>, id: &String) -> (position: usize)
    requires
        exists|q: int| 0 <= q < ids.len() && (#[trigger] ids@[q])@ == id@,
    ensures
        is_last_with_id(ids_of(ids@), id@, position as int),
{
    let mut k: usize = ids.len();
    while k > 0
        invariant
            k <= ids.len(),
            forall|q: int| k <= q < ids.len() ==> (#[trigger] ids@[q])@ != id@,
            exists|q: int| 0 <= q < ids.len() && (#[trigger] ids@[q])@ == id@,
        decreases k,
    {
        if ids[k - 1] == *id {
            return k - 1;
        }
        k = k - 1;
    }
    proof {
        let q = choose|q: int| 0 <= q < ids.len() && (#[trigger] ids@[q])@ == id@;
        assert(ids@[q]@ != id@);
    }
    0
}

/// Applies an intervention's change of capacities to the first neighbourhood whose id is
/// `id`, which must exist, and returns its position.
pub fn change_neighbourhood_capacity(
    neighbourhoods: &mut Vec<Neighbourhood>,
    id: &String,
    increase_in_capacity: &ModeMap<i64>,
) -> (position: usize)
    requires
        exists|q: int| 0 <= q < old(neighbourhoods).len() && (#[trigger] old(neighbourhoods)@[q]).id@ == id@,
        forall|n: int, m: TransportMode|
            is_first_with_id(neighbourhood_ids_of(old(neighbourhoods)@), id@, n) && (
            #[trigger] old(neighbourhoods)@[n].capacity.entry(m)) is Some
                && increase_in_capacity.entry(m) is Some ==> old(neighbourhoods)@[n].capacity.entry(m)->0
                + increase_in_capacity.entry(m)->0 <= i64::MAX,
    ensures
        final(neighbourhoods).len() == old(neighbourhoods).len(),
        is_first_with_id(neighbourhood_ids_of(old(neighbourhoods)@), id@, position as int),
        forall|q: int|
            0 <= q < old(neighbourhoods).len() && q != position ==> #[trigger] final(neighbourhoods)@[q]
                == old(neighbourhoods)@[q],
        final(neighbourhoods)@[position as int].id == old(neighbourhoods)@[position as int].id,
        final(neighbourhoods)@[position as int].residents == old(neighbourhoods)@[position as int].residents,
        final(neighbourhoods)@[position as int].congestion == old(neighbourhoods)@[position as int].congestion,
        forall|m: TransportMode| #[trigger]
            final(neighbourhoods)@[position as int].capacity.entry(m) == changed_capacity(
                old(neighbourhoods)@[position as int].capacity.entry(m),
                increase_in_capacity.entry(m),
            ),
        forall|m: TransportMode|
            (#[trigger] old(neighbourhoods)@[position as int].capacity.entry(m)) is Some
                && increase_in_capacity.entry(m) is Some && 0 <= old(
                neighbourhoods,
            )@[position as int].capacity.entry(m)->0 + increase_in_capacity.entry(m)->0
                <= u32::MAX ==> final(neighbourhoods)@[position as int].capacity.entry(m) == Some(
                (old(neighbourhoods)@[position as int].capacity.entry(m)->0
                    + increase_in_capacity.entry(m)->0) as u32,
            ),
{
    let mut k: usize = 0;
    while k < neighbourhoods.len()
        invariant
            k <= neighbourhoods.len(),
            neighbourhoods@ == old(neighbourhoods)@,
            forall|q: int| 0 <= q < k ==> (#[trigger] neighbourhoods@[q]).id@ != id@,
            exists|q: int| 0 <= q < neighbourhoods.len() && (#[trigger] neighbourhoods@[q]).id@ == id@,
            forall|n: int, m: TransportMode|
                is_first_with_id(neighbourhood_ids_of(neighbourhoods@), id@, n) && (
                #[trigger] neighbourhoods@[n].capacity.entry(m)) is Some
                    && increase_in_capacity.entry(m) is Some ==> neighbourhoods@[n].capacity.entry(m)->0
                    + increase_in_capacity.entry(m)->0 <= i64::MAX,
        decreases neighbourhoods.len() - k,
    {
        if neighbourhoods[k].id == *id {
            proof {
                assert(is_first_with_id(neighbourhood_ids_of(neighbourhoods@), id@, k as int));
            }
            let changed = apply_capacity_change(&neighbourhoods[k].capacity, increase_in_capacity);
            neighbourhoods[k].capacity = changed;
            return k;
        }
        k = k + 1;
    }
    proof {
        let q = choose|q: int| 0 <= q < neighbourhoods.len() && (#[trigger] neighbourhoods@[q]).id@ == id@;
        assert(neighbourhoods@[q].id@ != id@);
    }
    0
}

} // verus!
