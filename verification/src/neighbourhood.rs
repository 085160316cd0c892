use crate::agent::{count_last_mode, count_last_modes, lemma_count_matching_bound, took_last, Agent};
use crate::mode_map::ModeMap;
use crate::transport_mode::TransportMode;
use vstd::prelude::*;

verus! {

/// How congested a transport mode is in a neighbourhood.
#[derive(Debug, Clone, Copy, PartialEq, Eq, Structural)]
pub enum Congestion {
    /// No more residents take the mode than its capacity allows.
    Free,
    /// More residents take the mode than its capacity allows: `actual_excess` residents
    /// too many, out of at most `maximum_excess` (all residents but the capacity).
    Congested { actual_excess: usize, maximum_excess: usize },
}

/// A neighbourhood: its id, the capacity of each transport mode (the number of
/// residents a mode carries without congestion), the congestion last computed for each
/// mode, and its residents (positions in the population).
#[derive(Debug, Clone)]
pub struct Neighbourhood {
    pub id: String,
    pub capacity: ModeMap<u32>,
    pub congestion: ModeMap<Congestion>,
    pub residents: Vec<usize>,
}

/// The congestion of a mode taken by `count` of `residents` residents, with the given
/// capacity.
pub open spec fn congestion_of(count: nat, capacity: nat, residents: nat) -> Congestion {
    if count <= capacity {
        Congestion::Free
    } else {
        Congestion::Congested {
            actual_excess: (count - capacity) as usize,
            maximum_excess: (residents - capacity) as usize,
        }
    }
}

/// The congestion of a mode taken by `count` residents (if any took it), given its capacity.
pub open spec fn mode_congestion_spec(
    count: Option<usize>,
    capacity: Option<u32>,
    residents: usize,
) -> Option<Congestion> {
    match count {
        None => None,
        Some(c) => Some(congestion_of(c as nat, capacity->0 as nat, residents as nat)),
    }
}

fn mode_congestion(count: Option<usize>, capacity: Option<u32>, residents: usize) -> (c: Option<
    Congestion,
>)
    requires
        count is Some ==> capacity is Some && count->0 <= residents,
    ensures
        c == mode_congestion_spec(count, capacity, residents),
{
    match count {
        None => None,
        Some(count) => {
            let capacity = capacity.unwrap() as usize;
            if count <= capacity {
                Some(Congestion::Free)
            } else {
                Some(
                    Congestion::Congested {
                        actual_excess: count - capacity,
                        maximum_excess: residents - capacity,
                    },
                )
            }
        },
    }
}

/// A congested mode is never congested by more than its maximum excess: a mode taken by
/// `count` of the `residents` residents is either free or congested by
/// `actual_excess <= maximum_excess`, with `actual_excess > 0`.
pub proof fn lemma_congestion_bounded(count: nat, capacity: nat, residents: nat)
    requires
        count <= residents <= usize::MAX,
    ensures
        match congestion_of(count, capacity, residents) {
            Congestion::Free => count <= capacity,
            Congestion::Congested { actual_excess, maximum_excess } => 0 < actual_excess
                <= maximum_excess && capacity < count,
        },
{
}

impl Neighbourhood {
    /// This updates the congestion modifier: the residents are grouped by the mode they
    /// took on the previous day; a mode taken by no more residents than its capacity is
    /// free, a mode taken by more is congested by the excess of its users over its
    /// capacity, out of the excess of all residents over its capacity. Modes no resident
    /// took are left out.
    pub fn update_congestion_modifier(&mut self, agents: &Vec<Agent>)
        requires
            forall|k: int|
                0 <= k < old(self).residents.len() ==> #[trigger] old(self).residents@[k]
                    < agents.len(),
            forall|m: TransportMode|
                count_last_mode(old(self).residents@, agents@, m) > 0 ==> (#[trigger] old(
                    self,
                ).capacity.entry(m)) is Some,
        ensures
            final(self).id == old(self).id,
            final(self).capacity == old(self).capacity,
            final(self).residents == old(self).residents,
            forall|m: TransportMode| #[trigger]
                final(self).congestion.entry(m) == if count_last_mode(
                    old(self).residents@,
                    agents@,
                    m,
                ) > 0 {
                    Some(
                        congestion_of(
                            count_last_mode(old(self).residents@, agents@, m),
                            old(self).capacity.entry(m)->0 as nat,
                            old(self).residents.len() as nat,
                        ),
                    )
                } else {
                    None
                },
    {
        let counts = count_last_modes(&self.residents, agents);
        let residents = self.residents.len();
        proof {
            assert forall|m: TransportMode| true implies count_last_mode(
                self.residents@,
                agents@,
                m,
            ) <= residents by {
                lemma_count_matching_bound(self.residents@, took_last(agents@, m));
            }
            let modes = seq![
                TransportMode::Car,
                TransportMode::PublicTransport,
                TransportMode::Cycle,
                TransportMode::Walk,
            ];
            assert forall|i: int| 0 <= i < 4 && (#[trigger] counts.entry(modes[i])) is Some implies
                self.capacity.entry(modes[i]) is Some && counts.entry(modes[i])->0
                <= residents by {
                let m = modes[i];
                assert(count_last_mode(self.residents@, agents@, m) <= residents);
            }
            assert(counts.entry(modes[0]) == counts.car);
            assert(counts.entry(modes[1]) == counts.public_transport);
            assert(counts.entry(modes[2]) == counts.cycle);
            assert(counts.entry(modes[3]) == counts.walk);
        }
        let congestion = ModeMap {
            car: mode_congestion(counts.car, self.capacity.car, residents),
            public_transport: mode_congestion(
                counts.public_transport,
                self.capacity.public_transport,
                residents,
            ),
            cycle: mode_congestion(counts.cycle, self.capacity.cycle, residents),
            walk: mode_congestion(counts.walk, self.capacity.walk, residents),
        };
        assert(forall|m: TransportMode| #[trigger] congestion.entry(m) == mode_congestion_spec(
            counts.entry(m),
            self.capacity.entry(m),
            residents,
        ));
        self.congestion = congestion;
    }
}

} // verus!
