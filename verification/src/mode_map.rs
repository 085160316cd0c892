use crate::transport_mode::TransportMode;
use vstd::prelude::*;

verus! {

/// A map from transport modes to values, holding a value for some of the modes.
#[derive(Debug, Clone, Copy, PartialEq, Eq)]
pub struct ModeMap<V> {
    pub car: Option<V>,
    pub public_transport: Option<V>,
    pub cycle: Option<V>,
    pub walk: Option<V>,
}

/// The transport modes, in the order `ModeMap::entries` lists them.
pub open spec fn all_modes() -> Seq<TransportMode> {
    seq![TransportMode::Car, TransportMode::PublicTransport, TransportMode::Cycle, TransportMode::Walk]
}

impl<V> ModeMap<V> {
    /// The entry of the map for `mode`.
    pub open spec fn entry(self, mode: TransportMode) -> Option<V> {
        match mode {
            TransportMode::Car => self.car,
            TransportMode::PublicTransport => self.public_transport,
            TransportMode::Cycle => self.cycle,
            TransportMode::Walk => self.walk,
        }
    }
}

impl<V> View for ModeMap<V> {
    type V = Map<TransportMode, V>;

    open spec fn view(&self) -> Map<TransportMode, V> {
        Map::new(|m: TransportMode| self.entry(m) is Some, |m: TransportMode| self.entry(m)->0)
    }
}

impl<V: Copy> ModeMap<V> {
    /// The map that holds no value.
    pub fn new() -> (map: Self)
        ensures
            map@ == Map::<TransportMode, V>::empty(),
            forall|m: TransportMode| #[trigger] map.entry(m) == None::<V>,
    {
        let map = ModeMap { car: None, public_transport: None, cycle: None, walk: None };
        assert(map@ =~= Map::<TransportMode, V>::empty());
        map
    }

    /// The value held for `mode`, if any.
    pub fn get(&self, mode: TransportMode) -> (value: Option<V>)
        ensures
            value == self.entry(mode),
            value is Some <==> self@.contains_key(mode),
            value is Some ==> value->0 == self@[mode],
    {
        match mode {
            TransportMode::Car => self.car,
            TransportMode::PublicTransport => self.public_transport,
            TransportMode::Cycle => self.cycle,
            TransportMode::Walk => self.walk,
        }
    }

    /// Sets the value held for `mode`.
    pub fn insert(&mut self, mode: TransportMode, value: V)
        ensures
            final(self)@ == old(self)@.insert(mode, value),
            forall|m: TransportMode| #[trigger]
                final(self).entry(m) == if m == mode {
                    Some(value)
                } else {
                    old(self).entry(m)
                },
    {
        match mode {
            TransportMode::Car => self.car = Some(value),
            TransportMode::PublicTransport => self.public_transport = Some(value),
            TransportMode::Cycle => self.cycle = Some(value),
            TransportMode::Walk => self.walk = Some(value),
        }
        assert(self@ =~= old(self)@.insert(mode, value));
    }

    /// The entries of the map, in the order car, public transport, cycle, walk.
    pub fn entries(&self) -> (entries: Vec<(TransportMode, V)>)
        ensures
            entries@ == all_modes().filter(|m: TransportMode| self.entry(m) is Some).map_values(
                |m: TransportMode| (m, self.entry(m)->0),
            ),
    {
        let mut entries: Vec<(TransportMode, V)> = Vec::new();
        if let Some(v) = self.car {
            entries.push((TransportMode::Car, v));
        }
        if let Some(v) = self.public_transport {
            entries.push((TransportMode::PublicTransport, v));
        }
        if let Some(v) = self.cycle {
            entries.push((TransportMode::Cycle, v));
        }
        if let Some(v) = self.walk {
            entries.push((TransportMode::Walk, v));
        }
        proof {
            reveal_with_fuel(Seq::filter, 5);
        }
        assert(entries@ =~= all_modes().filter(|m: TransportMode| self.entry(m) is Some).map_values(
            |m: TransportMode| (m, self.entry(m)->0),
        ));
        entries
    }
}

} // verus!
