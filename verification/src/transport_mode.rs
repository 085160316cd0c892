use vstd::prelude::*;

verus! {

/// The transport modes that can be taken by agents.
#[derive(Debug, Clone, Copy, PartialEq, Eq, Hash, Structural)]
pub enum TransportMode {
    Car,
    PublicTransport,
    Cycle,
    Walk,
}

impl TransportMode {
    /// A mode is active when the commuter moves under their own power.
    pub open spec fn spec_is_active(self) -> bool {
        self == TransportMode::Walk || self == TransportMode::Cycle
    }

    /// Whether the mode is active (walking or cycling).
    pub fn is_active(&self) -> (res: bool)
        ensures
            res == self.spec_is_active(),
    {
        *self == TransportMode::Walk || *self == TransportMode::Cycle
    }

    /// A number for each mode, different for different modes, by which modes are grouped.
    pub open spec fn spec_code(self) -> usize {
        match self {
            TransportMode::Car => 0,
            TransportMode::PublicTransport => 1,
            TransportMode::Cycle => 2,
            TransportMode::Walk => 3,
        }
    }

    /// The number by which the mode is grouped.
    pub fn code(&self) -> (c: usize)
        ensures
            c == self.spec_code(),
    {
        match self {
            TransportMode::Car => 0,
            TransportMode::PublicTransport => 1,
            TransportMode::Cycle => 2,
            TransportMode::Walk => 3,
        }
    }
}

} // verus!
