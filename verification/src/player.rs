//! What a contender can do in one turn.
use vstd::prelude::*;
use crate::model::CelestialProperties;

verus! {

/// One action of a contender.
#[derive(Debug, Copy, Clone, PartialEq, Eq, Structural)]
pub enum PlayerAction {
    /// Build one ship on the planet.
    AddShip(CelestialProperties),
    /// Send part of the fleet from the first planet to the second.
    MoveShips(CelestialProperties, CelestialProperties),
    Wait,
}

} // verus!
