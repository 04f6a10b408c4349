//! Plain records shared by every part of the game: contenders, planets, vessels.
//!
//! Amounts of resources, radii and distances are fixed-point numbers: a `u64`
//! counting ten-thousandths, so that `Consts::RESOURCE_UNIT` stands for 1.
use vstd::prelude::*;

verus! {

/// The numbers that the rules of the game are made of.
pub struct Consts {}

impl Consts {
    /// How many stored steps make one whole unit of a fixed-point amount.
    pub const RESOURCE_UNIT: u64 = 10_000;

    /// Reserve of a planet on which a contender starts: 200 units.
    pub const ADD_PLAYER_RESOURCES_INIT: u64 = 2_000_000;

    /// Growth rate of a starting planet per tick: 0.0018.
    pub const ADD_PLAYER_RESOURCES_INC: u64 = 18;

    /// Reserve of any other planet: 600 units.
    pub const PLANET_RESOURCES_INIT: u64 = 6_000_000;

    /// Growth rate of any other planet per tick: 0.0012.
    pub const PLANET_RESOURCES_INC: u64 = 12;

    /// Price of one ship: 10 units.
    pub const ADD_SHIP_RESOURCE_COST: u64 = 100_000;

    /// Share of a fleet, in percent, that leaves when a fleet is sent away.
    pub const MOVE_SHIP_FLEET_PERCENT: usize = 50;

    /// Factor between a planet distance and the travel speed of a fleet: 10.
    pub const MOVE_SHIP_SPEED_MULT: u64 = 100_000;

    /// Value of `contender_id` on a planet that nobody owns, and of
    /// `celestial_id` on a vessel that orbits no planet.
    pub const NOBODY: usize = usize::MAX;
}

/// A display colour, eight bits per channel.
#[derive(Debug, Copy, Clone, PartialEq, Eq, Structural)]
pub struct Color {
    pub r: u8,
    pub g: u8,
    pub b: u8,
    pub a: u8,
}

/// The colours of the contenders, by contender id: red, green, yellow,
/// blue, orange, purple, cyan, magenta, lime, pink, teal, lavender, brown,
/// beige, maroon, mint, olive, apricot, navy, grey.
pub open spec fn palette() -> Seq<(u8, u8, u8)> {
    seq![
        (230u8, 25u8, 75u8),
        (60u8, 180u8, 75u8),
        (255u8, 225u8, 25u8),
        (0u8, 130u8, 200u8),
        (245u8, 130u8, 48u8),
        (145u8, 30u8, 180u8),
        (70u8, 240u8, 240u8),
        (240u8, 50u8, 230u8),
        (210u8, 245u8, 60u8),
        (250u8, 190u8, 212u8),
        (0u8, 128u8, 128u8),
        (220u8, 190u8, 255u8),
        (170u8, 110u8, 40u8),
        (255u8, 250u8, 200u8),
        (128u8, 0u8, 0u8),
        (170u8, 255u8, 195u8),
        (128u8, 128u8, 0u8),
        (255u8, 215u8, 180u8),
        (0u8, 0u8, 128u8),
        (128u8, 128u8, 128u8),
    ]
}

/// The colour of the contender `id`, fully opaque. There are twenty colours.
pub fn get_color(id: usize) -> (color: Color)
    requires
        id < palette().len(),
    ensures
        color == (Color {
            r: palette()[id as int].0,
            g: palette()[id as int].1,
            b: palette()[id as int].2,
            a: 255,
        }),
{
    let colors: [(u8, u8, u8); 20] = [
        (230, 25, 75),
        (60, 180, 75),
        (255, 225, 25),
        (0, 130, 200),
        (245, 130, 48),
        (145, 30, 180),
        (70, 240, 240),
        (240, 50, 230),
        (210, 245, 60),
        (250, 190, 212),
        (0, 128, 128),
        (220, 190, 255),
        (170, 110, 40),
        (255, 250, 200),
        (128, 0, 0),
        (170, 255, 195),
        (128, 128, 0),
        (255, 215, 180),
        (0, 0, 128),
        (128, 128, 128),
    ];
    assert(colors@ =~= palette());
    Color { r: colors[id].0, g: colors[id].1, b: colors[id].2, a: 255 }
}

/// Identity of a competing agent.
#[derive(Debug, Copy, Clone, PartialEq, Eq, Structural)]
pub struct ContenderProperties {
    pub id: usize,
    pub color: Color,
    pub bot: bool,
}

/// Anything that stands for a contender.
pub trait Contender {
    fn properties(&self) -> ContenderProperties;
}

/// A single ship.
#[derive(Debug, Copy, Clone, PartialEq, Eq, Structural)]
pub struct VesselProperties {
    pub id: usize,
    pub contender_id: usize,
    pub celestial_id: usize,
}

/// Anything that stands for a ship.
pub trait Vessel {
    fn properties(&self) -> VesselProperties;
}

/// Economic and military state of a planet.
#[derive(Debug, Copy, Clone, PartialEq, Eq, Structural)]
pub struct CelestialProperties {
    pub id: usize,
    pub contender_id: usize,
    pub radius: u64,
    /// Banked reserve, fixed-point.
    pub resources: u64,
    /// What the reserve gains per tick, fixed-point.
    pub resources_increase: u64,
    /// Spendable resources, fixed-point.
    pub extracted: u64,
}

/// Anything that stands for a planet.
pub trait Celestial {
    fn properties(&self) -> CelestialProperties;
}

/// The vessels one contender has in orbit around one planet.
pub type ContenderVessels = (ContenderProperties, Vec<VesselProperties>);

/// Mathematical counterpart of `ContenderVessels`.
pub type Fleet = (ContenderProperties, Seq<VesselProperties>);

/// The fleets around a planet as a sequence of mathematical fleets.
pub open spec fn fleets_of(ships_by_player: Seq<ContenderVessels>) -> Seq<Fleet> {
    Seq::new(ships_by_player.len(), |i: int| (ships_by_player[i].0, ships_by_player[i].1@))
}

/// Number of vessels in the first `n` fleets.
pub open spec fn vessels_upto(fleets: Seq<Fleet>, n: nat) -> nat
    decreases n,
{
    if n == 0 {
        0
    } else {
        vessels_upto(fleets, (n - 1) as nat) + fleets[n - 1].1.len()
    }
}

/// Number of vessels in all the fleets together.
pub open spec fn total_vessels(fleets: Seq<Fleet>) -> nat {
    vessels_upto(fleets, fleets.len())
}

/// Number of vessels that the contender `contender_id` has in the first `n` fleets.
pub open spec fn vessels_of_upto(fleets: Seq<Fleet>, contender_id: usize, n: nat) -> nat
    decreases n,
{
    if n == 0 {
        0
    } else {
        vessels_of_upto(fleets, contender_id, (n - 1) as nat) + if fleets[n - 1].0.id
            == contender_id {
            fleets[n - 1].1.len()
        } else {
            0
        }
    }
}

/// Number of vessels in the fleets of the contender `contender_id`.
pub open spec fn vessels_of(fleets: Seq<Fleet>, contender_id: usize) -> nat {
    vessels_of_upto(fleets, contender_id, fleets.len())
}

/// A contender never has more vessels than there are vessels, and a prefix of
/// the fleets never more than the whole.
pub proof fn lemma_vessels_bounds(fleets: Seq<Fleet>, contender_id: usize, n: nat, m: nat)
    requires
        n <= m,
    ensures
        vessels_of_upto(fleets, contender_id, n) <= vessels_upto(fleets, n),
        vessels_upto(fleets, n) <= vessels_upto(fleets, m),
        vessels_of_upto(fleets, contender_id, n) <= vessels_of_upto(fleets, contender_id, m),
    decreases m,
{
    if n > 0 {
        lemma_vessels_bounds(fleets, contender_id, (n - 1) as nat, (n - 1) as nat);
    }
    if n < m {
        lemma_vessels_bounds(fleets, contender_id, n, (m - 1) as nat);
    }
}

} // verus!
