//! Economy and battle rules of a single planet.
use vstd::prelude::*;
use rand::Rng;
use crate::arith::{lemma_product_fits, lemma_sum_fits};
use crate::model::{
    CelestialProperties, Consts, ContenderProperties, ContenderVessels, Fleet, VesselProperties,
    fleets_of, total_vessels, vessels_upto, lemma_vessels_bounds,
};

verus! {

/// The reserve of `props` after one tick of growth, capped at the largest amount.
pub open spec fn accrued(props: CelestialProperties) -> int {
    if props.resources + props.resources_increase > u64::MAX {
        u64::MAX as int
    } else {
        props.resources + props.resources_increase
    }
}

/// What `orbiters_count` ships extract in one tick: one unit each, as far as
/// the grown reserve goes.
pub open spec fn extraction(props: CelestialProperties, orbiters_count: int) -> int {
    if accrued(props) <= orbiters_count * Consts::RESOURCE_UNIT {
        accrued(props)
    } else {
        orbiters_count * Consts::RESOURCE_UNIT
    }
}

/// The planet after one tick with `orbiters_count` ships in orbit.
pub open spec fn after_update(props: CelestialProperties, orbiters_count: int)
    -> CelestialProperties {
    CelestialProperties {
        resources: (accrued(props) - extraction(props, orbiters_count)) as u64,
        extracted: if props.extracted + extraction(props, orbiters_count) > u64::MAX {
            u64::MAX
        } else {
            (props.extracted + extraction(props, orbiters_count)) as u64
        },
        ..props
    }
}

/// `initial` multiplied by the fixed-point rate `inc`, capped at the largest amount.
pub open spec fn increase_of(initial: u64, inc: u64) -> int {
    if initial * inc / (Consts::RESOURCE_UNIT as int) > u64::MAX {
        u64::MAX as int
    } else {
        initial * inc / (Consts::RESOURCE_UNIT as int)
    }
}

/// Whether `contender_id` may build a ship for `resources_cost` on the planet.
pub open spec fn can_build(props: CelestialProperties, contender_id: usize, resources_cost: u64)
    -> bool {
    props.contender_id == contender_id && props.extracted >= resources_cost
}

/// How many of `ships_count` ships leave when `percent` percent are sent
/// away, capped at the largest count.
pub open spec fn detachment(ships_count: usize, percent: usize) -> int {
    if ships_count * percent / 100 > usize::MAX {
        usize::MAX as int
    } else {
        ships_count * percent / 100
    }
}

/// Position of the vessel that fleet `i` loses, if `losses` names one that the
/// fleet has.
pub open spec fn loss_of(fleets: Seq<Fleet>, losses: Seq<Option<usize>>, i: int) -> Option<int> {
    if 0 <= i < fleets.len() && i < losses.len() && losses[i] is Some && losses[i].unwrap()
        < fleets[i].1.len() {
        Some(losses[i].unwrap() as int)
    } else {
        None
    }
}

/// What a fleet of `size` vessels among `total` around the planet loses when
/// the numbers `hit`, `dice` and `pick` are drawn for it: the vessel at
/// `pick`, if `hit` is zero and `dice` is below the number of vessels that are
/// not the fleet's; nothing otherwise, and nothing of an empty fleet.
pub open spec fn drawn_loss(total: u128, size: usize, hit: u128, dice: u128, pick: u128) -> Option<
    usize,
> {
    if size > 0 && hit == 0 && dice < total - size {
        Some(pick as usize)
    } else {
        None
    }
}

/// `loss` is what the fleet loses when `hit` is drawn below a hundred, `dice`
/// below the number of all vessels and `pick` below the size of the fleet.
pub open spec fn decided_by(
    total: u128,
    size: usize,
    loss: Option<usize>,
    hit: u128,
    dice: u128,
    pick: u128,
) -> bool {
    &&& hit < 100
    &&& dice < total
    &&& pick < size
    &&& loss == drawn_loss(total, size, hit, dice, pick)
}

/// `loss` is what the fleet loses for some numbers that can be drawn for it.
pub open spec fn drawn(total: u128, size: usize, loss: Option<usize>) -> bool {
    exists|hit: u128, dice: u128, pick: u128| #[trigger]
        decided_by(total, size, loss, hit, dice, pick)
}

/// What a battle may take: at most one vessel of each fleet, and none of a
/// fleet that is empty or that holds every vessel around the planet; and of
/// each fleet that has vessels what three numbers decide that are drawn for
/// it, one below a hundred, one below the number of all vessels and one
/// below the size of the fleet.
pub open spec fn possible_losses(fleets: Seq<Fleet>, losses: Seq<Option<usize>>) -> bool {
    &&& losses.len() == fleets.len()
    &&& forall|i: int|
        0 <= i < fleets.len() && (#[trigger] losses[i]) is Some ==> losses[i].unwrap()
            < fleets[i].1.len() && fleets[i].1.len() < total_vessels(fleets)
    &&& forall|i: int|
        0 <= i < fleets.len() && fleets[i].1.len() > 0 ==> drawn(
            total_vessels(fleets) as u128,
            fleets[i].1.len() as usize,
            #[trigger] losses[i],
        )
}

/// The vessels lost by the first `n` fleets, in the order of the fleets.
pub open spec fn casualties_upto(fleets: Seq<Fleet>, losses: Seq<Option<usize>>, n: nat) -> Seq<
    VesselProperties,
>
    decreases n,
{
    if n == 0 {
        Seq::empty()
    } else {
        let before = casualties_upto(fleets, losses, (n - 1) as nat);
        match loss_of(fleets, losses, n - 1) {
            Some(k) => before.push(fleets[n - 1].1[k]),
            None => before,
        }
    }
}

/// The fleets once the lost vessels are gone.
pub open spec fn survivors_of(fleets: Seq<Fleet>, losses: Seq<Option<usize>>) -> Seq<Fleet> {
    Seq::new(
        fleets.len(),
        |i: int|
            (
                fleets[i].0,
                match loss_of(fleets, losses, i) {
                    Some(k) => fleets[i].1.remove(k),
                    None => fleets[i].1,
                },
            ),
    )
}

/// The contenders among the first `n` fleets that still have a vessel, in order.
pub open spec fn standing_upto(fleets: Seq<Fleet>, n: nat) -> Seq<ContenderProperties>
    decreases n,
{
    if n == 0 {
        Seq::empty()
    } else {
        let before = standing_upto(fleets, (n - 1) as nat);
        if fleets[n - 1].1.len() > 0 {
            before.push(fleets[n - 1].0)
        } else {
            before
        }
    }
}

/// The contender that holds the planet alone, if there is exactly one with vessels.
pub open spec fn winner_of(fleets: Seq<Fleet>) -> Option<ContenderProperties> {
    let standing = standing_upto(fleets, fleets.len());
    if standing.len() == 1 {
        Some(standing[0])
    } else {
        None
    }
}

/// Winner and casualties of a battle in which the fleets lose what `losses` says.
pub open spec fn battle_outcome(fleets: Seq<Fleet>, losses: Seq<Option<usize>>) -> (
    Option<ContenderProperties>,
    Seq<VesselProperties>,
) {
    (winner_of(survivors_of(fleets, losses)), casualties_upto(fleets, losses, fleets.len()))
}

/// A battle removes exactly its casualties: the vessels that survive and the
/// casualties together are the vessels that went in, and no fleet loses more
/// than one vessel.
pub proof fn lemma_battle_conserves(fleets: Seq<Fleet>, losses: Seq<Option<usize>>)
    ensures
        total_vessels(survivors_of(fleets, losses)) + battle_outcome(fleets, losses).1.len()
            == total_vessels(fleets),
        battle_outcome(fleets, losses).1.len() <= fleets.len(),
        forall|i: int|
            0 <= i < fleets.len() ==> fleets[i].1.len() - 1 <= (#[trigger] survivors_of(
                fleets,
                losses,
            )[i]).1.len() <= fleets[i].1.len(),
{
    lemma_conserves_upto(fleets, losses, fleets.len());
}

proof fn lemma_conserves_upto(fleets: Seq<Fleet>, losses: Seq<Option<usize>>, n: nat)
    requires
        n <= fleets.len(),
    ensures
        vessels_upto(survivors_of(fleets, losses), n) + casualties_upto(fleets, losses, n).len()
            == vessels_upto(fleets, n),
        casualties_upto(fleets, losses, n).len() <= n,
    decreases n,
{
    if n > 0 {
        lemma_conserves_upto(fleets, losses, (n - 1) as nat);
    }
}

/// If a battle has a winner, the winner's fleet is the only one with a vessel
/// left once the casualties are removed.
pub proof fn lemma_single_survivor(fleets: Seq<Fleet>, losses: Seq<Option<usize>>)
    requires
        battle_outcome(fleets, losses).0 is Some,
    ensures
        exists|i: int|
            0 <= i < fleets.len() && (#[trigger] survivors_of(fleets, losses)[i]).1.len() >= 1
                && fleets[i].0 == battle_outcome(fleets, losses).0.unwrap() && forall|j: int|
                0 <= j < fleets.len() && j != i ==> (#[trigger] survivors_of(
                    fleets,
                    losses,
                )[j]).1.len() == 0,
{
    let after = survivors_of(fleets, losses);
    lemma_standing_count(after, after.len());
    let i = choose|i: int| 0 <= i < after.len() && sole_standing(after, after.len(), i);
    assert(after[i].0 == fleets[i].0);
}

/// Fleet `i` is the only one of the first `n` fleets with a vessel.
spec fn sole_standing(fleets: Seq<Fleet>, n: nat, i: int) -> bool {
    &&& 0 <= i < n
    &&& fleets[i].1.len() >= 1
    &&& standing_upto(fleets, n) == seq![fleets[i].0]
    &&& forall|j: int| 0 <= j < n && j != i ==> (#[trigger] fleets[j]).1.len() == 0
}

proof fn lemma_standing_count(fleets: Seq<Fleet>, n: nat)
    requires
        n <= fleets.len(),
    ensures
        standing_upto(fleets, n).len() <= n,
        standing_upto(fleets, n).len() == 0 ==> forall|j: int|
            0 <= j < n ==> (#[trigger] fleets[j]).1.len() == 0,
        standing_upto(fleets, n).len() == 1 ==> exists|i: int|
            0 <= i < n && sole_standing(fleets, n, i),
    decreases n,
{
    if n > 0 {
        let m = (n - 1) as nat;
        lemma_standing_count(fleets, m);
        if standing_upto(fleets, n).len() == 1 {
            if fleets[n - 1].1.len() > 0 {
                assert(standing_upto(fleets, m).len() == 0);
                assert(standing_upto(fleets, n) =~= seq![fleets[n - 1].0]);
                assert(sole_standing(fleets, n, n - 1));
            } else {
                let i = choose|i: int| 0 <= i < m && sole_standing(fleets, m, i);
                assert(sole_standing(fleets, n, i));
            }
        }
    }
}

/// Every vessel is listed under the contender that it belongs to, and no
/// contender is listed twice.
pub open spec fn well_listed(fleets: Seq<Fleet>) -> bool {
    &&& forall|i: int, k: int|
        0 <= i < fleets.len() && 0 <= k < fleets[i].1.len() ==> (#[trigger] fleets[i].1[k]).contender_id
            == fleets[i].0.id
    &&& forall|i: int, j: int|
        0 <= i < j < fleets.len() ==> (#[trigger] fleets[i]).0.id != (#[trigger] fleets[j]).0.id
}

/// How many of the first `n` vessels belong to the contender `id`.
pub open spec fn owned_upto(vessels: Seq<VesselProperties>, id: usize, n: nat) -> nat
    decreases n,
{
    if n == 0 {
        0
    } else {
        owned_upto(vessels, id, (n - 1) as nat) + if vessels[n - 1].contender_id == id {
            1nat
        } else {
            0
        }
    }
}

/// How many of the vessels belong to the contender `id`.
pub open spec fn owned(vessels: Seq<VesselProperties>, id: usize) -> nat {
    owned_upto(vessels, id, vessels.len())
}

/// How many vessels the contender of fleet `i` has left when its casualties
/// are taken from its fleet.
pub open spec fn remaining(fleets: Seq<Fleet>, losses: Seq<Option<usize>>, i: int) -> int {
    fleets[i].1.len() - owned(battle_outcome(fleets, losses).1, fleets[i].0.id)
}

/// Fleet `i` is the only one whose contender has vessels left.
pub open spec fn alone_left(fleets: Seq<Fleet>, losses: Seq<Option<usize>>, i: int) -> bool {
    &&& 0 <= i < fleets.len()
    &&& remaining(fleets, losses, i) >= 1
    &&& forall|j: int| 0 <= j < fleets.len() && j != i ==> remaining(fleets, losses, j) == 0
}

proof fn lemma_owned_agree(a: Seq<VesselProperties>, b: Seq<VesselProperties>, id: usize, n: nat)
    requires
        n <= a.len(),
        n <= b.len(),
        forall|k: int| 0 <= k < n ==> a[k] == b[k],
    ensures
        owned_upto(a, id, n) == owned_upto(b, id, n),
    decreases n,
{
    if n > 0 {
        lemma_owned_agree(a, b, id, (n - 1) as nat);
    }
}

proof fn lemma_owned_casualties(fleets: Seq<Fleet>, losses: Seq<Option<usize>>, i: int, n: nat)
    requires
        well_listed(fleets),
        0 <= i < fleets.len(),
        n <= fleets.len(),
    ensures
        owned(casualties_upto(fleets, losses, n), fleets[i].0.id) == if i < n && loss_of(
            fleets,
            losses,
            i,
        ) is Some {
            1nat
        } else {
            0
        },
    decreases n,
{
    if n > 0 {
        let m = (n - 1) as nat;
        lemma_owned_casualties(fleets, losses, i, m);
        let before = casualties_upto(fleets, losses, m);
        let id = fleets[i].0.id;
        match loss_of(fleets, losses, n - 1) {
            Some(k) => {
                let vessel = fleets[n - 1].1[k];
                let all = before.push(vessel);
                lemma_owned_agree(all, before, id, before.len());
                assert(all[before.len() as int] == vessel);
                assert(vessel.contender_id == fleets[n - 1].0.id);
                if n - 1 != i {
                    if n - 1 < i {
                        assert(fleets[n - 1].0.id != fleets[i].0.id);
                    } else {
                        assert(fleets[i].0.id != fleets[n - 1].0.id);
                    }
                }
            },
            None => {},
        }
    }
}

proof fn lemma_standing_sole(fleets: Seq<Fleet>, n: nat, i: int)
    requires
        n <= fleets.len(),
        forall|j: int| 0 <= j < n && j != i ==> (#[trigger] fleets[j]).1.len() == 0,
    ensures
        standing_upto(fleets, n) == if 0 <= i < n && fleets[i].1.len() > 0 {
            seq![fleets[i].0]
        } else {
            Seq::<ContenderProperties>::empty()
        },
    decreases n,
{
    if n > 0 {
        lemma_standing_sole(fleets, (n - 1) as nat, i);
        if n - 1 == i && fleets[i].1.len() > 0 {
            assert(standing_upto(fleets, n) =~= seq![fleets[i].0]);
        }
    }
}

/// Counted by the contenders that the vessels belong to: where every vessel
/// is listed under its contender and no contender twice, a battle takes at
/// most one vessel of each contender, and it has a winner if and only if one
/// contender alone has vessels left, and that contender is the winner.
pub proof fn lemma_battle_by_contender(fleets: Seq<Fleet>, losses: Seq<Option<usize>>)
    requires
        well_listed(fleets),
    ensures
        forall|i: int|
            0 <= i < fleets.len() ==> owned(
                battle_outcome(fleets, losses).1,
                (#[trigger] fleets[i]).0.id,
            ) <= 1 && remaining(fleets, losses, i) == survivors_of(fleets, losses)[i].1.len(),
        forall|w: ContenderProperties|
            battle_outcome(fleets, losses).0 == Some(w) <==> exists|i: int|
                #[trigger] alone_left(fleets, losses, i) && fleets[i].0 == w,
{
    let after = survivors_of(fleets, losses);
    assert forall|i: int| 0 <= i < fleets.len() implies owned(
        battle_outcome(fleets, losses).1,
        (#[trigger] fleets[i]).0.id,
    ) <= 1 && remaining(fleets, losses, i) == after[i].1.len() by {
        lemma_owned_casualties(fleets, losses, i, fleets.len());
    }
    assert forall|w: ContenderProperties|
        battle_outcome(fleets, losses).0 == Some(w) <==> exists|i: int|
            #[trigger] alone_left(fleets, losses, i) && fleets[i].0 == w by {
        if battle_outcome(fleets, losses).0 == Some(w) {
            lemma_single_survivor(fleets, losses);
            let i = choose|i: int|
                0 <= i < fleets.len() && (#[trigger] survivors_of(fleets, losses)[i]).1.len() >= 1
                    && fleets[i].0 == battle_outcome(fleets, losses).0.unwrap() && forall|j: int|
                    0 <= j < fleets.len() && j != i ==> (#[trigger] survivors_of(
                        fleets,
                        losses,
                    )[j]).1.len() == 0;
            assert forall|j: int| 0 <= j < fleets.len() && j != i implies remaining(
                fleets,
                losses,
                j,
            ) == 0 by {
                assert(after[j].1.len() == 0);
                assert(remaining(fleets, losses, j) == after[j].1.len());
            }
            assert(remaining(fleets, losses, i) == after[i].1.len());
            assert(alone_left(fleets, losses, i) && fleets[i].0 == w);
        }
        if exists|i: int| #[trigger] alone_left(fleets, losses, i) && fleets[i].0 == w {
            let i = choose|i: int| #[trigger] alone_left(fleets, losses, i) && fleets[i].0 == w;
            assert(remaining(fleets, losses, i) == after[i].1.len());
            assert forall|j: int| 0 <= j < after.len() && j != i implies (#[trigger] after[j]).1.len()
                == 0 by {
                assert(remaining(fleets, losses, j) == 0);
                assert(remaining(fleets, losses, j) == after[j].1.len());
            }
            lemma_standing_sole(after, after.len(), i);
        }
    }
}

/// A uniformly drawn number below `bound`, from `rand::thread_rng()` and its
/// `gen_range` on the half-open range from zero to `bound`. The contract
/// claims only that the number lies in that range.
#[verifier::external_body]
fn random_below(bound: u128) -> (value: u128)
    requires
        bound > 0,
    ensures
        value < bound,
{
    rand::thread_rng().gen_range(0..bound)
}

/// The rules by which a planet is run: its economy, the building and
/// sending of ships, and the battles in its orbit.
pub struct PlanetBusiness {}

impl PlanetBusiness {
    pub fn new() -> Self {
        PlanetBusiness {  }
    }

    /// One tick of the planet's economy: the reserve grows by its increase,
    /// then each ship in orbit moves one unit from the reserve to the
    /// spendable resources, as far as the reserve goes.
    pub fn resources_update(&self, props: &mut CelestialProperties, orbiters_count: i32)
        requires
            orbiters_count >= 0,
        ensures
            *final(props) == after_update(*old(props), orbiters_count as int),
            0 <= extraction(*old(props), orbiters_count as int) <= accrued(*old(props)),
            final(props).resources + extraction(*old(props), orbiters_count as int) == accrued(
                *old(props),
            ),
            final(props).extracted >= old(props).extracted,
            old(props).resources + old(props).resources_increase <= u64::MAX
                && old(props).extracted + extraction(*old(props), orbiters_count as int)
                <= u64::MAX ==> {
                let reserve = old(props).resources + old(props).resources_increase;
                let taken = final(props).extracted - old(props).extracted;
                &&& taken == if reserve <= orbiters_count * Consts::RESOURCE_UNIT {
                    reserve
                } else {
                    orbiters_count * Consts::RESOURCE_UNIT
                }
                &&& 0 <= taken <= reserve
                &&& taken <= orbiters_count * Consts::RESOURCE_UNIT
                &&& final(props).resources == reserve - taken
            },
    {
        let grown: u64 = props.resources.saturating_add(props.resources_increase);
        let capacity: u64 = (orbiters_count as u64) * Consts::RESOURCE_UNIT;
        let extracted: u64 = if grown <= capacity {
            grown
        } else {
            capacity
        };
        props.extracted = props.extracted.saturating_add(extracted);
        props.resources = grown - extracted;
    }

    /// Sets the starting reserve and the increase per tick, which is the
    /// reserve multiplied by the fixed-point rate `inc`.
    pub fn resources_init(&self, props: &mut CelestialProperties, initial: u64, inc: u64)
        ensures
            *final(props) == (CelestialProperties {
                resources: initial,
                resources_increase: increase_of(initial, inc) as u64,
                ..*old(props)
            }),
    {
        proof {
            lemma_product_fits(initial as int, inc as int);
        }
        let product: u128 = (initial as u128) * (inc as u128) / (Consts::RESOURCE_UNIT as u128);
        props.resources = initial;
        props.resources_increase = if product > u64::MAX as u128 {
            u64::MAX
        } else {
            product as u64
        };
    }

    /// Pays for a ship if the contender owns the planet and the planet can
    /// afford it; otherwise changes nothing.
    pub fn can_add_ship(
        &self,
        props: &mut CelestialProperties,
        contender_props: ContenderProperties,
        resources_cost: u64,
    ) -> (built: bool)
        ensures
            built == can_build(*old(props), contender_props.id, resources_cost),
            built ==> *final(props) == (CelestialProperties {
                extracted: (old(props).extracted - resources_cost) as u64,
                ..*old(props)
            }),
            !built ==> *final(props) == *old(props),
    {
        if props.contender_id == contender_props.id && props.extracted >= resources_cost {
            props.extracted -= resources_cost;
            return true;
        }
        false
    }

    /// The size of the detachment when `percent` percent of `ships_count`
    /// ships are sent away, rounded down.
    pub fn count_ships_to_move(&self, ships_count: usize, percent: usize) -> (count: usize)
        ensures
            count == detachment(ships_count, percent),
    {
        proof {
            lemma_product_fits(ships_count as int, percent as int);
        }
        let product: u128 = (ships_count as u128) * (percent as u128) / 100;
        if product > usize::MAX as u128 {
            usize::MAX
        } else {
            product as usize
        }
    }

    /// Number of vessels around the planet.
    pub fn count_vessels(&self, ships_by_player: &Vec<ContenderVessels>) -> (total: u128)
        ensures
            total == total_vessels(fleets_of(ships_by_player@)),
            total <= ships_by_player.len() * usize::MAX,
    {
        let ghost fleets = fleets_of(ships_by_player@);
        let mut total: u128 = 0;
        let mut i: usize = 0;
        while i < ships_by_player.len()
            invariant
                i <= ships_by_player.len(),
                fleets == fleets_of(ships_by_player@),
                total == vessels_upto(fleets, i as nat),
                total <= i * usize::MAX,
            decreases ships_by_player.len() - i,
        {
            proof {
                lemma_sum_fits(i as int, usize::MAX as int);
            }
            total = total + ships_by_player[i].1.len() as u128;
            i += 1;
        }
        total
    }

    /// What a fleet of `size` vessels among `total` around the planet loses
    /// when the numbers `hit`, `dice` and `pick` were drawn for it: the vessel
    /// at `pick`, if `hit` is zero and `dice` is below the number of vessels
    /// that are not the fleet's. Drawn below a hundred and below `total`,
    /// `hit` and `dice` make the fleet lose a vessel with probability
    /// `(total - size) / (100 total)`.
    pub fn loss_drawn(&self, total: u128, size: usize, hit: u128, dice: u128, pick: u128) -> (loss:
        Option<usize>)
        requires
            size <= total,
            pick < size || size == 0,
        ensures
            loss == drawn_loss(total, size, hit, dice, pick),
    {
        if size > 0 && hit == 0 && dice < total - size as u128 {
            Some(pick as usize)
        } else {
            None
        }
    }

    /// Draws what each fleet loses in one round of battle: for each fleet
    /// that has vessels three numbers, one below a hundred, one below the
    /// number of all vessels and one below the size of the fleet, from which
    /// `loss_drawn` tells the loss. Each vessel of a fleet that loses one is
    /// as likely to be the one.
    pub fn roll_losses(&self, ships_by_player: &Vec<ContenderVessels>) -> (losses: Vec<
        Option<usize>,
    >)
        ensures
            possible_losses(fleets_of(ships_by_player@), losses@),
    {
        let ghost fleets = fleets_of(ships_by_player@);
        let total: u128 = self.count_vessels(ships_by_player);
        let mut losses: Vec<Option<usize>> = Vec::new();
        let mut i: usize = 0;
        while i < ships_by_player.len()
            invariant
                i <= ships_by_player.len(),
                fleets == fleets_of(ships_by_player@),
                total == total_vessels(fleets),
                losses.len() == i,
                forall|j: int|
                    0 <= j < i && (#[trigger] losses[j]) is Some ==> losses[j].unwrap()
                        < fleets[j].1.len() && fleets[j].1.len() < total,
                forall|j: int|
                    0 <= j < i && fleets[j].1.len() > 0 ==> drawn(
                        total,
                        fleets[j].1.len() as usize,
                        #[trigger] losses[j],
                    ),
            decreases ships_by_player.len() - i,
        {
            let size: usize = ships_by_player[i].1.len();
            let mut loss: Option<usize> = None;
            proof {
                lemma_vessels_bounds(fleets, 0, (i + 1) as nat, fleets.len());
            }
            if size > 0 {
                let hit: u128 = random_below(100);
                let dice: u128 = random_below(total);
                let pick: u128 = random_below(size as u128);
                loss = self.loss_drawn(total, size, hit, dice, pick);
                assert(decided_by(total, size, loss, hit, dice, pick));
                assert(drawn(total, size, loss));
            }
            losses.push(loss);
            i += 1;
        }
        losses
    }

    /// Settles a round of battle in which the fleets lose what `losses` says:
    /// the casualties in the order of the fleets, and the contender that is
    /// then alone with vessels, if there is exactly one. An entry of `losses`
    /// that names no vessel of its fleet takes nothing.
    pub fn resolve_battle(
        &self,
        ships_by_player: &Vec<ContenderVessels>,
        losses: &Vec<Option<usize>>,
    ) -> (outcome: (Option<ContenderProperties>, Vec<VesselProperties>))
        ensures
            outcome.0 == battle_outcome(fleets_of(ships_by_player@), losses@).0,
            outcome.1@ == battle_outcome(fleets_of(ships_by_player@), losses@).1,
    {
        let ghost fleets = fleets_of(ships_by_player@);
        let ghost after = survivors_of(fleets, losses@);
        let mut casualties: Vec<VesselProperties> = Vec::new();
        let mut first_standing: Option<ContenderProperties> = None;
        let mut standing: usize = 0;
        let mut i: usize = 0;
        while i < ships_by_player.len()
            invariant
                i <= ships_by_player.len(),
                fleets == fleets_of(ships_by_player@),
                after == survivors_of(fleets, losses@),
                casualties@ == casualties_upto(fleets, losses@, i as nat),
                standing == standing_upto(after, i as nat).len(),
                standing <= i,
                standing >= 1 ==> first_standing == Some(standing_upto(after, i as nat)[0]),
            decreases ships_by_player.len() - i,
        {
            let size: usize = ships_by_player[i].1.len();
            let mut left: usize = size;
            if i < losses.len() {
                if let Some(k) = losses[i] {
                    if k < size {
                        casualties.push(ships_by_player[i].1[k]);
                        left = size - 1;
                    }
                }
            }
            assert(left == after[i as int].1.len());
            if left > 0 {
                if standing == 0 {
                    first_standing = Some(ships_by_player[i].0);
                }
                standing += 1;
            }
            i += 1;
        }
        let winner = if standing == 1 {
            first_standing
        } else {
            None
        };
        (winner, casualties)
    }

    /// One round of battle between the fleets around a planet. Each fleet may
    /// lose one vessel by chance; the contender that is then alone with
    /// vessels wins the planet. Returns the winner and the casualties; the
    /// fleets themselves are left for the caller to update.
    pub fn battle(&self, ships_by_player: Vec<ContenderVessels>) -> (outcome: (
        Option<ContenderProperties>,
        Vec<VesselProperties>,
    ))
        ensures
            exists|losses: Seq<Option<usize>>|
                possible_losses(fleets_of(ships_by_player@), losses) && outcome.0
                    == battle_outcome(fleets_of(ships_by_player@), losses).0 && outcome.1@
                    == battle_outcome(fleets_of(ships_by_player@), losses).1,
            outcome.1.len() <= ships_by_player.len(),
            outcome.1.len() <= total_vessels(fleets_of(ships_by_player@)),
    {
        let losses = self.roll_losses(&ships_by_player);
        proof {
            lemma_battle_conserves(fleets_of(ships_by_player@), losses@);
        }
        self.resolve_battle(&ships_by_player, &losses)
    }
}

} // verus!
