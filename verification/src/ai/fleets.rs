//! Building blocks for moving vessels between fleets.
use vstd::prelude::*;
use crate::ai::measure::copy_vessels;
use crate::model::{ContenderVessels, VesselProperties, fleets_of};
use crate::planet::survivors_of;

verus! {

/// The first `count` vessels.
pub fn first_vessels(vessels: &Vec<VesselProperties>, count: usize) -> (head: Vec<
    VesselProperties,
>)
    requires
        count <= vessels.len(),
    ensures
        head@ == vessels@.take(count as int),
{
    let mut head: Vec<VesselProperties> = Vec::new();
    let mut i: usize = 0;
    while i < count
        invariant
            i <= count <= vessels.len(),
            head@ == vessels@.take(i as int),
        decreases count - i,
    {
        head.push(vessels[i]);
        assert(head@ == vessels@.take(i + 1));
        i += 1;
    }
    head
}

/// The vessels after the first `count`.
pub fn later_vessels(vessels: &Vec<VesselProperties>, count: usize) -> (tail: Vec<
    VesselProperties,
>)
    requires
        count <= vessels.len(),
    ensures
        tail@ == vessels@.skip(count as int),
{
    let mut tail: Vec<VesselProperties> = Vec::new();
    let mut i: usize = count;
    while i < vessels.len()
        invariant
            count <= i <= vessels.len(),
            tail@ == vessels@.subrange(count as int, i as int),
        decreases vessels.len() - i,
    {
        tail.push(vessels[i]);
        assert(tail@ == vessels@.subrange(count as int, i + 1));
        i += 1;
    }
    tail
}

/// The vessels of `first` followed by those of `second`.
pub fn joined_vessels(first: &Vec<VesselProperties>, second: &Vec<VesselProperties>) -> (all: Vec<
    VesselProperties,
>)
    ensures
        all@ == first@ + second@,
{
    let mut all: Vec<VesselProperties> = copy_vessels(first);
    let mut i: usize = 0;
    while i < second.len()
        invariant
            i <= second.len(),
            all@ == first@ + second@.take(i as int),
        decreases second.len() - i,
    {
        all.push(second[i]);
        assert(all@ == first@ + second@.take(i + 1));
        i += 1;
    }
    assert(second@.take(second.len() as int) == second@);
    all
}

/// The fleets with the vessels of the fleet at `place` replaced.
pub fn fleets_with(
    ships_by_player: &Vec<ContenderVessels>,
    place: usize,
    vessels: Vec<VesselProperties>,
) -> (changed: Vec<ContenderVessels>)
    requires
        place < ships_by_player.len(),
    ensures
        fleets_of(changed@) == fleets_of(ships_by_player@).update(
            place as int,
            (ships_by_player[place as int].0, vessels@),
        ),
{
    let mut changed: Vec<ContenderVessels> = Vec::new();
    let mut i: usize = 0;
    while i < place
        invariant
            i <= place < ships_by_player.len(),
            changed.len() == i,
            forall|j: int|
                0 <= j < i ==> changed[j].0 == ships_by_player[j].0 && changed[j].1@
                    == ships_by_player[j].1@,
        decreases place - i,
    {
        let copy = copy_vessels(&ships_by_player[i].1);
        changed.push((ships_by_player[i].0, copy));
        i += 1;
    }
    changed.push((ships_by_player[place].0, vessels));
    i += 1;
    while i < ships_by_player.len()
        invariant
            place < i <= ships_by_player.len(),
            changed.len() == i,
            changed[place as int].0 == ships_by_player[place as int].0,
            changed[place as int].1@ == vessels@,
            forall|j: int|
                0 <= j < i && j != place ==> changed[j].0 == ships_by_player[j].0 && changed[j].1@
                    == ships_by_player[j].1@,
        decreases ships_by_player.len() - i,
    {
        let copy = copy_vessels(&ships_by_player[i].1);
        changed.push((ships_by_player[i].0, copy));
        i += 1;
    }
    assert(fleets_of(changed@) =~= fleets_of(ships_by_player@).update(
        place as int,
        (ships_by_player[place as int].0, vessels@),
    ));
    changed
}

/// The fleets without the vessels that `losses` takes.
pub fn surviving_fleets(
    ships_by_player: &Vec<ContenderVessels>,
    losses: &Vec<Option<usize>>,
) -> (left: Vec<ContenderVessels>)
    ensures
        fleets_of(left@) == survivors_of(fleets_of(ships_by_player@), losses@),
{
    let ghost fleets = fleets_of(ships_by_player@);
    let ghost after = survivors_of(fleets, losses@);
    let mut left: Vec<ContenderVessels> = Vec::new();
    let mut i: usize = 0;
    while i < ships_by_player.len()
        invariant
            i <= ships_by_player.len(),
            fleets == fleets_of(ships_by_player@),
            after == survivors_of(fleets, losses@),
            left.len() == i,
            forall|j: int| 0 <= j < i ==> left[j].0 == after[j].0 && left[j].1@ == after[j].1,
        decreases ships_by_player.len() - i,
    {
        let mut vessels = copy_vessels(&ships_by_player[i].1);
        if i < losses.len() {
            if let Some(k) = losses[i] {
                if k < vessels.len() {
                    vessels.remove(k);
                }
            }
        }
        assert(vessels@ == after[i as int].1);
        left.push((ships_by_player[i].0, vessels));
        i += 1;
    }
    assert(fleets_of(left@) =~= after);
    left
}

} // verus!
