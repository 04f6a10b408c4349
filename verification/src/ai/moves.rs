//! Which moves the artificial contender weighs in a position.
use vstd::prelude::*;
use crate::ai::measure::MeasureView;
use crate::ai::metrics::is_allied;
use crate::model::{Consts, total_vessels, vessels_of};
use crate::player::PlayerAction;

verus! {

/// Whether the planet has the price of a ship at hand.
pub open spec fn can_afford(measure: MeasureView) -> bool {
    measure.extracted >= Consts::ADD_SHIP_RESOURCE_COST
}

/// Whether no allied planet can afford a ship.
pub open spec fn none_affords(measures: Seq<MeasureView>, player_id: usize) -> bool {
    forall|i: int|
        0 <= i < measures.len() && is_allied(#[trigger] measures[i], player_id) ==> !can_afford(
            measures[i],
        )
}

/// Whether the owner of the planet is strong enough around it to send ships
/// to another of its planets: it has more than one ship there, and the
/// others have fewer than twice as many.
pub open spec fn holds_ground(measure: MeasureView) -> bool {
    let allied = vessels_of(measure.fleets, measure.planet_props.contender_id);
    let others = total_vessels(measure.fleets) - allied;
    allied > 1 && others < 2 * allied
}

/// One `AddShip` for each of the first `n` planets that is allied and can
/// afford a ship.
pub open spec fn build_moves_upto(measures: Seq<MeasureView>, player_id: usize, n: nat) -> Seq<
    PlayerAction,
>
    decreases n,
{
    if n == 0 {
        Seq::empty()
    } else {
        let before = build_moves_upto(measures, player_id, (n - 1) as nat);
        if is_allied(measures[n - 1], player_id) && can_afford(measures[n - 1]) {
            before.push(PlayerAction::AddShip(measures[n - 1].planet_props))
        } else {
            before
        }
    }
}

/// The moves from planet `i` to the allied planets after it and before `n`.
pub open spec fn gather_row_upto(measures: Seq<MeasureView>, player_id: usize, i: int, n: nat)
    -> Seq<PlayerAction>
    decreases n,
{
    if n == 0 || n <= i + 1 {
        Seq::empty()
    } else {
        let before = gather_row_upto(measures, player_id, i, (n - 1) as nat);
        if is_allied(measures[n - 1], player_id) {
            before.push(
                PlayerAction::MoveShips(measures[i].planet_props, measures[n - 1].planet_props),
            )
        } else {
            before
        }
    }
}

/// The moves between allied planets that start at one of the first `n`
/// planets: from each that holds its ground, to every allied planet after it.
pub open spec fn gather_moves_upto(measures: Seq<MeasureView>, player_id: usize, n: nat) -> Seq<
    PlayerAction,
>
    decreases n,
{
    if n == 0 {
        Seq::empty()
    } else {
        let before = gather_moves_upto(measures, player_id, (n - 1) as nat);
        if is_allied(measures[n - 1], player_id) && holds_ground(measures[n - 1]) {
            before + gather_row_upto(measures, player_id, n - 1, measures.len())
        } else {
            before
        }
    }
}

/// The moves from planet `i` to the planets before `n` that are not allied.
pub open spec fn attack_row_upto(measures: Seq<MeasureView>, player_id: usize, i: int, n: nat)
    -> Seq<PlayerAction>
    decreases n,
{
    if n == 0 {
        Seq::empty()
    } else {
        let before = attack_row_upto(measures, player_id, i, (n - 1) as nat);
        if !is_allied(measures[n - 1], player_id) {
            before.push(
                PlayerAction::MoveShips(measures[i].planet_props, measures[n - 1].planet_props),
            )
        } else {
            before
        }
    }
}

/// The moves against other planets that start at one of the first `n`
/// planets: from each allied planet to every planet that is not.
pub open spec fn attack_moves_upto(measures: Seq<MeasureView>, player_id: usize, n: nat) -> Seq<
    PlayerAction,
>
    decreases n,
{
    if n == 0 {
        Seq::empty()
    } else {
        let before = attack_moves_upto(measures, player_id, (n - 1) as nat);
        if is_allied(measures[n - 1], player_id) {
            before + attack_row_upto(measures, player_id, n - 1, measures.len())
        } else {
            before
        }
    }
}

/// `Wait`, if no allied planet can afford a ship.
pub open spec fn wait_moves(measures: Seq<MeasureView>, player_id: usize) -> Seq<PlayerAction> {
    if none_affords(measures, player_id) {
        seq![PlayerAction::Wait]
    } else {
        Seq::empty()
    }
}

/// The moves open to the contender `player_id`, in the order in which they
/// are offered: waiting, building, gathering, attacking.
pub open spec fn moves_of(measures: Seq<MeasureView>, player_id: usize) -> Seq<PlayerAction> {
    wait_moves(measures, player_id) + build_moves_upto(measures, player_id, measures.len())
        + gather_moves_upto(measures, player_id, measures.len()) + attack_moves_upto(
        measures,
        player_id,
        measures.len(),
    )
}

/// The measure at `i` is one of the first `n`, is allied, can afford a ship
/// and is the planet `planet`.
pub open spec fn builds_at(
    measures: Seq<MeasureView>,
    player_id: usize,
    n: nat,
    action: PlayerAction,
    i: int,
) -> bool {
    &&& 0 <= i < n
    &&& is_allied(measures[i], player_id)
    &&& can_afford(measures[i])
    &&& action == PlayerAction::AddShip(measures[i].planet_props)
}

/// The action moves ships from the allied planet at `i` to the other planet
/// at `j`; between allied planets only forwards and from firm ground.
pub open spec fn moves_between(
    measures: Seq<MeasureView>,
    player_id: usize,
    action: PlayerAction,
    i: int,
    j: int,
) -> bool {
    &&& 0 <= i < measures.len()
    &&& 0 <= j < measures.len()
    &&& i != j
    &&& is_allied(measures[i], player_id)
    &&& is_allied(measures[j], player_id) ==> i < j && holds_ground(measures[i])
    &&& action == PlayerAction::MoveShips(measures[i].planet_props, measures[j].planet_props)
}

/// Why an action is among the moves: it waits while nothing can be built,
/// builds on an allied planet that can afford it, or moves ships from an
/// allied planet to another planet.
pub open spec fn offered(measures: Seq<MeasureView>, player_id: usize, action: PlayerAction)
    -> bool {
    match action {
        PlayerAction::Wait => none_affords(measures, player_id),
        PlayerAction::AddShip(_) => exists|i: int|
            builds_at(measures, player_id, measures.len(), action, i),
        PlayerAction::MoveShips(_, _) => exists|i: int, j: int|
            moves_between(measures, player_id, action, i, j),
    }
}

/// Whether the planet `id` is among those measured.
pub open spec fn measured(measures: Seq<MeasureView>, id: usize) -> bool {
    exists|i: int| 0 <= i < measures.len() && (#[trigger] measures[i]).planet_props.id == id
}

/// Whether every planet that the action names is among those measured.
pub open spec fn names_measured(measures: Seq<MeasureView>, action: PlayerAction) -> bool {
    match action {
        PlayerAction::Wait => true,
        PlayerAction::AddShip(on) => measured(measures, on.id),
        PlayerAction::MoveShips(from, to) => measured(measures, from.id) && measured(
            measures,
            to.id,
        ),
    }
}

proof fn lemma_build_moves(measures: Seq<MeasureView>, player_id: usize, n: nat, k: int)
    requires
        n <= measures.len(),
        0 <= k < build_moves_upto(measures, player_id, n).len(),
    ensures
        exists|i: int|
            builds_at(measures, player_id, n, build_moves_upto(measures, player_id, n)[k], i),
    decreases n,
{
    let m = (n - 1) as nat;
    let before = build_moves_upto(measures, player_id, m);
    if k < before.len() {
        lemma_build_moves(measures, player_id, m, k);
        let i = choose|i: int| builds_at(measures, player_id, m, before[k], i);
        assert(builds_at(measures, player_id, n, build_moves_upto(measures, player_id, n)[k], i));
    } else {
        assert(builds_at(
            measures,
            player_id,
            n,
            build_moves_upto(measures, player_id, n)[k],
            n - 1,
        ));
    }
}

proof fn lemma_gather_row(measures: Seq<MeasureView>, player_id: usize, i: int, n: nat, k: int)
    requires
        0 <= i < measures.len(),
        n <= measures.len(),
        is_allied(measures[i], player_id),
        holds_ground(measures[i]),
        0 <= k < gather_row_upto(measures, player_id, i, n).len(),
    ensures
        exists|j: int|
            moves_between(
                measures,
                player_id,
                gather_row_upto(measures, player_id, i, n)[k],
                i,
                j,
            ),
    decreases n,
{
    let m = (n - 1) as nat;
    let before = gather_row_upto(measures, player_id, i, m);
    let action = gather_row_upto(measures, player_id, i, n)[k];
    if k < before.len() {
        lemma_gather_row(measures, player_id, i, m, k);
        let j = choose|j: int| moves_between(measures, player_id, before[k], i, j);
        assert(moves_between(measures, player_id, action, i, j));
    } else {
        assert(moves_between(
            measures,
            player_id,
            gather_row_upto(measures, player_id, i, n)[k],
            i,
            n - 1,
        ));
    }
}

proof fn lemma_gather_moves(measures: Seq<MeasureView>, player_id: usize, n: nat, k: int)
    requires
        n <= measures.len(),
        0 <= k < gather_moves_upto(measures, player_id, n).len(),
    ensures
        exists|i: int, j: int|
            moves_between(
                measures,
                player_id,
                gather_moves_upto(measures, player_id, n)[k],
                i,
                j,
            ),
    decreases n,
{
    let m = (n - 1) as nat;
    let before = gather_moves_upto(measures, player_id, m);
    if k < before.len() {
        lemma_gather_moves(measures, player_id, m, k);
    } else {
        lemma_gather_row(measures, player_id, n - 1, measures.len(), k - before.len());
        let action = gather_moves_upto(measures, player_id, n)[k];
        let i: int = n - 1;
        let j = choose|j: int| moves_between(measures, player_id, action, i, j);
        assert(moves_between(measures, player_id, action, i, j));
    }
}

proof fn lemma_attack_row(measures: Seq<MeasureView>, player_id: usize, i: int, n: nat, k: int)
    requires
        0 <= i < measures.len(),
        n <= measures.len(),
        is_allied(measures[i], player_id),
        0 <= k < attack_row_upto(measures, player_id, i, n).len(),
    ensures
        exists|j: int|
            moves_between(
                measures,
                player_id,
                attack_row_upto(measures, player_id, i, n)[k],
                i,
                j,
            ),
    decreases n,
{
    let m = (n - 1) as nat;
    let before = attack_row_upto(measures, player_id, i, m);
    let action = attack_row_upto(measures, player_id, i, n)[k];
    if k < before.len() {
        lemma_attack_row(measures, player_id, i, m, k);
        let j = choose|j: int| moves_between(measures, player_id, before[k], i, j);
        assert(moves_between(measures, player_id, action, i, j));
    } else {
        assert(moves_between(
            measures,
            player_id,
            attack_row_upto(measures, player_id, i, n)[k],
            i,
            n - 1,
        ));
    }
}

proof fn lemma_attack_moves(measures: Seq<MeasureView>, player_id: usize, n: nat, k: int)
    requires
        n <= measures.len(),
        0 <= k < attack_moves_upto(measures, player_id, n).len(),
    ensures
        exists|i: int, j: int|
            moves_between(
                measures,
                player_id,
                attack_moves_upto(measures, player_id, n)[k],
                i,
                j,
            ),
    decreases n,
{
    let m = (n - 1) as nat;
    let before = attack_moves_upto(measures, player_id, m);
    if k < before.len() {
        lemma_attack_moves(measures, player_id, m, k);
    } else {
        lemma_attack_row(measures, player_id, n - 1, measures.len(), k - before.len());
        let action = attack_moves_upto(measures, player_id, n)[k];
        let i: int = n - 1;
        let j = choose|j: int| moves_between(measures, player_id, action, i, j);
        assert(moves_between(measures, player_id, action, i, j));
    }
}

/// Every move that is offered has its reason, and names only planets that
/// are measured.
pub proof fn lemma_moves_offered(measures: Seq<MeasureView>, player_id: usize, k: int)
    requires
        0 <= k < moves_of(measures, player_id).len(),
    ensures
        offered(measures, player_id, moves_of(measures, player_id)[k]),
        names_measured(measures, moves_of(measures, player_id)[k]),
{
    let n = measures.len();
    let waits = wait_moves(measures, player_id);
    let builds = build_moves_upto(measures, player_id, n);
    let gathers = gather_moves_upto(measures, player_id, n);
    let attacks = attack_moves_upto(measures, player_id, n);
    let action = moves_of(measures, player_id)[k];
    if k < waits.len() {
    } else if k < waits.len() + builds.len() {
        lemma_build_moves(measures, player_id, n, k - waits.len());
        let i = choose|i: int| builds_at(measures, player_id, n, action, i);
        assert(measures[i].planet_props.id == action->AddShip_0.id);
    } else {
        if k < waits.len() + builds.len() + gathers.len() {
            lemma_gather_moves(measures, player_id, n, k - waits.len() - builds.len());
        } else {
            lemma_attack_moves(
                measures,
                player_id,
                n,
                k - waits.len() - builds.len() - gathers.len(),
            );
        }
        let (i, j) = choose|i: int, j: int| moves_between(measures, player_id, action, i, j);
        assert(measures[i].planet_props.id == action->MoveShips_0.id);
        assert(measures[j].planet_props.id == action->MoveShips_1.id);
    }
}

proof fn lemma_build_offered(measures: Seq<MeasureView>, player_id: usize, n: nat, i: int)
    requires
        0 <= i < n <= measures.len(),
        is_allied(measures[i], player_id),
        can_afford(measures[i]),
    ensures
        build_moves_upto(measures, player_id, n).len() >= 1,
    decreases n,
{
    if i < n - 1 {
        lemma_build_offered(measures, player_id, (n - 1) as nat, i);
    }
}

/// There is always a move: to wait, if nothing else.
pub proof fn lemma_some_move(measures: Seq<MeasureView>, player_id: usize)
    ensures
        moves_of(measures, player_id).len() >= 1,
{
    if !none_affords(measures, player_id) {
        let i = choose|i: int|
            0 <= i < measures.len() && is_allied(#[trigger] measures[i], player_id) && can_afford(
                measures[i],
            );
        lemma_build_offered(measures, player_id, measures.len(), i);
    }
}

/// `Wait` is offered if and only if no allied planet can afford a ship.
pub proof fn lemma_wait_offered(measures: Seq<MeasureView>, player_id: usize)
    ensures
        moves_of(measures, player_id).contains(PlayerAction::Wait) <==> none_affords(
            measures,
            player_id,
        ),
{
    let moves = moves_of(measures, player_id);
    if none_affords(measures, player_id) {
        assert(moves[0] == PlayerAction::Wait);
    }
    if moves.contains(PlayerAction::Wait) {
        let k = choose|k: int| 0 <= k < moves.len() && moves[k] == PlayerAction::Wait;
        lemma_moves_offered(measures, player_id, k);
    }
}

} // verus!
