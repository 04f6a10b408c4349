use remote_colonies::ai::effects::Difficulty;
use remote_colonies::ai::state::AiState;
use remote_colonies::mcts::transposition_table::ApproxTable;
use remote_colonies::mcts::GameState;
use remote_colonies::model::{
    CelestialProperties, Color, Consts, ContenderProperties, VesselProperties,
};
use remote_colonies::planet::PlanetBusiness;
use remote_colonies::player::PlayerAction;

/// A small generator of numbers that gives the same numbers every time.
struct Numbers(u64);

impl Numbers {
    fn next(&mut self, below: u64) -> u64 {
        self.0 = self.0.wrapping_mul(6_364_136_223_846_793_005).wrapping_add(1_442_695_040_888_963_407);
        (self.0 >> 33) % below
    }
}

fn contender(id: usize) -> ContenderProperties {
    ContenderProperties { id, color: Color { r: 1, g: 2, b: 3, a: 255 }, bot: true }
}

type Fleets = Vec<(ContenderProperties, Vec<VesselProperties>)>;

fn some_map(numbers: &mut Numbers) -> (AiState, Vec<(CelestialProperties, Fleets)>) {
    let planets = 1 + numbers.next(5) as usize;
    let owners = [0usize, 0, 1, 2, Consts::NOBODY];
    let mut next_ship = 0;
    let snapshot: Vec<(CelestialProperties, Fleets)> = (0..planets)
        .map(|id| {
            let props = CelestialProperties {
                id,
                contender_id: owners[numbers.next(5) as usize],
                radius: 50_000,
                resources: numbers.next(9_000_000),
                resources_increase: numbers.next(10_000),
                extracted: numbers.next(4) * 50_000 + numbers.next(2),
            };
            let fleets = (0..3)
                .map(|owner| {
                    let ships = (0..numbers.next(6))
                        .map(|_| {
                            next_ship += 1;
                            VesselProperties { id: next_ship, contender_id: owner, celestial_id: id }
                        })
                        .collect();
                    (contender(owner), ships)
                })
                .collect();
            (props, fleets)
        })
        .collect();
    let distances: Vec<Vec<u64>> = (0..planets)
        .map(|i| (0..planets).map(|j| if i == j { 0 } else { 1 + numbers.next(9_000_000) }).collect())
        .collect();
    let mut state = AiState::new(contender(0), Difficulty::Medium);
    let players = [contender(0), contender(1), contender(2)];
    assert!(state.try_refresh_measures(&distances, &players, snapshot.clone()));
    (state, snapshot)
}

/// The moves of a position, found the plain way.
fn moves_by_the_rules(state: &AiState) -> Vec<PlayerAction> {
    let me = state.get_player().id;
    let measures = state.get_measures();
    let allied: Vec<_> = measures.iter().filter(|m| m.planet_props.contender_id == me).collect();
    let others: Vec<_> = measures.iter().filter(|m| m.planet_props.contender_id != me).collect();
    let mut moves = Vec::new();
    if allied.iter().all(|m| m.extracted < Consts::ADD_SHIP_RESOURCE_COST) {
        moves.push(PlayerAction::Wait);
    }
    for m in &allied {
        if m.extracted >= Consts::ADD_SHIP_RESOURCE_COST {
            moves.push(PlayerAction::AddShip(m.planet_props));
        }
    }
    for i in 0..allied.len() {
        let own: usize =
            allied[i].ships_by_player.iter().filter(|(p, _)| p.id == me).map(|(_, s)| s.len()).sum();
        let foreign: usize =
            allied[i].ships_by_player.iter().filter(|(p, _)| p.id != me).map(|(_, s)| s.len()).sum();
        for j in (i + 1)..allied.len() {
            if own > 1 && foreign < 2 * own {
                moves.push(PlayerAction::MoveShips(allied[i].planet_props, allied[j].planet_props));
            }
        }
    }
    for from in &allied {
        for to in &others {
            moves.push(PlayerAction::MoveShips(from.planet_props, to.planet_props));
        }
    }
    moves
}

fn counts_hold(state: &AiState) {
    let me = state.get_player().id;
    for m in state.get_measures() {
        let all: usize = m.ships_by_player.iter().map(|(_, s)| s.len()).sum();
        let own: usize =
            m.ships_by_player.iter().filter(|(p, _)| p.id == me).map(|(_, s)| s.len()).sum();
        assert_eq!(m.ships_count, all);
        assert_eq!(m.allied_ships_count, own);
    }
}

#[test]
fn moves_are_those_of_the_rules_on_many_maps() {
    let mut numbers = Numbers(11);
    for _ in 0..300 {
        let (state, _) = some_map(&mut numbers);
        assert_eq!(state.available_moves(), moves_by_the_rules(&state));
    }
}

#[test]
fn counts_follow_the_fleets_through_many_moves() {
    let mut numbers = Numbers(5);
    for _ in 0..60 {
        let (mut state, _) = some_map(&mut numbers);
        counts_hold(&state);
        for _ in 0..12 {
            let moves = state.available_moves();
            let action = moves[numbers.next(moves.len() as u64) as usize];
            let ships_before: usize = state.get_measures().iter().map(|m| m.ships_count).sum();
            state.make_move(&action);
            counts_hold(&state);
            assert_eq!(state.available_moves(), moves_by_the_rules(&state));
            let ships_after: usize = state.get_measures().iter().map(|m| m.ships_count).sum();
            match action {
                PlayerAction::Wait => assert_eq!(ships_after, ships_before),
                PlayerAction::AddShip(_) => assert_eq!(ships_after, ships_before + 1),
                PlayerAction::MoveShips(_, _) => {
                    assert!(ships_after <= ships_before);
                    assert!(ships_before - ships_after <= 4);
                }
            }
            let metrics = state.get_metrics();
            assert!((0..=100).contains(&metrics.ships_count_ratio));
            assert!((0..=100).contains(&metrics.planets_ratio));
        }
    }
}

#[test]
fn refresh_keeps_what_the_snapshot_says() {
    let mut numbers = Numbers(23);
    for _ in 0..100 {
        let (state, snapshot) = some_map(&mut numbers);
        for (measure, (props, fleets)) in state.get_measures().iter().zip(&snapshot) {
            assert_eq!(measure.planet_props, *props);
            assert_eq!(measure.extracted, props.extracted);
            assert_eq!(measure.distance, None);
            let enemy = props.contender_id != 0 && props.contender_id != Consts::NOBODY;
            assert_eq!(measure.ships_by_player.len(), fleets.len() + usize::from(enemy));
            assert_eq!(&measure.ships_by_player[..fleets.len()], &fleets[..]);
        }
        counts_hold(&state);
    }
}

#[test]
fn settled_battles_agree_with_counting_by_hand() {
    let business = PlanetBusiness::new();
    let mut numbers = Numbers(3);
    for _ in 0..500 {
        let fleets: Fleets = (0..1 + numbers.next(4) as usize)
            .map(|owner| {
                let ships = (0..numbers.next(4) as usize)
                    .map(|n| VesselProperties { id: 10 * owner + n, contender_id: owner, celestial_id: 0 })
                    .collect();
                (contender(owner), ships)
            })
            .collect();
        let losses: Vec<Option<usize>> = fleets
            .iter()
            .map(|_| if numbers.next(2) == 0 { None } else { Some(numbers.next(4) as usize) })
            .collect();
        let (winner, casualties) = business.resolve_battle(&fleets, &losses);
        let mut lost = Vec::new();
        let mut standing = Vec::new();
        for ((player, ships), loss) in fleets.iter().zip(&losses) {
            let mut left = ships.len();
            if let Some(k) = loss {
                if *k < ships.len() {
                    lost.push(ships[*k]);
                    left -= 1;
                }
            }
            if left > 0 {
                standing.push(*player);
            }
        }
        assert_eq!(casualties, lost);
        assert_eq!(winner, if standing.len() == 1 { Some(standing[0]) } else { None });
        let total: usize = fleets.iter().map(|(_, s)| s.len()).sum();
        assert_eq!(business.count_vessels(&fleets), total as u128);
    }
}

#[test]
fn table_goes_on_giving_what_it_gave() {
    let mut numbers = Numbers(17);
    let mut table = ApproxTable::new(256);
    let mut known: Vec<(u64, usize)> = Vec::new();
    for n in 0..2_000usize {
        let key = numbers.next(600);
        let before = table.lookup(key);
        let existing = table.insert(key, n);
        assert_eq!(existing, before);
        match table.lookup(key) {
            Some(value) => {
                if before.is_none() {
                    assert_eq!(value, n);
                    known.push((key, n));
                } else {
                    assert_eq!(Some(value), before);
                }
            }
            None => assert_eq!(before, None),
        }
        for (key, value) in &known {
            assert_eq!(table.lookup(*key), Some(*value));
        }
        assert_eq!(table.len(), known.len());
        assert_eq!(table.capacity(), 256);
    }
    assert!(table.len() * 3 <= 256 * 2 + 3);
}
