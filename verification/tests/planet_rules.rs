use remote_colonies::model::{
    CelestialProperties, Color, Consts, ContenderProperties, VesselProperties,
};
use remote_colonies::planet::PlanetBusiness;

fn contender(id: usize) -> ContenderProperties {
    ContenderProperties { id, color: Color { r: 0, g: 0, b: 0, a: 255 }, bot: id > 0 }
}

fn planet(owner: usize, resources: u64, increase: u64, extracted: u64) -> CelestialProperties {
    CelestialProperties {
        id: 0,
        contender_id: owner,
        radius: 10_000,
        resources,
        resources_increase: increase,
        extracted,
    }
}

fn fleet(owner: usize, count: usize) -> (ContenderProperties, Vec<VesselProperties>) {
    let ships = (0..count)
        .map(|n| VesselProperties { id: owner * 1000 + n, contender_id: owner, celestial_id: 0 })
        .collect();
    (contender(owner), ships)
}

#[test]
fn update_grows_reserve_then_extracts_one_unit_per_ship() {
    let mut props = planet(1, 6_000_000, 7_200, 0);
    PlanetBusiness::new().resources_update(&mut props, 3);
    assert_eq!(props.resources, 6_000_000 + 7_200 - 30_000);
    assert_eq!(props.extracted, 30_000);
    assert_eq!(props.resources_increase, 7_200);
}

#[test]
fn update_extracts_no_more_than_the_reserve() {
    let mut props = planet(1, 12_000, 3_000, 50_000);
    PlanetBusiness::new().resources_update(&mut props, 4);
    assert_eq!(props.resources, 0);
    assert_eq!(props.extracted, 65_000);
}

#[test]
fn update_without_ships_only_grows() {
    let mut props = planet(1, 100, 5, 9);
    PlanetBusiness::new().resources_update(&mut props, 0);
    assert_eq!(props.resources, 105);
    assert_eq!(props.extracted, 9);
}

#[test]
fn update_caps_amounts_at_the_largest() {
    let mut props = planet(1, u64::MAX - 1, 10, u64::MAX - 5);
    PlanetBusiness::new().resources_update(&mut props, 1);
    assert_eq!(props.resources, u64::MAX - 10_000);
    assert_eq!(props.extracted, u64::MAX);
}

#[test]
fn init_sets_reserve_and_increase() {
    let mut props = planet(Consts::NOBODY, 1, 1, 77);
    PlanetBusiness::new().resources_init(
        &mut props,
        Consts::PLANET_RESOURCES_INIT,
        Consts::PLANET_RESOURCES_INC,
    );
    assert_eq!(props.resources, 6_000_000);
    assert_eq!(props.resources_increase, 7_200);
    assert_eq!(props.extracted, 77);
    PlanetBusiness::new().resources_init(
        &mut props,
        Consts::ADD_PLAYER_RESOURCES_INIT,
        Consts::ADD_PLAYER_RESOURCES_INC,
    );
    assert_eq!(props.resources, 2_000_000);
    assert_eq!(props.resources_increase, 3_600);
}

#[test]
fn init_rounds_the_increase_down_and_caps_it() {
    let mut props = planet(1, 0, 0, 0);
    PlanetBusiness::new().resources_init(&mut props, 9_999, 1);
    assert_eq!(props.resources_increase, 0);
    PlanetBusiness::new().resources_init(&mut props, u64::MAX, u64::MAX);
    assert_eq!(props.resources, u64::MAX);
    assert_eq!(props.resources_increase, u64::MAX);
}

#[test]
fn owner_with_enough_resources_pays_for_a_ship() {
    let mut props = planet(4, 0, 0, 250_000);
    assert!(PlanetBusiness::new().can_add_ship(&mut props, contender(4), 100_000));
    assert_eq!(props.extracted, 150_000);
    assert_eq!(props.contender_id, 4);
}

#[test]
fn exact_price_is_enough() {
    let mut props = planet(4, 0, 0, 100_000);
    assert!(PlanetBusiness::new().can_add_ship(&mut props, contender(4), 100_000));
    assert_eq!(props.extracted, 0);
}

#[test]
fn stranger_cannot_build() {
    let mut props = planet(4, 0, 0, 250_000);
    let before = props;
    assert!(!PlanetBusiness::new().can_add_ship(&mut props, contender(5), 100_000));
    assert_eq!(props, before);
}

#[test]
fn owner_short_of_resources_cannot_build() {
    let mut props = planet(4, 0, 0, 99_999);
    let before = props;
    assert!(!PlanetBusiness::new().can_add_ship(&mut props, contender(4), 100_000));
    assert_eq!(props, before);
}

#[test]
fn detachment_is_rounded_down() {
    let business = PlanetBusiness::new();
    assert_eq!(business.count_ships_to_move(7, 50), 3);
    assert_eq!(business.count_ships_to_move(1, 50), 0);
    assert_eq!(business.count_ships_to_move(0, 50), 0);
    assert_eq!(business.count_ships_to_move(10, 100), 10);
    assert_eq!(business.count_ships_to_move(9, 33), 2);
    assert_eq!(business.count_ships_to_move(usize::MAX, 200), usize::MAX);
}

#[test]
fn settled_battle_lists_casualties_in_fleet_order() {
    let ships = vec![fleet(1, 3), fleet(2, 2), fleet(3, 0)];
    let losses = vec![Some(2), Some(0), None];
    let (winner, casualties) = PlanetBusiness::new().resolve_battle(&ships, &losses);
    assert_eq!(winner, None);
    assert_eq!(casualties, vec![ships[0].1[2], ships[1].1[0]]);
}

#[test]
fn last_fleet_standing_wins() {
    let ships = vec![fleet(1, 1), fleet(2, 4)];
    let losses = vec![Some(0), None];
    let (winner, casualties) = PlanetBusiness::new().resolve_battle(&ships, &losses);
    assert_eq!(winner, Some(contender(2)));
    assert_eq!(casualties, vec![ships[0].1[0]]);
}

#[test]
fn nobody_wins_an_empty_orbit() {
    let ships = vec![fleet(1, 0), fleet(2, 1)];
    let losses = vec![None, Some(0)];
    let (winner, casualties) = PlanetBusiness::new().resolve_battle(&ships, &losses);
    assert_eq!(winner, None);
    assert_eq!(casualties.len(), 1);
    let (winner, casualties) = PlanetBusiness::new().resolve_battle(&Vec::new(), &Vec::new());
    assert_eq!(winner, None);
    assert!(casualties.is_empty());
}

#[test]
fn losses_that_name_no_vessel_take_nothing() {
    let ships = vec![fleet(1, 2), fleet(2, 2)];
    let losses = vec![Some(2)];
    let (winner, casualties) = PlanetBusiness::new().resolve_battle(&ships, &losses);
    assert_eq!(winner, None);
    assert!(casualties.is_empty());
}

#[test]
fn rolled_losses_name_vessels_of_outnumbered_fleets() {
    let business = PlanetBusiness::new();
    let ships = vec![fleet(1, 5), fleet(2, 3), fleet(3, 0)];
    let mut hits = 0;
    for _ in 0..20_000 {
        let losses = business.roll_losses(&ships);
        assert_eq!(losses.len(), 3);
        assert_eq!(losses[2], None);
        for (i, loss) in losses.iter().enumerate() {
            if let Some(k) = loss {
                assert!(*k < ships[i].1.len());
                hits += 1;
            }
        }
    }
    assert!(hits > 0);
}

#[test]
fn lone_fleet_never_loses() {
    let business = PlanetBusiness::new();
    let ships = vec![fleet(1, 4), fleet(2, 0)];
    for _ in 0..5_000 {
        assert_eq!(business.roll_losses(&ships), vec![None, None]);
        let (winner, casualties) = business.battle(ships.clone());
        assert_eq!(winner, Some(contender(1)));
        assert!(casualties.is_empty());
    }
}

#[test]
fn battle_takes_at_most_one_vessel_of_each_fleet() {
    let business = PlanetBusiness::new();
    let ships = vec![fleet(1, 2), fleet(2, 1), fleet(3, 6)];
    for _ in 0..5_000 {
        let (winner, casualties) = business.battle(ships.clone());
        assert!(casualties.len() <= 3);
        for (player, vessels) in &ships {
            let lost = casualties.iter().filter(|c| c.contender_id == player.id).count();
            assert!(lost <= 1);
            for c in casualties.iter().filter(|c| c.contender_id == player.id) {
                assert!(vessels.contains(c));
            }
        }
        let standing: Vec<usize> = ships
            .iter()
            .filter(|(player, vessels)| {
                vessels.len() > casualties.iter().filter(|c| c.contender_id == player.id).count()
            })
            .map(|(player, _)| player.id)
            .collect();
        if standing.len() == 1 {
            assert_eq!(winner.map(|w| w.id), Some(standing[0]));
        } else {
            assert_eq!(winner, None);
        }
    }
}

#[test]
fn vessels_are_counted_over_all_fleets() {
    let ships = vec![fleet(1, 2), fleet(2, 0), fleet(3, 6)];
    assert_eq!(PlanetBusiness::new().count_vessels(&ships), 8);
    assert_eq!(PlanetBusiness::new().count_vessels(&Vec::new()), 0);
}

#[test]
fn drawn_numbers_decide_the_loss() {
    let business = PlanetBusiness::new();
    // a fleet of 3 among 8: hit, and the dice below the 5 vessels of the others
    assert_eq!(business.loss_drawn(8, 3, 0, 0, 2), Some(2));
    assert_eq!(business.loss_drawn(8, 3, 0, 4, 1), Some(1));
    assert_eq!(business.loss_drawn(8, 3, 0, 5, 1), None);
    assert_eq!(business.loss_drawn(8, 3, 0, 7, 0), None);
    // not hit at all
    assert_eq!(business.loss_drawn(8, 3, 1, 0, 0), None);
    assert_eq!(business.loss_drawn(8, 3, 99, 4, 2), None);
    // a fleet that holds every vessel, and an empty fleet
    assert_eq!(business.loss_drawn(8, 8, 0, 0, 0), None);
    assert_eq!(business.loss_drawn(8, 0, 0, 0, 0), None);
}

#[test]
fn one_draw_in_a_hundred_hits_and_the_others_share_decides() {
    let business = PlanetBusiness::new();
    let mut losses = 0;
    for hit in 0..100u128 {
        for dice in 0..8u128 {
            if business.loss_drawn(8, 3, hit, dice, 0).is_some() {
                losses += 1;
            }
        }
    }
    // (8 - 3) of the 100 * 8 draws
    assert_eq!(losses, 5);
}

#[test]
fn battle_takes_at_most_one_vessel_of_each_contender() {
    let business = PlanetBusiness::new();
    let ships = vec![fleet(1, 3), fleet(2, 2), fleet(3, 1)];
    for losses in [
        vec![Some(0), Some(1), Some(0)],
        vec![None, Some(0), None],
        vec![Some(2), None, Some(0)],
        vec![None, None, None],
    ] {
        let (winner, casualties) = business.resolve_battle(&ships, &losses);
        let mut standing = Vec::new();
        for (player, vessels) in &ships {
            let lost = casualties.iter().filter(|c| c.contender_id == player.id).count();
            assert!(lost <= 1);
            if vessels.len() - lost >= 1 {
                standing.push(*player);
            }
        }
        assert_eq!(winner, if standing.len() == 1 { Some(standing[0]) } else { None });
    }
}

#[test]
fn extraction_is_the_lesser_of_reserve_and_ships() {
    let business = PlanetBusiness::new();
    for (resources, increase, orbiters) in [(50_000u64, 7_000u64, 3i32), (50_000, 7_000, 9), (0, 0, 4)] {
        let mut props = planet(1, resources, increase, 11);
        business.resources_update(&mut props, orbiters);
        let reserve = resources + increase;
        let taken = reserve.min(orbiters as u64 * 10_000);
        assert_eq!(props.extracted, 11 + taken);
        assert_eq!(props.resources, reserve - taken);
    }
}
