use remote_colonies::game::{check_game_over, Game};

#[test]
fn demo_match_has_fifteen_planets_and_nine_bots() {
    let game = Game::demo();
    assert!(game.is_demo());
    assert_eq!(game.get_planets_count(), 15);
    assert_eq!(game.get_ais_count(), 9);
    assert_eq!(game.get_difficulty(), 2);
}

#[test]
fn new_match_keeps_its_settings() {
    let game = Game::new(3, 12, 1);
    assert!(!game.is_demo());
    assert_eq!(game.get_ais_count(), 3);
    assert_eq!(game.get_planets_count(), 12);
    assert_eq!(game.get_difficulty(), 1);
}

#[test]
fn new_match_without_bots() {
    let game = Game::new(0, 1, 0);
    assert_eq!(game.get_ais_count(), 0);
    assert_eq!(game.get_planets_count(), 1);
    assert_eq!(game.get_difficulty(), 0);
}

#[test]
fn match_is_won_by_the_last_contender_playing() {
    assert_eq!(check_game_over(&vec![false, true, false]), (Some(1), vec![0, 2]));
    assert_eq!(check_game_over(&vec![true]), (Some(0), vec![]));
}

#[test]
fn match_goes_on_while_several_play() {
    assert_eq!(check_game_over(&vec![true, false, true, true]), (None, vec![1]));
    assert_eq!(check_game_over(&vec![true, true]), (None, vec![]));
}

#[test]
fn nobody_wins_when_nobody_plays() {
    assert_eq!(check_game_over(&vec![false, false]), (None, vec![0, 1]));
    assert_eq!(check_game_over(&vec![]), (None, vec![]));
}
