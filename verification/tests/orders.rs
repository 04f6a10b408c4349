use remote_colonies::input::{InputHandler2D, PRIMARY_BUTTON, SHORT_CLICK_MILLIS};
use remote_colonies::model::{get_color, CelestialProperties, Color};
use remote_colonies::player::PlayerAction;

fn planet(id: usize) -> CelestialProperties {
    CelestialProperties {
        id,
        contender_id: 0,
        radius: 10_000,
        resources: 0,
        resources_increase: 0,
        extracted: 0,
    }
}

#[test]
fn short_click_builds_a_ship() {
    let mut input = InputHandler2D::new(1_000);
    assert_eq!(input.handle_mouse_button_event(planet(3), PRIMARY_BUTTON, true, 2_000), PlayerAction::Wait);
    assert_eq!(
        input.handle_mouse_button_event(planet(3), PRIMARY_BUTTON, false, 2_499),
        PlayerAction::AddShip(planet(3))
    );
}

#[test]
fn long_click_sends_ships_from_the_planet_clicked_before() {
    let mut input = InputHandler2D::new(0);
    input.handle_mouse_button_event(planet(1), PRIMARY_BUTTON, true, 1_000);
    assert_eq!(
        input.handle_mouse_button_event(planet(2), PRIMARY_BUTTON, false, 1_000 + SHORT_CLICK_MILLIS),
        PlayerAction::MoveShips(planet(1), planet(2))
    );
    // the button went down on the planet where it comes up: nothing moves
    input.handle_mouse_button_event(planet(3), PRIMARY_BUTTON, true, 5_000);
    assert_eq!(
        input.handle_mouse_button_event(planet(3), PRIMARY_BUTTON, false, 9_000),
        PlayerAction::Wait
    );
}

#[test]
fn click_just_under_half_a_second_is_short() {
    let mut input = InputHandler2D::new(0);
    input.handle_mouse_button_event(planet(1), PRIMARY_BUTTON, true, 1_000);
    assert_eq!(
        input.handle_mouse_button_event(planet(2), PRIMARY_BUTTON, false, 1_000 + SHORT_CLICK_MILLIS - 1),
        PlayerAction::AddShip(planet(2))
    );
}

#[test]
fn long_click_on_the_same_planet_does_nothing() {
    let mut input = InputHandler2D::new(0);
    input.handle_mouse_button_event(planet(1), PRIMARY_BUTTON, true, 100);
    assert_eq!(input.handle_mouse_button_event(planet(1), PRIMARY_BUTTON, false, 5_000), PlayerAction::Wait);
    input.handle_mouse_button_event(planet(1), PRIMARY_BUTTON, true, 6_000);
    assert_eq!(input.handle_mouse_button_event(planet(1), PRIMARY_BUTTON, false, 7_000), PlayerAction::Wait);
}

#[test]
fn first_long_click_has_no_planet_to_start_from() {
    let mut input = InputHandler2D::new(0);
    assert_eq!(input.handle_mouse_button_event(planet(4), PRIMARY_BUTTON, false, 500), PlayerAction::Wait);
    assert_eq!(
        input.handle_mouse_button_event(planet(5), PRIMARY_BUTTON, false, 500),
        PlayerAction::MoveShips(planet(4), planet(5))
    );
}

#[test]
fn handler_remembers_the_last_planet_and_the_last_press() {
    let mut input = InputHandler2D::new(7);
    assert_eq!(input.get_target(), None);
    assert_eq!(input.get_pressed_at(), 7);
    input.handle_mouse_button_event(planet(1), PRIMARY_BUTTON, true, 100);
    assert_eq!(input.get_target(), Some(planet(1)));
    assert_eq!(input.get_pressed_at(), 100);
    input.handle_mouse_button_event(planet(2), PRIMARY_BUTTON, false, 200);
    input.handle_mouse_button_event(planet(3), 2, true, 300);
    assert_eq!(input.get_target(), Some(planet(3)));
    assert_eq!(input.get_pressed_at(), 100);
}

#[test]
fn other_buttons_only_mark_the_planet() {
    let mut input = InputHandler2D::new(0);
    assert_eq!(input.handle_mouse_button_event(planet(1), 2, true, 10), PlayerAction::Wait);
    assert_eq!(input.handle_mouse_button_event(planet(1), 2, false, 20), PlayerAction::Wait);
    assert_eq!(
        input.handle_mouse_button_event(planet(2), PRIMARY_BUTTON, false, 10_000),
        PlayerAction::MoveShips(planet(1), planet(2))
    );
}

#[test]
fn contenders_have_their_colours() {
    assert_eq!(get_color(0), Color { r: 230, g: 25, b: 75, a: 255 });
    assert_eq!(get_color(3), Color { r: 0, g: 130, b: 200, a: 255 });
    assert_eq!(get_color(19), Color { r: 128, g: 128, b: 128, a: 255 });
    let all: Vec<Color> = (0..20).map(get_color).collect();
    for (i, a) in all.iter().enumerate() {
        for b in &all[i + 1..] {
            assert_ne!(a, b);
        }
    }
}
