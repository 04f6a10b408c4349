//! From clicks on planets to the actions of the human contender.
use vstd::prelude::*;
use crate::model::CelestialProperties;
use crate::player::PlayerAction;

verus! {

/// The mouse button that gives orders.
pub const PRIMARY_BUTTON: i64 = 1;

/// A click shorter than this many milliseconds builds a ship; a longer one
/// sends ships from the planet clicked before.
pub const SHORT_CLICK_MILLIS: u128 = 500;

/// What the clicks so far have left behind: the planet clicked last, and
/// when the primary button went down, in milliseconds of the caller's clock.
#[derive(Debug, Copy, Clone)]
pub struct InputHandler2D {
    target_planet: Option<CelestialProperties>,
    primary_mouse_button_time: u128,
}

impl InputHandler2D {
    /// The planet clicked last, if any.
    pub closed spec fn target(&self) -> Option<CelestialProperties> {
        self.target_planet
    }

    /// When the primary button went down last.
    pub closed spec fn pressed_at(&self) -> u128 {
        self.primary_mouse_button_time
    }

    /// The action that a mouse button event on the planet `target` asks for.
    /// Only the release of the primary button asks for anything: for a ship
    /// on the planet, if the button was held for less than half a second;
    /// else for ships to move from the planet clicked before, if there was
    /// one and it is another planet.
    pub open spec fn action_for(
        &self,
        target: CelestialProperties,
        button_index: i64,
        pressed: bool,
        now_millis: u128,
    ) -> PlayerAction {
        if button_index != PRIMARY_BUTTON || pressed {
            PlayerAction::Wait
        } else if now_millis - self.pressed_at() < SHORT_CLICK_MILLIS {
            PlayerAction::AddShip(target)
        } else if self.target() is Some && self.target().unwrap().id != target.id {
            PlayerAction::MoveShips(self.target().unwrap(), target)
        } else {
            PlayerAction::Wait
        }
    }

    /// A handler that has seen no click, made at the time `now_millis`.
    pub fn new(now_millis: u128) -> (handler: Self)
        ensures
            handler.target() is None,
            handler.pressed_at() == now_millis,
    {
        InputHandler2D { target_planet: None, primary_mouse_button_time: now_millis }
    }

    /// The planet clicked last, if any.
    pub fn get_target(&self) -> (target: Option<CelestialProperties>)
        ensures
            target == self.target(),
    {
        self.target_planet
    }

    /// When the primary button went down last.
    pub fn get_pressed_at(&self) -> (millis: u128)
        ensures
            millis == self.pressed_at(),
    {
        self.primary_mouse_button_time
    }

    /// Takes a mouse button event on the planet `target` at the time
    /// `now_millis` and returns the action that it asks for. The planet
    /// becomes the planet clicked last; the press of the primary button is
    /// timed.
    pub fn handle_mouse_button_event(
        &mut self,
        target: CelestialProperties,
        button_index: i64,
        pressed: bool,
        now_millis: u128,
    ) -> (action: PlayerAction)
        requires
            now_millis >= old(self).pressed_at(),
        ensures
            action == old(self).action_for(target, button_index, pressed, now_millis),
            final(self).target() == Some(target),
            final(self).pressed_at() == if button_index == PRIMARY_BUTTON && pressed {
                now_millis
            } else {
                old(self).pressed_at()
            },
    {
        let mut player_action = PlayerAction::Wait;
        if button_index == PRIMARY_BUTTON {
            if pressed {
                self.primary_mouse_button_time = now_millis;
            } else {
                let duration = now_millis - self.primary_mouse_button_time;
                if duration < SHORT_CLICK_MILLIS {
                    player_action = PlayerAction::AddShip(target);
                } else if let Some(current) = self.target_planet {
                    if current.id != target.id {
                        player_action = PlayerAction::MoveShips(current, target);
                    }
                }
            }
        }
        self.target_planet = Some(target);
        player_action
    }
}

} // verus!
