//! Decision-making and combat-resolution engine of a space-conquest strategy game.
//!
//! * `model` holds the plain records of contenders, planets and vessels
//! * `player` the actions a contender can take
//! * `planet` the economy and battle rules of a single planet
//! * `ai` the artificial contender: its picture of the map, its moves, its search
//! * `mcts` Monte-Carlo tree search over any game
//! * `game` the settings of a match and its end
//! * `input` the orders of the human contender
//! * `arith` bounds that keep the arithmetic of the others from overflowing
pub mod ai;
pub mod arith;
pub mod game;
pub mod input;
pub mod mcts;
pub mod model;
pub mod planet;
pub mod player;
