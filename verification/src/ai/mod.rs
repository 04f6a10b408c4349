//! The artificial contender: its picture of the map and the moves it weighs.
pub mod effects;
pub mod evaluator;
pub mod fleets;
pub mod legality;
pub mod measure;
pub mod metrics;
pub mod moves;
pub mod state;
