//! A small card-collection game between automated players, together with the
//! machinery to search for good "buy policies": the game state machine, a
//! priority-table policy evaluator, a tournament layer that scores policies
//! against each other, and the line-oriented record format in which scored
//! policies are persisted.

pub mod cards;
pub mod codec;
pub mod engine;
pub mod evaluator;
pub mod game;
pub mod policy;
pub mod rng;
pub mod stats;
pub mod tournament;
