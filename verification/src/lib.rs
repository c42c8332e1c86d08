//! Forecasts a learner's progression through a leveled
//! spaced-repetition curriculum by repeated randomized simulation.
//!
//! The library builds an empirical per-stage outcome model from
//! historical review records ([`dist`]), indexes the curriculum
//! items and their prerequisite relations ([`catalog`]), and steps a
//! discrete-event engine ([`sim`]) that reviews due subjects,
//! reschedules or retires them, unlocks newly eligible subjects, and
//! advances the current level once enough of its gating subjects
//! pass. Callers choose the horizon and run many independent trials
//! from clones of one initialized engine.

pub mod catalog;
pub mod dist;
pub mod model;
pub mod sim;
