//! Options analytics: option-chain data, positions and their payoff,
//! strategy templates, and the state machine behind the keyboard-driven
//! terminal front end.
use vstd::prelude::*;

pub mod app;
pub mod arith;
pub mod calendar;
pub mod model;
pub mod portfolio;
pub mod seq_facts;
pub mod setup;
pub mod strategy;
pub mod strategy_builder;
pub mod text;

verus! {
} // verus!
