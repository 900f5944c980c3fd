//! A turn-based territorial strategy world: a grid split into plots that
//! players claim, build on, produce in, move across and conquer, advanced
//! one tick at a time by a deterministic rule engine, with a text format for
//! worlds and for players' commands.
use vstd::prelude::*;

pub mod buildings;
pub mod commands;
pub mod entity;
pub mod errors;
pub mod field;
pub mod game;
pub mod locations;
pub mod parser;
pub mod resources;
pub mod round_trip;
pub mod rules;
pub mod text;
pub mod utils;
pub mod world;

verus! {

} // verus!
