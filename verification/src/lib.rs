//! The core of an engine for RoboCup Small Size League robots: it follows the
//! referee, serves a strategy script, and decides what robots are told to do.

use vstd::prelude::*;

pub mod arithmetic;
pub mod game_controller;
pub mod game_laws;
pub mod layout;
pub mod lua_bindings;
pub mod lua_laws;
pub mod motion;
pub mod referee;
pub mod rounding;
pub mod scalar;
pub mod single;
pub mod supervisor;
pub mod text;
pub mod wire;
pub mod wire_laws;
pub mod world;

verus! {

} // verus!
