//! The Last Signal: the rules of a small expedition roguelike, with their
//! contracts proved by Verus.
use vstd::prelude::*;

pub mod geom;
pub mod game;
pub mod text;
pub mod sight;
pub mod rules;
pub mod route;
pub mod gen;
pub mod check;
pub mod replay;
pub mod advice;
pub mod knowledge;
pub mod laws;
pub mod wrap;
pub mod ai;
pub mod profile;
pub mod save;
pub mod consistency;
pub mod layout;
pub mod calendar;
pub mod rulebook;

verus! {

} // verus!
