//! Parsing and evaluation of tabletop dice expressions such as `5d10d+2 + 2d5 - 2`.
//!
//! Text is read through a [`Cursor`] by the [`Parse`] implementations into [`Args`], a list of
//! signed terms; [`Args::evaluate`] rolls the dice and reports the rolls and totals.
use vstd::prelude::*;

pub mod args;
pub mod cursor;
pub mod data;
pub mod dice;
pub mod display;
pub mod parse;

pub use cursor::Cursor;
pub use data::{Args, Bonus, Component, Dice, Drop, DropDirection, Sign, Term};
pub use parse::Parse;

verus! {

} // verus!
