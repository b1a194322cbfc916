//! An airline tower: it assigns aircraft to flights and carries delays and
//! curfews through the rotations that they disturb.
//!
//! - [`time`], [`ident`] and [`text`] hold instants, identifiers and
//!   numbers as text.
//! - [`aircraft`], [`airport`] and [`flight`] hold the entities: the fleet
//!   with its maintenance windows, the airports with their curfews, and the
//!   flights with their state.
//! - [`schedule`] holds the schedule and its engines: assignment, delay and
//!   curfew, with what a consistent schedule is and when the engines keep
//!   it so.
//! - [`console`] holds what an operator's console asks of the tower.
//! - [`paint`] holds colour for a terminal.
//!
//! Every function states what it returns or changes over the mathematical
//! value of its arguments, and is proved to do so. The three functions of
//! [`paint`] are the exception: they call the `colored` crate, and what
//! they state of it is taken on trust.

pub mod aircraft;
pub mod airport;
pub mod console;
pub mod flight;
pub mod ident;
pub mod paint;
pub mod schedule;
pub mod text;
pub mod time;
