//! Ants on a rod.
//!
//! Ants walk along a rod at one common pace, turn round when two of them
//! meet and fall off at either end. One of them, Molly, is followed through
//! every meeting. The rod is a lattice of [`ROD_LENGTH`] units; an ant stands
//! on a whole unit and walks a whole number of units in each tick.

pub mod ant;
pub mod drawer;
pub mod order;
pub mod placement;
pub mod random;
pub mod rod;
pub mod sim;
pub mod tick;

pub use ant::{Ant, AntType, Direction, ROD_LENGTH};
pub use drawer::Drawer;
pub use sim::{AntRod, Args, InvalidConfiguration};
