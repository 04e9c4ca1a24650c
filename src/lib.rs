//! An Intcode virtual machine with a verified instruction semantics, the
//! drivers that run programs on it, and the other puzzle solvers that share
//! its input formats.
use vstd::prelude::*;

pub mod semantics;
pub mod machine;
pub mod program;
pub mod amplifier;
pub mod arcade;
pub mod robot;
pub mod fuel;
pub mod batch;
pub mod digits;
pub mod image;
pub mod asteroids;
pub mod moons;
pub mod orbits;
pub mod wires;

pub use machine::Machine;
pub use program::parse_ascii_program;
pub use semantics::Fault;

verus! {

} // verus!
