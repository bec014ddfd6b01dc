use vstd::prelude::*;

pub mod cd4515;
pub mod cpu;
pub mod machine;
pub mod peripheral;
pub mod ticker;
pub mod windowing;

verus! {

/// Errors raised while loading a program or running the interpreter.
#[derive(Debug, PartialEq, Eq, Structural)]
pub enum Error {
    /// The fetched instruction does not decode to any known operation.
    UnknownOpCode(u16),
    /// The program does not fit in the memory left after the interpreter area.
    RomTooLarge { size: usize, capacity: usize },
}

} // verus!
