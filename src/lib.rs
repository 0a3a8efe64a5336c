use vstd::prelude::*;

/// The execution engine: one method per instruction.
mod engine;
/// Laws of the machine, proved over the step function.
pub mod laws;
/// The machine: instructions, registers, label table and the run loop.
pub mod machine;
/// Runtime values and their accessors.
pub mod mlvalue;
/// The reader of textual listings.
pub mod parser;
/// The pass that turns calls in tail position into tail calls.
pub mod peephole;
/// The step function that the engine is proved against.
pub mod semantics;

verus! {

} // verus!
