//! An interpreter for an eight-instruction tape language, with its decoding,
//! bracket linking, run-length fusion and execution proved against a
//! mathematical model of the machine.
pub mod fusion;
pub mod instruction;
pub mod laws;
pub mod machine;
pub mod memory;
