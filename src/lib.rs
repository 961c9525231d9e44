pub mod interp;
pub mod ir;
pub mod jit;
pub mod laws;
pub mod loader;
pub mod parser;

pub use interp::{run, Action, Interpreter, Outcome, RunResult};
pub use ir::{BFProgram, Instruction};
pub use jit::LowerError;
pub use loader::{BFExecutable, LoadError};
pub use parser::ParseError;
