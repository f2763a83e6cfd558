//! A verified interpreter for a minimal tape-based language: a byte memory,
//! a movable cursor, and eight primitive operations. Source text is compiled
//! (filtering, run-length fusion, `[-]` idiom folding, loop resolution) into
//! an instruction sequence, which an executor then runs.
//!
//! Bounds policy: the tape is circular. Cursor motion wraps modulo the
//! memory size in both directions, so out-of-range access never occurs and
//! cursor motion is never a fault. Cell arithmetic wraps modulo 256 by
//! design.

mod ops;
mod parser;
mod machine;
mod laws;

pub use ops::Op;
pub use ops::SyntaxError;
pub use parser::parse;
pub use parser::match_ops;
pub use machine::Interpreter;
pub use machine::StepEffect;
pub use machine::DEFAULT_MEMORY_SIZE;
