pub mod context;
pub mod parser;
pub mod compiler;
pub mod jit;
pub mod eval;
pub mod structured;
