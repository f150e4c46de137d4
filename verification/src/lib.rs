pub mod compiler;
pub mod interpreter;
pub mod package;
pub mod shared;
