pub mod ast;
pub mod error;
pub mod lambda;
pub mod sequence;
pub mod stack;
pub mod term;
pub mod token;
