pub mod ast;
pub mod builder;
pub mod digits;
pub mod driver;
pub mod eval;
pub mod exec;
pub mod ir;
pub mod lower;
pub mod parser;
pub mod sem;
pub mod tables;
