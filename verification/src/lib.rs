pub mod cli;
pub mod errors;
pub mod maths;
pub mod matrix;
pub mod parser;
pub mod pool;
pub mod text;
pub mod types;
