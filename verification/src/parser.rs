pub mod chunk;
pub mod dump;
pub mod enums;
pub mod market;
