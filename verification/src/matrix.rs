pub mod layout;
pub mod partition;
