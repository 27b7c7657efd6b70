pub mod error;
pub mod grammar;
pub mod ids;
pub mod versions;
pub mod enums;
