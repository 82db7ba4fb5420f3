pub mod certificate;
pub mod clause;
pub mod instance;
pub mod types;
