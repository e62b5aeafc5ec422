pub mod directory;
pub mod errors;
pub mod label;
pub mod layer;
pub mod memory;
