pub mod array;
pub mod error;
pub mod index;
pub mod lanes;
pub mod laws;
pub mod transform;
