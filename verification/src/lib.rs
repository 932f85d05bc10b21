pub mod error;
pub mod pixel;
pub mod processing;
pub mod scale;
