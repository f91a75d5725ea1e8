pub mod laws;
pub mod maze;
mod random;
