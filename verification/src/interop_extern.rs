//! The plain data that crosses the boundary to the embedding host.

pub mod data;
pub mod diffusion;
