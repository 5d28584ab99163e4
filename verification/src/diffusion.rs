//! Graph extraction, diffusion steps and write-back of the results.

pub mod extract_graph;
pub mod diffusion_job;
pub mod apply_results;
pub mod symbol_element_remap;
