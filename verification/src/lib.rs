//! Resource diffusion over the tree that a packed symbol string describes.
//!
//! A string of symbols with parameters holds diffusion nodes, amounts to add
//! to them, and branch markers that nest them. `diffusion::extract_graph`
//! reads the tree of nodes and their resources from such a string,
//! `diffusion::diffusion_job` lets the resources flow between parents and
//! children under their capacities, and `diffusion::apply_results` writes
//! the amounts back. `interop_extern::diffusion` runs the three in a row,
//! in place or from a source string into the string that a rewrite made of
//! it.
//!
//! Quantities are IEEE 754 single-precision numbers, held as their 32-bit
//! patterns; `binary32` gives them a correctly rounded arithmetic on
//! integers, so that every amount the library computes is stated exactly.

pub mod binary32;
pub mod interop_extern;
pub mod diffusion;

use vstd::prelude::*;

verus! {

/// Twice the input; a cheap way for a host to see that calls arrive.
pub fn double_input(input: i32) -> (r: i32)
    requires
        i32::MIN <= 2 * input <= i32::MAX,
    ensures
        r == 2 * input,
{
    input * 2
}

/// Three times the input.
pub fn triple_input(input: i32) -> (r: i32)
    requires
        i32::MIN <= 3 * input <= i32::MAX,
    ensures
        r == 3 * input,
{
    input * 3
}

} // verus!
