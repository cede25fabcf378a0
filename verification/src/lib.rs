//! Reservoir sampling of size one: pick a uniformly random element from a
//! finite sequence in a single forward pass, drawing one random integer per
//! element and keeping O(1) auxiliary state.
//!
//! The sampler is generic over a [`source::RandomSource`], whose ghost
//! `history` records every draw made, so the contracts account exactly for
//! how often the source is consulted, with which bounds, and which element
//! the draws select.

pub mod sampler;
pub mod source;
pub mod uniformity;
