//! Coding of unordered edge sets with edge orbits and bits back.

pub mod autoregressive;
pub mod candidates;
pub mod codec;
pub mod color_refinement;
pub mod counting;
pub mod edge_orbit;
pub mod edge_prefix;
pub mod edge_signature;
pub mod graph;
pub mod message;
pub mod permutable;
pub mod prefix_orbit;
pub mod relabeling;
pub mod removal_model;
pub mod slice_codecs;
