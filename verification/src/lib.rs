//! NEPO (Open Roberta) block rendering for Blockst.
//!
//! Deliberately a second plugin rather than a second mode of the Scratch one.
//! The two dialects share nothing at the geometry level — different notches,
//! different corner radii, different idea of what a block is made of.
pub mod textutil;
pub mod model;
pub mod theme;
pub mod svg;
pub mod measure;
pub mod matrix;
pub mod render;
pub mod catalog;
pub mod builtin;
pub mod parser;
pub mod variables;
pub mod debug;
pub mod protocol;
