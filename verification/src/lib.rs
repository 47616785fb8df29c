//! Core data models and rules for diagrammatic city metro topology and
//! schematic maps.

pub mod fold;
pub mod text;
pub mod names;
pub mod float_bits;
pub mod topology;
pub mod topology_validation;
pub mod render;
pub mod schematic;
pub mod schematic_validation;
pub mod schematic_render;
pub mod manifest_format;
pub mod topology_render;
pub mod cli;
