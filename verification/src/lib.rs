//! Tile/adjacency model builder and constraint-propagation solver in the
//! Wave Function Collapse family: extract the distinct tiles of a sample
//! grid together with their occurrence counts, build a directional
//! compatibility relation between tile identifiers, and collapse an output
//! grid of candidate sets into a single concrete assignment by a worklist
//! based arc-consistency loop.

pub mod adjacency_builder;
pub mod adjacency_rules;
pub mod cell_state;
pub mod color;
pub mod color_type;
pub mod direction;
pub mod error;
pub mod grid;
pub mod helpers;
pub mod image;
pub mod mode;
pub mod model;
pub mod parse_method;
pub mod rng;
pub mod tile;
pub mod types;
pub mod unique_stack;
pub mod vector2;
pub mod wave_function;
pub mod wave_info;
