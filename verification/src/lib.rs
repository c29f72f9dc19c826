//! Verified rendering and selection logic of the Telos command-line views:
//! tree prefixes, proportional bars, ages, coverage trees, impact reports,
//! constraint graphs and timelines.

pub mod colors;
pub mod graph;
pub mod impact;
pub mod coverage;
pub mod model;
pub mod order;
pub mod paths;
pub mod render;
pub mod text;
pub mod time;
pub mod timeline;
