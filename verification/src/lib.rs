//! Map data storage for OpenStreetMap-like objects (nodes, ways, areas and
//! relations with consistent back-references) and a parser for MapCSS style
//! sheets together with selector matching over the stored map data.

pub mod ids;
pub mod object;
pub mod tags;
pub mod location;
pub mod span;
pub mod node;
mod seqs;
pub mod way;
pub mod area;
pub mod relation;
pub mod slots;
pub mod storage;
pub mod error;
pub mod css;
pub mod selector;
pub mod stylesheet;
