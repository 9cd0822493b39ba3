//! Pictographic pattern matching: a color-coded definition picture is compiled
//! into a state graph, and the graph is matched against target pictures.

pub mod compiler;
pub mod fsm;
pub mod laws;
pub mod matcher;
pub mod paths;
pub mod picture;
pub mod point;
pub mod raster;
pub mod search;
pub mod self_match;
pub mod stride;
pub mod table;
pub mod tokenizer;
pub mod walk;
pub mod walk_laws;
