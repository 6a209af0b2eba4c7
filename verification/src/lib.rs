pub mod components;
pub mod degree;
pub mod graph;
pub mod parse;
pub mod paths;
