pub mod vector3;
pub mod graph;
pub mod routing;
pub mod parsers;
pub mod strategy;
