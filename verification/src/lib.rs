pub mod cell_graph;
pub mod counting;
pub mod generator;
pub mod navigator;
pub mod paths;
pub mod tile_grid;
