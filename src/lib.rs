pub mod agents;
pub mod astar;
pub mod env;
pub mod game;
pub mod grid;
pub mod notation;
pub mod render;
pub mod request;
