pub mod chance;
pub mod matrix;
pub mod snake;
pub mod network;
pub mod agent;
pub mod population;
