//! Factories on a grid: the world they are laid out in, the rules they flow by,
//! the lessons they are generated from and the ways they are drawn and exported.

pub mod world;
pub mod sim;
pub mod text;
pub mod factory_gen;
pub mod random;
pub mod throughput;
pub mod textual;
pub mod viewer;
pub mod blueprint;
pub mod best_of_n;
pub mod data;
pub mod sample;
pub mod metrics;
pub mod train;
pub mod serve;
pub mod observability;
pub mod task_space;
