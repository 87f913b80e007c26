//! Geometry, commands and planning helpers for a nanobot construction
//! simulator working on a cubic voxel grid.
pub mod grid;
pub mod model;
pub mod order;
pub mod point;
pub mod postproc;

pub use grid::{V2, V3};
pub use point::P;
pub mod xz;
pub mod bfs;
pub mod command;
pub use command::Command;
pub mod sim;
pub mod solve;
pub use order::{SetMax, SetMin};
pub mod support;
pub mod support_z;
pub use model::Model;
pub mod destruction;
pub mod scaffold;
pub mod layer;
pub mod transpose;
pub mod starts;
pub mod fusion;
pub mod rounds;
