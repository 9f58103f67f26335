pub mod laws;
pub mod maze;
mod pick;
mod rng;

pub use maze::CellType;
pub use maze::GrowingTreeMaze;
