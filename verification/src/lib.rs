pub mod maze;
pub mod solver;
