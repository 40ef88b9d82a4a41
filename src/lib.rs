pub mod bucket;
pub mod bucket_puzzle;
pub mod iterative_deepening_solver;

pub use bucket::{Bucket, BucketError};
pub use bucket_puzzle::{BucketPuzzle, Move, Rules};
pub use iterative_deepening_solver::IterativeDeepeningSolver;
