//! What is proved of the library as a whole: that the optimizer keeps what
//! a program does, and what else holds of parser, optimizer and bounds.

pub mod equivalence;
pub mod merging;
pub mod fixed_point;
pub mod round_trip;
pub mod zeroing;
pub mod tracking;
pub mod clobber;
pub mod sorting;
pub mod multiplying;
pub mod optimizer;
pub mod reach;
pub mod shape;
pub mod interpretation;
pub mod well_formed;
pub mod bounded_run;
