//! What holds of the operations on a tree, proved from what they compute.

pub mod bits;
pub mod branching;
pub mod counting;
pub mod depth;
pub mod duplicates;
pub mod frames;
pub mod grafting;
pub mod keeping;
pub mod planting;
pub mod reading;
pub mod removal;
pub mod retention;
pub mod round_trip;
pub mod sharing;
pub mod success;
pub mod survival;
pub mod written;
