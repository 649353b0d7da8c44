//! The partition and what it is made of.

pub mod index;
pub mod graph;
pub mod asking;
pub mod part;
pub mod writing;
pub mod merging;
pub mod laws;
pub mod ancestry;
pub mod replay;
pub mod loading;
pub mod file_laws;
