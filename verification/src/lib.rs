//! Pippin: a partitioned, content-addressed history of immutable states.
//!
//! A partition holds a set of elements, the states that this set went
//! through, and the commits that lead from one state to the next. States and
//! elements are identified by checksums; snapshots and commit logs are byte
//! strings whose layout is fixed by the functions of [`readwrite`].

pub mod text;
pub mod error;
pub mod wire;
pub mod sum;
pub mod ids;
pub mod idmap;
pub mod elt;
pub mod commit;
pub mod state;
pub mod patch;
pub mod patch_laws;
pub mod readwrite;
pub mod detail;
pub mod control;
pub mod merge;
