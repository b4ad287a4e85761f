//! A quiz runner's core: parsing tabular question rows into a typed model
//! and driving a session over them — navigation, shuffling, answer
//! recording, and scoring.
pub mod config;
pub mod perm;
pub mod quiz;
pub mod strings;
