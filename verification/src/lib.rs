//! Split sampling: cut aligned columns of text units into named sets by
//! random draws, optionally dropping units that occur in reference texts.

pub mod error;
pub mod views;
pub mod random;
pub mod sizes;
pub mod assign;
pub mod text;
pub mod segment;
pub mod exclude;
pub mod emit;
pub mod data;
pub mod options;
pub mod roundtrip;
pub mod pipeline;
