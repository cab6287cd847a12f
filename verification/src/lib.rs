//! A library for authoring and visualizing braid words.
//!
//! A braid word is a sequence of signed strand-crossing generators over a
//! fixed number of strands. The library holds the data model with its
//! invariants, a textual parser and serializer for the persisted file
//! format, mutation operations, and a diagram layout engine that turns a
//! braid word into drawing primitives on an integer grid.
#![verifier::loop_isolation(false)]

pub mod braid;
pub mod codec;
pub mod digits;
pub mod layout;
pub mod text;
