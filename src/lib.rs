//! Ordered sets whose order can be persisted.
//!
//! A [`Sequence`] keeps its elements in a total order given by position keys
//! ([`Pos`]), fractions that are never rewritten once assigned, so that a key can
//! always be made strictly between two neighbours. Each key splits losslessly into
//! two `u64`s, ready to be stored beside its element.

pub mod fraction;
pub mod laws;
pub mod node;
pub mod pos;
pub mod position;
pub mod sequence;
pub mod slots;

pub use node::Node;
pub use pos::Pos;
pub use position::{Max, Min, Position};
pub use sequence::Sequence;
