//! The core of a collaborative 2D design tool: the document tree with
//! fractional sibling ordering, and the sync engine that applies the
//! collaboration protocol's messages to it.

pub mod codec;
pub mod document;
pub mod hex;
pub mod ids;
pub mod multiplayer;
pub mod node;
pub mod order_key;
pub mod properties;
pub mod text;
pub mod tree;
