//! A codec for the tagged binary tree format (NBT): a verified reader and
//! writer of its primitives, the recursive decoder and encoder over trees of
//! values, and the two root framings ("named root" and "anonymous root").

pub mod decode;
pub mod dialect;
pub mod encode;
pub mod error;
pub mod format;
pub mod laws;
mod proofs;
pub mod reader;
pub mod value;
pub mod writer;
pub mod wire;
