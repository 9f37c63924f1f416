use vstd::prelude::*;

verus! {

/// Why a buffer could not be decoded or a tree could not be encoded.
#[derive(Debug, Clone, Copy, PartialEq, Eq, Structural)]
pub enum Error {
    /// A read would have gone past the end of the buffer; `offset` is where
    /// the field that could not be read starts.
    UnexpectedEndOfInput { offset: usize },
    /// The `len` bytes of a string that start at `offset` are not UTF-8.
    InvalidUtf8 { offset: usize, len: usize },
    /// The byte at `offset` should have been a tag and is not one.
    InvalidTag { tag: u8, offset: usize },
    /// The document's root is not a compound; `tag` is the root's tag.
    RootNotCompound { tag: u8 },
    /// While encoding, element `index` of a list has tag `found` where the
    /// list's first element has tag `expected`.
    HeterogeneousList { expected: u8, found: u8, index: usize },
    /// The signed element count at `offset` is negative.
    NegativeLength { length: i32, offset: usize },
    /// A list or compound is nested deeper than the decoder's depth limit;
    /// `offset` is where its payload starts, or the root's tag for the root.
    TooDeep { offset: usize },
}

} // verus!
