//! Names for the shapes of data that run through the tokenizer.
use vstd::prelude::*;

verus! {

/// The bytes a token stands for.
pub type TokenBytes = Vec<u8>;

/// A sequence of token ids.
pub type TokenIds = Vec<u16>;

/// A byte range `(start, end)` of some content.
pub type Span = (usize, usize);

/// The id of a token in a vocabulary.
pub type TokenId = u16;

/// Two token ids packed into one key: the first in the high half.
pub type PackedPair = u32;

} // verus!
