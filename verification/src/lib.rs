//! A byte-pair-merge style subword vocabulary builder with the trie-based
//! encoder/decoder it produces, plus a data-parallel builder for
//! multi-document corpora.
//!
//! Symbols are plain `u32` values (character code points, bytes, or any other
//! discrete alphabet). Token ids are dense `usize` indices assigned in
//! registration order.

use vstd::prelude::*;

pub mod builder;
pub mod laws;
pub mod model;
pub mod node;
pub mod tokenizer;
pub mod with_rayon;

pub use builder::generate;
pub use node::Node;
pub use tokenizer::Tokenizer;
pub use with_rayon::parallel_generate_with_base_vocabulary;

verus! {

/// The ways a build, encode, or decode operation can fail. All three are
/// reported as hard errors instead of aborting the process, so callers can
/// tell the conditions apart.
#[derive(Clone, Copy, Debug, PartialEq, Eq, Structural)]
pub enum TokenizerError {
    /// The target vocabulary size cannot be reached: the corpus is empty or
    /// offers no further unregistered adjacent span to merge.
    UnreachableTarget,
    /// An input symbol to encode has no entry in the trained trie.
    UnknownSymbol,
    /// A decode input id has no entry in the lookup table.
    UnknownTokenId,
}

} // verus!
