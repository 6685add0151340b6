//! Sentence segmentation for CJK text.
//!
//! A [`SentenceTokenizer`] splits a document at an end-of-sentence character,
//! except where that character stands inside a pair of delimiters such as
//! quotation marks or parentheses.
use vstd::prelude::*;

pub mod builder;
pub mod char_table;
pub mod config;
pub mod nesting;
pub mod scan;
pub mod text;
pub mod tokenizer;

pub use builder::SentenceTokenizerBuilder;
pub use char_table::CharTable;
pub use tokenizer::SentenceTokenizer;

verus! {

/// What a character means to the scanner.
#[derive(Clone, Copy, Debug, PartialEq, Eq, Structural)]
pub enum ControlFlow {
    /// The end-of-sentence marker.
    Eos,
    /// `\n` or `\r`.
    LineBreaks,
    /// The closing character of the delimiter pair with this index.
    RightParens(usize),
    /// The opening character of the delimiter pair with this index.
    LeftParens(usize),
}

} // verus!
