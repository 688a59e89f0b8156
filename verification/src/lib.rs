//! Word-granular regrouping of character-granular edit scripts.
//!
//! Given an ordered sequence of Equal/Delete/Insert chunks describing a
//! character-level edit from a text A to a text B, this library rebuilds both
//! texts, segments each into alternating word and separator runs, and merges
//! the two word streams into a single word-level edit script whose runs are
//! aligned to whole words.

pub mod chunks;
pub mod consolidate;
pub mod pipeline;
pub mod reconstruct;
pub mod resequence;
pub mod segment;

pub use chunks::InputChunk;
pub use chunks::OutputChunk;
pub use consolidate::consolidate_chunks;
pub use pipeline::wordify;
pub use pipeline::wordify_diff;
pub use reconstruct::AnnotatedString;
pub use reconstruct::Annotation;
pub use reconstruct::reconstruct_a;
pub use reconstruct::reconstruct_b;
pub use resequence::resequence;
pub use segment::AnnotatedWord;
pub use segment::WordCategory;
