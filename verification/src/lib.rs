//! Inline tokens, code padding and font runs for inline rich text.
pub mod text;
pub mod ranges;
pub mod tokens;
pub mod token_laws;
pub mod edits;
pub mod padding;
pub mod runs;
pub mod selection;
