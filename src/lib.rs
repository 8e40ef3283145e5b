//! A single-pass XML skimmer: it tokenizes XML-like text, keeps the stack of
//! open elements, and reports every opened or self-closed element that a
//! CSS-style selector group matches.
pub mod node;
pub mod selector;
pub mod skim;
pub mod text;
pub mod wellformed;

pub use node::{Attr, ParsedNode};
pub use skim::{Dispatch, SkimError};
