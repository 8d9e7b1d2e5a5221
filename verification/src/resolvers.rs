//! Ready-made annotation passes built on the engine.

pub(crate) mod text_match;

pub use text_match::TextMatchAssignResolver;
