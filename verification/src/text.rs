//! Text: the inline text options and the font registry.
pub mod inline;
pub mod registry;
