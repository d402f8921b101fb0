//! A hierarchical menu tree with a verified post-order traversal, and a small
//! builder that assembles display text from optional labelled fields.
pub mod menu_item;
pub mod string_builder;

pub use menu_item::{Item, MenuItem};
pub use string_builder::StringBuilder;
