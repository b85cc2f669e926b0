//! Page building for a game wiki: markup links, lookup tables and page metadata.
pub mod data;
pub mod lookup;
pub mod markup;
pub mod order;
pub mod text;
