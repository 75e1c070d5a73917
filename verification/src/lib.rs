//! Product catalogue search: products indexed by id, brand, category and the
//! words of their names, with case-insensitive lookups and combined filters.
pub mod catalog;
pub mod demo;
pub mod key_index;
pub mod laws;
pub mod product;
pub mod text;

pub use catalog::Catalog;
pub use product::Product;
pub use text::{normalize, tokenize};
