//! A minimal reader for `.secret` configuration files: text of `KEY=VALUE`
//! lines is parsed once into an immutable store, and values are then looked
//! up by key. Lines without a delimiter are skipped, whitespace around keys
//! and values is trimmed, and a later line with a duplicate key overwrites
//! the earlier one.

pub mod model;
pub mod parse;
pub mod store;

pub use parse::separate_values_by_eq;
pub use store::Secret;
pub use store::SecretError;
