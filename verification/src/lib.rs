//! Parsing helpers for the expression syntax of garden configuration files:
//! recognising `$ exec`, `:garden`, `%group`, `@tree` and `graft::value`
//! expressions, stripping their prefixes and splitting strings on a separator.
pub mod syntax;
pub mod text;
