//! A scanner for command templates: literal characters and brace directives.
pub mod tokenizer;
