//! Reading of libtcod-style configuration files.
//!
//! The text is made of blocks, `type "name" { ... }`, holding `key = value`
//! fields, nested blocks, bracketed lists and runs of blocks of one type.
//!
//! - [`lexer`] classifies the lexemes of the text, skipping blanks and
//!   (nested) comments.
//! - [`number`] reads digit strings.
//! - [`de`] is the decoder: a cursor over the lexemes with one step for each
//!   kind of value, and the access types that read lists and blocks element by
//!   element.
//! - [`decode`] drives those steps from a description of the wanted value.
//! - [`transparency`] shows that comments do not change the lexemes.
pub mod lexer;
pub mod number;
pub mod de;
pub mod decode;
pub mod transparency;
