//! Decoder for a self-describing, length-prefixed text format of strings,
//! integers, doubles, booleans, null, arrays and objects.
//!
//! `grammar` states the format over the bytes of the input, `php` holds the
//! recognizers, which are proved to compute exactly what the grammar says,
//! and `laws` holds what follows from the grammar for every input. `render`
//! gives a decoded value its readable form, `stream` decodes values that
//! follow one another, and `lex` holds the lexical primitives.
//!
//! Decoding recurses once for each level of nesting in the input and sets
//! no bound to it.

pub mod grammar;
pub mod laws;
pub mod lex;
pub mod php;
pub mod render;
pub mod stream;
pub mod util;
