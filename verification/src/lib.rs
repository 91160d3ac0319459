//! A term-frequency index over a collection of documents.
//!
//! Text is cut into tokens (`lexer`), each token is brought to its canonical term
//! (`normalize`), the terms of one document are counted into a table (`frequency`,
//! `table`), and the tables of all documents stand in one index under the keys of
//! their documents (`index`, `builder`). `extract` takes the text out of a markup
//! document, and `persist` writes the index as one JSON text and reads it back.
pub mod assoc;
pub mod builder;
pub mod classify;
pub mod extract;
pub mod frequency;
pub mod index;
pub mod lexer;
pub mod normalize;
pub mod persist;
pub mod table;
