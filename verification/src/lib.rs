//! A strict JSON parser that builds an owned value tree, with indexed read
//! and write access into that tree.
//!
//! - [`grammar`] says, as functions of the text, what the parser accepts
//!   and what each text denotes; [`parser`] holds the cursor and the
//!   recursive-descent parser, proved to compute exactly that.
//! - [`data`] holds the value tree and its model over sequences and maps;
//!   [`index`] reads and writes children by position or by key;
//!   [`equality`] is `==` on trees.
//! - [`number`], [`decimal`] and [`natural`] round a decimal numeral to the
//!   nearest double in exact integer arithmetic.
//! - [`laws`] states what holds of every text and of every value.

pub mod data;
pub mod decimal;
pub mod equality;
pub mod errors;
pub mod grammar;
pub mod index;
pub mod laws;
pub mod natural;
pub mod number;
pub mod parser;
