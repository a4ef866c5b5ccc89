//! Error-tolerant code completion for a small Python-like scripting language,
//! with the plain data types of the game that hosts it.
//!
//! Source text is parsed; where the parse fails, the line at which it failed is
//! removed and the parse retried ([`recovery`]). The recovered module is summarised
//! in a symbol table ([`symbols`]), which a query token is matched against
//! ([`complete`]).

pub mod complete;
pub mod components;
pub mod entries;
pub mod events;
pub mod lines;
pub mod recovery;
pub mod symbols;
pub mod syntax;
pub mod text;
