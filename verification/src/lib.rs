//! A verified toolbox of small data structures and text utilities.
//!
//! The centrepiece is `collections::lru_cache`, a fixed-capacity
//! least-recently-used cache built from a hash index and a doubly linked
//! node arena, specified and proved against a sequence model of its entries.
//! Around it stand self-contained helpers: binary search, a trie, a
//! union-find structure, stack and queue wrappers, a quote-aware string
//! splitter, parsing rules for a git-history viewer, and the encoding and
//! detection logic of a clipboard tool.

pub mod algow;
pub mod clipboard;
pub mod cmd;
pub mod collections;
pub mod common;
pub mod history;
pub mod strw;
