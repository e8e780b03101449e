//! The strategy kernel of Kvadrat, a falling-block word game.
//!
//! Tetrominos carry four letters; words that cross pieces score when their line is
//! cleared. The kernel knows the field (`board`, `pieces`, `placement`), the words
//! (`lexicon`, `words`), what a board is worth (`binary64`, `float64`, `evaluation`)
//! and how to look ahead (`ranking`, `search`, `rerank`, `roots`, `pool`). `native`
//! and `abi` are its two faces. The other modules play whole games with it and keep
//! what they teach.

pub mod abi;
pub mod archive;
pub mod bags;
pub mod binary64;
pub mod board;
pub mod bytes;
pub mod clock;
pub mod compare;
pub mod corpus;
pub mod counterfactual;
pub mod digest;
pub mod episode;
pub mod evaluation;
pub mod features;
pub mod float64;
pub mod fragments;
pub mod game;
pub mod laws;
pub mod lexicon;
pub mod models;
pub mod native;
pub mod options;
pub mod pieces;
pub mod placement;
pub mod pool;
pub mod random;
pub mod ranking;
pub mod records;
pub mod rerank;
pub mod rollout;
pub mod roots;
pub mod search;
pub mod selection;
pub mod source;
pub mod statistics;
pub mod text;
pub mod trials;
pub mod words;
