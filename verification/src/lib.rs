//! Pronounceable passwords from a variable-order Markov chain, with the exact
//! odds of every draw that went into them.
//!
//! A [`Generator`] is trained on a corpus of words: the corpus is distilled
//! into a [`TransitionMatrix`] that counts how often each context was
//! followed by each outcome, and the matrix becomes a [`JumpTable`] that
//! holds a [`Distribution`] for each context. The generator then reads a
//! pattern and draws tokens from the table, falling back to shorter contexts
//! where a longer one was never seen. Beside each password it hands back an
//! [`Entropy`]: the [`Odds`] of every random choice made.
//!
//! In a pattern
//!
//! - `c` is a token of the chain, `C` one with a capital,
//! - `w` is a word of the chain, `W` one with a capital,
//! - `s` is a symbol and `d` a digit,
//! - `\` makes the next char stand for itself,
//! - any other char stands for itself.
//!
//! What a pattern generates is a function of the table and of the numbers
//! drawn, which [`engine`] defines; [`laws`] holds what follows from it.

pub mod assoc;
pub mod distribution;
pub mod engine;
pub mod generator;
pub mod jump_table;
pub mod laws;
pub mod matrix;
pub mod odds;
pub mod pattern;
pub mod random;
pub mod text;
pub mod transitions;
pub mod word_list;

pub use distribution::Distribution;
pub use generator::Generator;
pub use jump_table::JumpTable;
pub use matrix::TransitionMatrix;
pub use odds::Entropy;
pub use odds::Odds;
