//! A solver's engine for a five-letter word-guessing game.
//!
//! A round of the game reports, for each letter of a guess, whether it stands
//! at its place in the hidden word (green), occurs elsewhere in it (yellow) or
//! does not occur (black). The engine turns such a report into requirements,
//! tells which candidate words meet them, and ranks candidates by how much a
//! guess of each is expected to reveal.
//!
//! A letter is one user-perceived character, an extended grapheme cluster, so
//! that an accented letter made of several code points counts once. What
//! the clusters of a text are is left to the `unicode-segmentation` crate;
//! the contracts call them `grapheme_clusters`. The functions that judge or
//! score a word exist a second time, under the same name with `_graphemes`
//! appended, for letters already split: there every result can be read off
//! the contract.

pub mod letters;
pub mod matching;
pub mod order;
pub mod pool;
pub mod rank;
pub mod requirement;
pub mod score;
pub mod session;
