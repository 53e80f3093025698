//! A word-guessing game engine: scores guesses letter by letter against a
//! secret word, with exact accounting of repeated letters.
pub mod game;
pub mod glyphs;
pub mod scoring;

pub use game::Wordle;
pub use glyphs::status_to_str;
pub use scoring::{check_letter, letter_count, score, LetterStatus, WORD_LEN};
