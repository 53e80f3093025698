//! One glyph for each letter status, for showing the result of a guess.
use crate::scoring::LetterStatus;
use vstd::prelude::*;

verus! {

/// The glyph of a letter in the secret word at the guessed position.
pub const GREEN_SQ: &'static str = "\u{1F7E9}";

/// The glyph of a letter in the secret word at another position.
pub const YELLOW_SQ: &'static str = "\u{1F7E8}";

/// The glyph of a letter not in the secret word.
pub const BLACK_SQ: &'static str = "\u{2B1B}";

/// The glyph that shows `status`.
pub fn status_to_str(status: &LetterStatus) -> (r: &'static str)
    ensures
        r == match *status {
            LetterStatus::Correct => GREEN_SQ,
            LetterStatus::InWord => YELLOW_SQ,
            LetterStatus::NotInWord => BLACK_SQ,
        },
{
    match status {
        LetterStatus::Correct => GREEN_SQ,
        LetterStatus::InWord => YELLOW_SQ,
        LetterStatus::NotInWord => BLACK_SQ,
    }
}

} // verus!
