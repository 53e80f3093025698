use wordle::glyphs::{BLACK_SQ, GREEN_SQ, YELLOW_SQ};
use wordle::{status_to_str, LetterStatus, Wordle};

use LetterStatus::{Correct, InWord, NotInWord};

const GUESSES: [&str; 6] = ["abcde", "abacd", "axbcd", "xbcaa", "klmno", "aabcd"];
const ANSWERS: [&str; 3] = ["abcde", "aabcd", "klmno"];

#[test]
fn guess_scores_against_chosen_word() {
    let mut game = Wordle::new(&GUESSES, &ANSWERS);
    game.choose_word_at(1);
    assert_eq!(
        game.guess("abacd"),
        Ok([Correct, InWord, InWord, Correct, Correct])
    );
    assert_eq!(
        game.guess("axbcd"),
        Ok([Correct, NotInWord, Correct, Correct, Correct])
    );
    game.choose_word_at(0);
    assert_eq!(game.guess("abcde"), Ok([Correct; 5]));
    assert_eq!(
        game.guess("xbcaa"),
        Ok([NotInWord, Correct, Correct, InWord, NotInWord])
    );
}

#[test]
fn unknown_guess_is_refused_and_round_goes_on() {
    let mut game = Wordle::new(&GUESSES, &ANSWERS);
    game.choose_word_at(1);
    assert_eq!(game.guess("zzzzz"), Err(()));
    assert_eq!(game.guess("aabcd"), Ok([Correct; 5]));
}

#[test]
fn malformed_guess_is_refused() {
    let mut game = Wordle::new(&GUESSES, &ANSWERS);
    game.choose_word_at(0);
    assert_eq!(game.guess(""), Err(()));
    assert_eq!(game.guess("abcd"), Err(()));
    assert_eq!(game.guess("abcdef"), Err(()));
    assert_eq!(game.guess("ab de"), Err(()));
    assert_eq!(game.guess("ABCDE"), Err(()));
}

#[test]
fn random_round_picks_one_of_the_answers() {
    let mut game = Wordle::new(&GUESSES, &ANSWERS);
    for _ in 0..20 {
        game.choose_word();
        let solved = ANSWERS
            .iter()
            .filter(|w| game.guess(w) == Ok([Correct; 5]))
            .count();
        assert_eq!(solved, 1);
    }
}

#[test]
fn random_round_with_single_answer() {
    let answers = ["klmno"];
    let mut game = Wordle::new(&GUESSES, &answers);
    game.choose_word();
    assert_eq!(game.guess("klmno"), Ok([Correct; 5]));
    assert_eq!(game.guess("abcde"), Ok([NotInWord; 5]));
}

#[test]
fn each_status_has_its_glyph() {
    assert_eq!(status_to_str(&Correct), GREEN_SQ);
    assert_eq!(status_to_str(&InWord), YELLOW_SQ);
    assert_eq!(status_to_str(&NotInWord), BLACK_SQ);
    assert_eq!(GREEN_SQ, "\u{1F7E9}");
    assert_eq!(YELLOW_SQ, "\u{1F7E8}");
    assert_eq!(BLACK_SQ, "\u{2B1B}");
}
