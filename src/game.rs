//! A game session: the two vocabularies, the random source and the secret
//! word of the current round.
use crate::scoring::{score, statuses_of, LetterStatus, WORD_LEN};
use rand::rngs::ThreadRng;
use rand::Rng;
use vstd::prelude::*;

verus! {

#[verifier::external_type_specification]
#[verifier::external_body]
pub struct ExThreadRng(ThreadRng);

/// Relies on rand::thread_rng: it hands out a handle to the calling thread's
/// random generator, seeded by the system (it panics only where the system
/// gives no entropy at all). Nothing is promised of the numbers it yields.
pub assume_specification[ rand::thread_rng ]() -> ThreadRng;

/// Relies on rand's `Rng::gen_range`: on a non-empty range `0..n` it returns
/// a number of that range (it panics only on an empty range, which `requires`
/// leaves out, or where the system gives no entropy when the generator
/// reseeds). Nothing is promised of which number it is.
#[verifier::external_body]
fn draw_index(rng: &mut ThreadRng, n: usize) -> (r: usize)
    requires
        n > 0,
    ensures
        r < n,
{
    rng.gen_range(0..n)
}

/// The letters of each word of `words`.
pub open spec fn words_of(words: Seq<&str>) -> Seq<Seq<char>> {
    words.map_values(|w: &str| w@)
}

/// Every word of `words` has the fixed word length.
pub open spec fn all_fixed_length(words: Seq<&str>) -> bool {
    forall|i: int| 0 <= i < words.len() ==> #[trigger] words[i]@.len() == WORD_LEN
}

/// Whether `a` and `b` hold the same letters in the same order.
fn same_word(a: &str, b: &str) -> (r: bool)
    ensures
        r == (a@ == b@),
{
    let n = a.unicode_len();
    if n != b.unicode_len() {
        return false;
    }
    let mut i: usize = 0;
    while i < n
        invariant
            n == a@.len(),
            n == b@.len(),
            0 <= i <= n,
            forall|j: int| 0 <= j < i ==> a@[j] == b@[j],
        decreases n - i,
    {
        if a.get_char(i) != b.get_char(i) {
            return false;
        }
        i = i + 1;
    }
    proof {
        assert(a@ =~= b@);
    }
    true
}

/// Whether `word` is one of `words`.
fn contains_word(words: &[&str], word: &str) -> (r: bool)
    ensures
        r == words_of(words@).contains(word@),
{
    let mut i: usize = 0;
    while i < words.len()
        invariant
            0 <= i <= words@.len(),
            forall|j: int| 0 <= j < i ==> words@[j]@ != word@,
        decreases words@.len() - i,
    {
        if same_word(words[i], word) {
            proof {
                assert(words_of(words@)[i as int] == word@);
            }
            return true;
        }
        i = i + 1;
    }
    proof {
        if words_of(words@).contains(word@) {
            let j = choose|j: int| 0 <= j < words@.len() && words_of(words@)[j] == word@;
            assert(words@[j]@ == word@);
        }
    }
    false
}

/// A game session. It borrows the words that may be guessed and the words
/// that may be the answer, and holds the secret word of the current round,
/// which it never hands out.
#[derive(Debug)]
pub struct Wordle<'a> {
    /// The random source that picks each round's secret word.
    rand: ThreadRng,
    /// The words that may be guessed; a guess is looked up by a scan.
    guesses: &'a [&'a str],
    /// The words that may be chosen as the secret word.
    answers: &'a [&'a str],
    /// The secret word of the current round, once one has started.
    word: Option<&'a str>,
}

impl<'a> Wordle<'a> {
    /// The words that may be guessed.
    pub closed spec fn guess_words(&self) -> Seq<Seq<char>> {
        words_of(self.guesses@)
    }

    /// The words that may be chosen as the secret word.
    pub closed spec fn answer_words(&self) -> Seq<Seq<char>> {
        words_of(self.answers@)
    }

    /// The secret word of the current round, if a round has started.
    pub closed spec fn secret(&self) -> Option<Seq<char>> {
        match self.word {
            Some(w) => Some(w@),
            None => None,
        }
    }

    /// Both vocabularies are non-empty and hold words of the fixed length, and
    /// the secret word, once chosen, is one of the answers.
    pub open spec fn wf(&self) -> bool {
        &&& self.guess_words().len() > 0
        &&& self.answer_words().len() > 0
        &&& forall|i: int|
            0 <= i < self.guess_words().len() ==> #[trigger] self.guess_words()[i].len()
                == WORD_LEN
        &&& forall|i: int|
            0 <= i < self.answer_words().len() ==> #[trigger] self.answer_words()[i].len()
                == WORD_LEN
        &&& self.secret() is Some ==> self.answer_words().contains(self.secret()->0)
    }

    /// Starts a session over `guesses` and `answers`; no round has started yet.
    pub fn new(guesses: &'a [&str], answers: &'a [&str]) -> (r: Self)
        requires
            guesses@.len() > 0,
            answers@.len() > 0,
            all_fixed_length(guesses@),
            all_fixed_length(answers@),
        ensures
            r.wf(),
            r.guess_words() == words_of(guesses@),
            r.answer_words() == words_of(answers@),
            r.secret() is None,
    {
        Wordle { rand: rand::thread_rng(), guesses, answers, word: None }
    }

    /// Starts a new round whose secret word is drawn at random from the
    /// answers: the session's random source draws an index into them, and the
    /// round starts as `choose_word_at` starts it with that index.
    pub fn choose_word(&mut self)
        requires
            old(self).wf(),
        ensures
            final(self).wf(),
            final(self).guess_words() == old(self).guess_words(),
            final(self).answer_words() == old(self).answer_words(),
            exists|i: int|
                0 <= i < old(self).answer_words().len() && final(self).secret() == Some(
                    old(self).answer_words()[i],
                ),
    {
        let index = draw_index(&mut self.rand, self.answers.len());
        self.choose_word_at(index);
    }

    /// Starts a new round whose secret word is the answer at `index`.
    pub fn choose_word_at(&mut self, index: usize)
        requires
            old(self).wf(),
            index < old(self).answer_words().len(),
        ensures
            final(self).wf(),
            final(self).guess_words() == old(self).guess_words(),
            final(self).answer_words() == old(self).answer_words(),
            final(self).secret() == Some(old(self).answer_words()[index as int]),
    {
        self.word = Some(self.answers[index]);
        proof {
            assert(self.answer_words()[index as int] == self.answers@[index as int]@);
        }
    }

    /// Scores `word` against the secret word of the current round. A word
    /// that is not one of the allowed guesses, whatever its length or
    /// letters, is refused with `Err(())` and the round goes on.
    pub fn guess(&self, word: &str) -> (r: Result<[LetterStatus; WORD_LEN], ()>)
        requires
            self.wf(),
            self.secret() is Some,
        ensures
            r is Ok <==> self.guess_words().contains(word@),
            r matches Ok(statuses) ==> statuses@ == statuses_of(self.secret()->0, word@),
    {
        let answer = match self.word {
            Some(w) => w,
            None => {
                return Err(());
            },
        };
        if contains_word(self.guesses, word) {
            proof {
                let k = choose|k: int|
                    0 <= k < self.answer_words().len() && self.answer_words()[k] == answer@;
                assert(self.answer_words()[k].len() == WORD_LEN);
                let i = choose|i: int|
                    0 <= i < self.guess_words().len() && self.guess_words()[i] == word@;
                assert(self.guesses@[i]@.len() == WORD_LEN);
            }
            Ok(score(answer, word))
        } else {
            Err(())
        }
    }
}

} // verus!
