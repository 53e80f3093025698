//! Scoring of a guess against a secret word.
use std::collections::HashMap;
use vstd::prelude::*;

verus! {

broadcast use vstd::std_specs::hash::group_hash_axioms;

/// The length of every secret word and every guess.
pub const WORD_LEN: usize = 5;

/// What a guessed letter tells about the secret word.
#[derive(Debug, PartialEq, Eq, Structural, Clone, Copy)]
pub enum LetterStatus {
    /// The guessed letter is in the secret word at this very position.
    Correct,
    /// The guessed letter is in the secret word, at another position.
    InWord,
    /// The guessed letter is not in the secret word, or all of its occurrences
    /// there were already claimed by earlier positions of the guess.
    NotInWord,
}

/// The key under which a letter is counted.
pub open spec fn code(c: char) -> u32 {
    c as u32
}

proof fn lemma_code_injective(a: char, b: char)
    ensures
        a != b ==> code(a) != code(b),
{
}

/// The number of positions of `s` that hold `c`.
pub open spec fn occurrences(s: Seq<char>, c: char) -> nat
    decreases s.len(),
{
    if s.len() == 0 {
        0
    } else {
        occurrences(s.drop_last(), c) + if s.last() == c {
            1nat
        } else {
            0nat
        }
    }
}

/// `m` maps the key of each letter of `s`, and nothing else, to the number of
/// times that letter occurs in `s`.
pub open spec fn is_letter_count(s: Seq<char>, m: Map<u32, u8>) -> bool {
    &&& forall|c: char| #[trigger] m.contains_key(code(c)) <==> occurrences(s, c) > 0
    &&& forall|c: char| m.contains_key(code(c)) ==> #[trigger] m[code(c)] == occurrences(s, c)
    &&& forall|k: u32| #[trigger] m.contains_key(k) ==> exists|c: char| code(c) == k
}

/// The status of position `i` of `guess`: its letter claims one occurrence in
/// `secret` if the positions before it have not claimed them all already, and
/// the claim is `Correct` where `secret` holds that letter at `i`.
pub open spec fn status_at(secret: Seq<char>, guess: Seq<char>, i: int) -> LetterStatus {
    let c = guess[i];
    if occurrences(guess.take(i), c) < occurrences(secret, c) {
        if secret[i] == c {
            LetterStatus::Correct
        } else {
            LetterStatus::InWord
        }
    } else {
        LetterStatus::NotInWord
    }
}

/// The status of every position of `guess` scored against `secret`.
pub open spec fn statuses_of(secret: Seq<char>, guess: Seq<char>) -> Seq<LetterStatus> {
    Seq::new(guess.len(), |i: int| status_at(secret, guess, i))
}

/// A letter never occurs more often than the word is long.
pub proof fn lemma_occurrences_le_len(s: Seq<char>, c: char)
    ensures
        occurrences(s, c) <= s.len(),
    decreases s.len(),
{
    if s.len() > 0 {
        lemma_occurrences_le_len(s.drop_last(), c);
    }
}

proof fn lemma_occurrences_push(s: Seq<char>, x: char, c: char)
    ensures
        occurrences(s.push(x), c) == occurrences(s, c) + if x == c {
            1nat
        } else {
            0nat
        },
{
    assert(s.push(x).drop_last() =~= s);
}

proof fn lemma_take_next(s: Seq<char>, i: int)
    requires
        0 <= i < s.len(),
    ensures
        s.take(i + 1) == s.take(i).push(s[i]),
{
    assert(s.take(i + 1) =~= s.take(i).push(s[i]));
}

/// Counts the occurrences of each letter of `word`, keyed by the letter's code.
pub fn letter_count(word: &str) -> (r: HashMap<u32, u8>)
    requires
        word@.len() <= u8::MAX,
    ensures
        is_letter_count(word@, r@),
{
    let n = word.unicode_len();
    let mut counts: HashMap<u32, u8> = HashMap::new();
    let mut i: usize = 0;
    proof {
        assert(word@.take(0) =~= Seq::<char>::empty());
    }
    while i < n
        invariant
            n == word@.len(),
            n <= u8::MAX,
            0 <= i <= n,
            is_letter_count(word@.take(i as int), counts@),
        decreases n - i,
    {
        let letter = word.get_char(i);
        let key = letter as u32;
        let count: u8 = match counts.get(&key) {
            Some(v) => *v,
            None => 0,
        };
        let ghost prev = counts@;
        proof {
            assert(key == code(letter));
            assert(count == occurrences(word@.take(i as int), letter));
            lemma_occurrences_le_len(word@.take(i as int), letter);
            lemma_take_next(word@, i as int);
            assert forall|c: char| #[trigger]
                occurrences(word@.take(i + 1), c) == occurrences(word@.take(i as int), c) + if c
                    == letter {
                    1nat
                } else {
                    0nat
                } by {
                lemma_occurrences_push(word@.take(i as int), letter, c);
            }
        }
        counts.insert(key, count + 1);
        i = i + 1;
        proof {
            let s = word@.take(i as int);
            let m = counts@;
            assert(m == prev.insert(key, (count + 1) as u8));
            assert forall|c: char| #[trigger] m.contains_key(code(c)) <==> occurrences(s, c) > 0 by {
                assert(prev.contains_key(code(c)) <==> occurrences(word@.take(i - 1), c) > 0);
                if c != letter {
                    lemma_code_injective(c, letter);
                }
                assert(occurrences(s, c) == occurrences(word@.take(i - 1), c) + if c == letter {
                    1nat
                } else {
                    0nat
                });
            }
            assert forall|c: char| m.contains_key(code(c)) implies #[trigger] m[code(c)]
                == occurrences(s, c) by {
                if c != letter {
                    lemma_code_injective(c, letter);
                    assert(prev.contains_key(code(c)));
                }
                assert(occurrences(s, c) == occurrences(word@.take(i - 1), c) + if c == letter {
                    1nat
                } else {
                    0nat
                });
            }
            assert forall|k: u32| #[trigger] m.contains_key(k) implies exists|c: char|
                code(c) == k by {
                if k == key {
                    assert(code(letter) == k);
                }
            }
        }
    }
    proof {
        assert(word@.take(n as int) =~= word@);
    }
    counts
}

/// Scores one letter of a guess: `letter`, at position `idx` of the guess,
/// against `word`. `remaining` holds, by letter code, the occurrences of each
/// letter of `word` that earlier positions have not claimed yet; a letter that
/// finds one claims it.
pub fn check_letter(word: &str, letter: char, idx: usize, remaining: &mut HashMap<u32, u8>) -> (r:
    LetterStatus)
    requires
        idx < WORD_LEN,
        idx < word@.len(),
    ensures
        ({
            let k = code(letter);
            if old(remaining)@.contains_key(k) && old(remaining)@[k] > 0 {
                &&& final(remaining)@ == old(remaining)@.insert(k, (old(remaining)@[k] - 1) as u8)
                &&& r == if word@[idx as int] == letter {
                    LetterStatus::Correct
                } else {
                    LetterStatus::InWord
                }
            } else {
                &&& final(remaining)@ == old(remaining)@
                &&& r == LetterStatus::NotInWord
            }
        }),
{
    let key = letter as u32;
    match remaining.get(&key) {
        Some(count) => {
            let count: u8 = *count;
            if count == 0 {
                return LetterStatus::NotInWord;
            }
            remaining.insert(key, count - 1);
            if word.get_char(idx) == letter {
                LetterStatus::Correct
            } else {
                LetterStatus::InWord
            }
        },
        None => LetterStatus::NotInWord,
    }
}

/// The occurrences of `c` in `secret` that the positions of `prefix` have not
/// claimed.
pub open spec fn unclaimed(secret: Seq<char>, prefix: Seq<char>, c: char) -> nat {
    if occurrences(prefix, c) < occurrences(secret, c) {
        (occurrences(secret, c) - occurrences(prefix, c)) as nat
    } else {
        0
    }
}

/// `m` holds, under the key of each letter of `secret`, how many of its
/// occurrences the positions of `prefix` have left unclaimed.
spec fn tracks_unclaimed(secret: Seq<char>, prefix: Seq<char>, m: Map<u32, u8>) -> bool {
    &&& forall|c: char| #[trigger] m.contains_key(code(c)) <==> occurrences(secret, c) > 0
    &&& forall|c: char| m.contains_key(code(c)) ==> #[trigger] m[code(c)] == unclaimed(secret, prefix, c)
}

/// Scores `word` against the secret `answer`, position by position, from left
/// to right.
pub fn score(answer: &str, word: &str) -> (r: [LetterStatus; WORD_LEN])
    requires
        answer@.len() == WORD_LEN,
        word@.len() == WORD_LEN,
    ensures
        r@ == statuses_of(answer@, word@),
{
    let mut remaining = letter_count(answer);
    let mut statuses = [LetterStatus::NotInWord; WORD_LEN];
    let mut i: usize = 0;
    proof {
        assert(word@.take(0) =~= Seq::<char>::empty());
    }
    while i < WORD_LEN
        invariant
            answer@.len() == WORD_LEN,
            word@.len() == WORD_LEN,
            0 <= i <= WORD_LEN,
            tracks_unclaimed(answer@, word@.take(i as int), remaining@),
            forall|j: int| 0 <= j < i ==> statuses@[j] == status_at(answer@, word@, j),
        decreases WORD_LEN - i,
    {
        let letter = word.get_char(i);
        let ghost prev = remaining@;
        let status = check_letter(answer, letter, i, &mut remaining);
        statuses[i] = status;
        proof {
            let p = word@.take(i as int);
            lemma_take_next(word@, i as int);
            assert forall|c: char| #[trigger] remaining@.contains_key(code(c)) <==> occurrences(answer@, c) > 0 by {
                if c != letter {
                    lemma_code_injective(c, letter);
                }
            }
            assert forall|c: char| remaining@.contains_key(code(c)) implies #[trigger] remaining@[code(c)]
                == unclaimed(answer@, word@.take(i + 1), c) by {
                lemma_occurrences_push(p, letter, c);
                if c != letter {
                    lemma_code_injective(c, letter);
                    assert(prev.contains_key(code(c)));
                }
            }
        }
        i = i + 1;
    }
    proof {
        assert(statuses@ =~= statuses_of(answer@, word@));
    }
    statuses
}

/// The number of positions among the first `n` of `guess` that hold `c` and
/// that scoring against `secret` does not mark `NotInWord`.
pub open spec fn marked(secret: Seq<char>, guess: Seq<char>, c: char, n: nat) -> nat
    decreases n,
{
    if n == 0 {
        0
    } else {
        let i = n - 1;
        marked(secret, guess, c, i as nat) + if guess[i] == c && status_at(secret, guess, i)
            != LetterStatus::NotInWord {
            1nat
        } else {
            0nat
        }
    }
}

/// A prefix never holds a letter more often than the whole word.
pub proof fn lemma_occurrences_prefix(s: Seq<char>, k: int, c: char)
    requires
        0 <= k <= s.len(),
    ensures
        occurrences(s.take(k), c) <= occurrences(s, c),
    decreases s.len(),
{
    if k == s.len() {
        assert(s.take(k) =~= s);
    } else {
        assert(s.take(k) =~= s.drop_last().take(k));
        lemma_occurrences_prefix(s.drop_last(), k, c);
    }
}

/// A letter that no position of `s` holds does not occur in `s`.
pub proof fn lemma_occurrences_absent(s: Seq<char>, c: char)
    requires
        forall|j: int| 0 <= j < s.len() ==> s[j] != c,
    ensures
        occurrences(s, c) == 0,
    decreases s.len(),
{
    if s.len() > 0 {
        lemma_occurrences_absent(s.drop_last(), c);
    }
}

/// The first `n` positions of a guess mark as many occurrences of `c` as
/// they hold, up to the number of occurrences in the secret word.
proof fn lemma_marked_prefix(secret: Seq<char>, guess: Seq<char>, c: char, n: nat)
    requires
        n <= guess.len(),
    ensures
        marked(secret, guess, c, n) == if occurrences(guess.take(n as int), c) < occurrences(
            secret,
            c,
        ) {
            occurrences(guess.take(n as int), c)
        } else {
            occurrences(secret, c)
        },
    decreases n,
{
    if n == 0 {
        assert(guess.take(0) =~= Seq::<char>::empty());
    } else {
        let i = n - 1;
        lemma_marked_prefix(secret, guess, c, i as nat);
        lemma_take_next(guess, i);
        lemma_occurrences_push(guess.take(i), guess[i], c);
    }
}

/// However a guess is made, the positions marked `Correct` or `InWord` that
/// hold a letter are never more than that letter's occurrences in the secret.
pub proof fn lemma_marks_bounded_by_secret(secret: Seq<char>, guess: Seq<char>, c: char)
    requires
        guess.len() == secret.len(),
    ensures
        marked(secret, guess, c, guess.len()) <= occurrences(secret, c),
{
    lemma_marked_prefix(secret, guess, c, guess.len());
}

/// A guess equal to the secret word is `Correct` at every position.
pub proof fn lemma_exact_guess_all_correct(secret: Seq<char>)
    ensures
        forall|i: int|
            0 <= i < secret.len() ==> #[trigger] statuses_of(secret, secret)[i]
                == LetterStatus::Correct,
{
    assert forall|i: int| 0 <= i < secret.len() implies #[trigger] statuses_of(secret, secret)[i]
        == LetterStatus::Correct by {
        lemma_take_next(secret, i);
        lemma_occurrences_push(secret.take(i), secret[i], secret[i]);
        lemma_occurrences_prefix(secret, i + 1, secret[i]);
    }
}

/// A guess that shares no letter with the secret word is `NotInWord` at every
/// position.
pub proof fn lemma_disjoint_guess_all_absent(secret: Seq<char>, guess: Seq<char>)
    requires
        forall|i: int, j: int| 0 <= i < guess.len() && 0 <= j < secret.len() ==> guess[i] != secret[j],
    ensures
        forall|i: int|
            0 <= i < guess.len() ==> #[trigger] statuses_of(secret, guess)[i]
                == LetterStatus::NotInWord,
{
    assert forall|i: int| 0 <= i < guess.len() implies #[trigger] statuses_of(secret, guess)[i]
        == LetterStatus::NotInWord by {
        lemma_occurrences_absent(secret, guess[i]);
    }
}

/// Scoring depends on positions, not only on which letters a guess holds: the
/// secret word itself and its reversal, which hold the same letters, score
/// differently unless the word reads the same both ways.
pub proof fn lemma_order_matters(secret: Seq<char>)
    requires
        secret.reverse() != secret,
    ensures
        statuses_of(secret, secret) != statuses_of(secret, secret.reverse()),
{
    let r = secret.reverse();
    assert(r.len() == secret.len());
    if forall|i: int| 0 <= i < secret.len() ==> r[i] == secret[i] {
        assert(r =~= secret);
    }
    let i = choose|i: int| 0 <= i < secret.len() && r[i] != secret[i];
    lemma_exact_guess_all_correct(secret);
    assert(statuses_of(secret, secret)[i] == LetterStatus::Correct);
    assert(statuses_of(secret, r)[i] != LetterStatus::Correct);
}

/// Scoring is a function of the two words alone: the same secret word and the
/// same guess always give the same statuses.
pub proof fn lemma_score_deterministic(
    secret1: Seq<char>,
    guess1: Seq<char>,
    secret2: Seq<char>,
    guess2: Seq<char>,
)
    requires
        secret1 == secret2,
        guess1 == guess2,
    ensures
        statuses_of(secret1, guess1) == statuses_of(secret2, guess2),
{
}

} // verus!
