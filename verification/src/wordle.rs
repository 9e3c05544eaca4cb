//! A single game instance: the hidden word, the number of guesses spent so
//! far, and the graded history of every accepted guess.
//!
//! Grading is deliberately simple: a letter is `Green` when it matches the
//! hidden word at its own position, `Yellow` when the hidden word holds it at
//! some other position, and `Red` when the hidden word does not hold it at
//! all.  Repeated letters in a guess are not limited to the number of unmatched
//! occurrences in the hidden word.

use vstd::prelude::*;

verus! {

broadcast use vstd::seq::group_seq_axioms;

/// Required length of every hidden word and of every accepted guess.
pub const DEFAULT_SIZE: usize = 5;

/// Number of guesses a game instance grants before it ends.
pub const GUESSES: u32 = 6;

/// Per-letter grade of a guess against the hidden word.
#[derive(Clone, Copy, Debug, PartialEq, Eq, Structural)]
pub enum Verdict {
    Green,
    Yellow,
    Red,
}

/// One graded letter of a guess.
#[derive(Clone, Copy, Debug, PartialEq, Eq, Structural)]
pub struct Field {
    pub letter: char,
    pub square: Verdict,
}

/// Grade of position `i` of `guess` against the hidden word `word`.
pub open spec fn grade_verdict(word: Seq<char>, guess: Seq<char>, i: int) -> Verdict {
    if guess[i] == word[i] {
        Verdict::Green
    } else if word.contains(guess[i]) {
        Verdict::Yellow
    } else {
        Verdict::Red
    }
}

/// Position `i` of the graded row for `guess` against the hidden word `word`:
/// the guessed letter together with its grade.
pub open spec fn graded_field(word: Seq<char>, guess: Seq<char>, i: int) -> Field {
    Field { letter: guess[i], square: grade_verdict(word, guess, i) }
}

/// The full graded row for `guess` against the hidden word `word`.
pub open spec fn graded_row(word: Seq<char>, guess: Seq<char>) -> Seq<Field> {
    Seq::new(guess.len(), |i: int| graded_field(word, guess, i))
}

impl Field {
    pub fn new(letter: char, square: Verdict) -> (r: Field)
        ensures
            r == (Field { letter, square }),
    {
        Field { letter, square }
    }
}

/// A single instance of the game.
pub struct Wordle {
    /// The hidden word; fixed once the instance is created.
    pub word: String,
    /// Guesses spent so far.
    pub guesses: u32,
    /// Graded rows, one per accepted guess, oldest first.
    pub fields: Vec<Vec<Field>>,
    /// Handle of the latest outbound message that displayed this instance,
    /// used to correlate a later surrender signal back to the instance.
    pub last_message_id: Option<u64>,
}

impl Wordle {
    /// The graded history as a sequence of rows of graded letters.
    pub open spec fn history(&self) -> Seq<Seq<Field>> {
        Seq::new(self.fields@.len(), |i: int| self.fields@[i]@)
    }

    /// Well-formedness: the word has the required length, the guess budget is
    /// respected, and the history holds exactly one full-width row per guess.
    pub open spec fn wf(&self) -> bool {
        &&& self.word@.len() == DEFAULT_SIZE
        &&& self.guesses <= GUESSES
        &&& self.fields@.len() == self.guesses
        &&& forall|k: int|
            0 <= k < self.fields@.len() ==> (#[trigger] self.fields@[k])@.len() == DEFAULT_SIZE
    }

    pub fn new(word: String) -> (r: Wordle)
        ensures
            r.word == word,
            r.guesses == 0,
            r.fields@.len() == 0,
            r.last_message_id is None,
    {
        Wordle { word, guesses: 0, fields: Vec::new(), last_message_id: None }
    }

    /// Whether `guess` wins this instance: it equals the hidden word exactly.
    pub fn is_won(&self, guess: &String) -> (r: bool)
        ensures
            r == (guess@ == self.word@),
    {
        guess.eq(&self.word)
    }

    /// Whether this instance has spent its whole guess budget.
    pub fn is_exhausted(&self) -> (r: bool)
        ensures
            r == (self.guesses == GUESSES),
    {
        self.guesses == GUESSES
    }

    /// Grades `guess` letter by letter against the hidden word and appends the
    /// graded row to the history.  The guess count is not touched here; the
    /// registry advances it when it accepts a guess.
    pub fn add_fields(&mut self, guess: String)
        requires
            guess@.len() == old(self).word@.len(),
        ensures
            final(self).word == old(self).word,
            final(self).guesses == old(self).guesses,
            final(self).last_message_id == old(self).last_message_id,
            final(self).history() == old(self).history().push(
                graded_row(old(self).word@, guess@),
            ),
    {
        let ghost word_view = self.word@;
        let mut row: Vec<Field> = Vec::new();
        let n = guess.as_str().unicode_len();
        let mut pos: usize = 0;
        while pos < n
            invariant
                n == guess@.len(),
                guess@.len() == self.word@.len(),
                word_view == self.word@,
                self == old(self),
                pos <= n,
                row@ == graded_row(word_view, guess@).take(pos as int),
            decreases n - pos,
        {
            let c = guess.as_str().get_char(pos);
            let w = self.word.as_str().get_char(pos);
            let square = if c == w {
                Verdict::Green
            } else if self.word_contains(c) {
                Verdict::Yellow
            } else {
                Verdict::Red
            };
            row.push(Field::new(c, square));
            pos += 1;
            proof {
                assert(row@ =~= graded_row(word_view, guess@).take(pos as int));
            }
        }
        proof {
            assert(row@ =~= graded_row(word_view, guess@));
        }
        self.fields.push(row);
        proof {
            assert(self.history() =~= old(self).history().push(
                graded_row(old(self).word@, guess@),
            ));
        }
    }

    /// Read-only projection of the graded history for display: one row of
    /// graded letters per accepted guess, oldest first.
    pub fn render_state(&self) -> (r: &Vec<Vec<Field>>)
        ensures
            r@ == self.fields@,
    {
        &self.fields
    }

    /// Whether the hidden word holds the letter `c` at any position.
    fn word_contains(&self, c: char) -> (r: bool)
        ensures
            r == self.word@.contains(c),
    {
        let n = self.word.as_str().unicode_len();
        let mut j: usize = 0;
        while j < n
            invariant
                n == self.word@.len(),
                j <= n,
                forall|t: int| 0 <= t < j ==> self.word@[t] != c,
            decreases n - j,
        {
            if self.word.as_str().get_char(j) == c {
                proof {
                    assert(self.word@.contains(c));
                }
                return true;
            }
            j += 1;
        }
        false
    }
}

/// Grading correctness: in the graded row for `guess` against `word`, position
/// `i` keeps the guessed letter, and its grade is `Green` exactly when the
/// letter matches the word at that position, `Yellow` exactly when it does not
/// match there but occurs somewhere in the word, and `Red` exactly when the
/// word does not hold it at all.
pub proof fn lemma_grading_correctness(word: Seq<char>, guess: Seq<char>, i: int)
    requires
        word.len() == guess.len(),
        0 <= i < guess.len(),
    ensures
        graded_row(word, guess)[i].letter == guess[i],
        (graded_row(word, guess)[i].square == Verdict::Green) <==> (guess[i] == word[i]),
        (graded_row(word, guess)[i].square == Verdict::Yellow) <==> (guess[i] != word[i]
            && word.contains(guess[i])),
        (graded_row(word, guess)[i].square == Verdict::Red) <==> (guess[i] != word[i]
            && !word.contains(guess[i])),
{
}

} // verus!
