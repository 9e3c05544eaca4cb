//! The lexicon: the set of words a guess may be drawn from, and the source of
//! every hidden word.
//!
//! The list itself comes from an outside source fetched once at startup; this
//! module receives it as plain values, keeps only entries of the required
//! shape, and substitutes a one-word degraded lexicon when nothing usable is
//! left, so the rest of the engine always sees a non-empty list of
//! fixed-length uppercase words.

use vstd::prelude::*;

use crate::wordle::DEFAULT_SIZE;

verus! {

broadcast use vstd::seq::group_seq_axioms;

/// Whether `c` is an ASCII lowercase letter.
pub open spec fn is_lower(c: char) -> bool {
    97 <= c as u32 <= 122
}

/// Whether `c` is an ASCII uppercase letter.
pub open spec fn is_upper_alpha(c: char) -> bool {
    65 <= c as u32 <= 90
}

/// `c` with an ASCII lowercase letter mapped to its uppercase form; any other
/// character is left alone.
pub open spec fn upper_char(c: char) -> char {
    if is_lower(c) {
        ((c as u32 - 32) as u8) as char
    } else {
        c
    }
}

/// `s` uppercased character by character.
pub open spec fn upper_seq(s: Seq<char>) -> Seq<char> {
    Seq::new(s.len(), |i: int| upper_char(s[i]))
}

/// A word of the required shape: exactly `DEFAULT_SIZE` uppercase letters.
pub open spec fn valid_word(w: Seq<char>) -> bool {
    &&& w.len() == DEFAULT_SIZE
    &&& forall|i: int| 0 <= i < w.len() ==> is_upper_alpha(#[trigger] w[i])
}

/// A single guessable word.
#[verifier::ext_equal]
pub struct Word {
    pub word: String,
}

/// All words available to guess.
pub struct Words {
    pub words: Vec<Word>,
}

/// Whether the list `ws` holds the word `w`.
pub open spec fn contains_word(ws: Seq<Word>, w: Seq<char>) -> bool {
    exists|i: int| 0 <= i < ws.len() && (#[trigger] ws[i]).word@ == w
}

/// The entries of `ws` whose words have the required shape, in order.
pub open spec fn valid_entries(ws: Seq<Word>) -> Seq<Word>
    decreases ws.len(),
{
    if ws.len() == 0 {
        Seq::empty()
    } else {
        let rest = valid_entries(ws.drop_last());
        if valid_word(ws.last().word@) {
            rest.push(ws.last())
        } else {
            rest
        }
    }
}

/// Relies on `bracket_random`'s `RandomNumberGenerator::range`, which
/// returns a value drawn from `min..max`: inclusive of `min`, exclusive of
/// `max`, so with a positive bound the result is a valid index below it.
#[verifier::external_body]
fn random_below(bound: usize) -> (r: usize)
    requires
        bound > 0,
    ensures
        r < bound,
{
    let mut rng = bracket_random::prelude::RandomNumberGenerator::new();
    rng.range(0, bound)
}

/// Relies on `String::push`: appends one character at the end of the string.
#[verifier::external_body]
fn string_push(s: &mut String, c: char)
    ensures
        final(s)@ == old(s)@.push(c),
{
    s.push(c);
}

/// `s` uppercased character by character, ASCII letters only; other
/// characters pass through unchanged.
pub fn uppercase_ascii(s: &str) -> (r: String)
    ensures
        r@ == upper_seq(s@),
{
    let n = s.unicode_len();
    let mut out = String::new();
    let mut i: usize = 0;
    while i < n
        invariant
            n == s@.len(),
            i <= n,
            out@ == upper_seq(s@).take(i as int),
        decreases n - i,
    {
        let c = s.get_char(i);
        let u = c as u32;
        let up = if 97 <= u && u <= 122 {
            ((u - 32) as u8) as char
        } else {
            c
        };
        string_push(&mut out, up);
        i += 1;
        proof {
            assert(out@ =~= upper_seq(s@).take(i as int));
        }
    }
    proof {
        assert(out@ =~= upper_seq(s@));
    }
    out
}

/// Whether `w` consists of exactly `DEFAULT_SIZE` uppercase letters.
pub fn is_valid_shape(w: &String) -> (r: bool)
    ensures
        r == valid_word(w@),
{
    let n = w.as_str().unicode_len();
    if n != DEFAULT_SIZE {
        return false;
    }
    let mut i: usize = 0;
    while i < n
        invariant
            n == w@.len(),
            i <= n,
            forall|t: int| 0 <= t < i ==> is_upper_alpha(#[trigger] w@[t]),
        decreases n - i,
    {
        let u = w.as_str().get_char(i) as u32;
        if !(65 <= u && u <= 90) {
            return false;
        }
        i += 1;
    }
    true
}

impl Word {
    /// A copy of this entry holding an equal word.
    pub fn clone_word(&self) -> (r: Word)
        ensures
            r == self,
    {
        Word { word: self.word.clone() }
    }
}

impl Words {
    /// Well-formedness: the lexicon is never empty and every entry has the
    /// required shape.
    pub open spec fn wf(&self) -> bool {
        &&& self.words@.len() >= 1
        &&& forall|i: int|
            0 <= i < self.words@.len() ==> valid_word((#[trigger] self.words@[i]).word@)
    }

    /// Builds the lexicon from the fetched list: entries of the required
    /// shape are kept in order, and when none are usable (in particular when
    /// the fetch failed and the list is empty) a one-word degraded lexicon
    /// takes their place.
    pub fn new(list: Vec<Word>) -> (r: Words)
        ensures
            r.wf(),
            valid_entries(list@).len() > 0 ==> r.words@ == valid_entries(list@),
            valid_entries(list@).len() == 0 ==> r.words@.len() == 1 && r.words@[0].word@
                == "EMPTY"@,
    {
        let mut kept: Vec<Word> = Vec::new();
        let mut i: usize = 0;
        while i < list.len()
            invariant
                i <= list@.len(),
                kept@ == valid_entries(list@.take(i as int)),
                forall|t: int|
                    0 <= t < kept@.len() ==> valid_word((#[trigger] kept@[t]).word@),
            decreases list@.len() - i,
        {
            proof {
                assert(list@.take(i + 1).drop_last() =~= list@.take(i as int));
            }
            if is_valid_shape(&list[i].word) {
                kept.push(list[i].clone_word());
            }
            i += 1;
            proof {
                assert(kept@ =~= valid_entries(list@.take(i as int)));
            }
        }
        proof {
            assert(list@.take(list@.len() as int) =~= list@);
        }
        if kept.len() == 0 {
            let sentinel = String::from_str("EMPTY");
            proof {
                reveal_strlit("EMPTY");
                assert(valid_word("EMPTY"@));
            }
            let mut one: Vec<Word> = Vec::new();
            one.push(Word { word: sentinel });
            Words { words: one }
        } else {
            Words { words: kept }
        }
    }

    /// Picks the hidden word for a new game: a uniformly random entry of the
    /// lexicon.
    pub fn generate_word(&self) -> (r: &Word)
        requires
            self.wf(),
        ensures
            exists|i: int| 0 <= i < self.words@.len() && *r == self.words@[i],
    {
        let i = random_below(self.words.len());
        let w = &self.words[i];
        proof {
            assert(0 <= i < self.words@.len() && *w == self.words@[i as int]);
        }
        w
    }

    /// Case-insensitive membership test: whether the uppercased form of
    /// `candidate` is in the lexicon.
    pub fn is_valid(&self, candidate: &str) -> (r: bool)
        ensures
            r == contains_word(self.words@, upper_seq(candidate@)),
    {
        let up = uppercase_ascii(candidate);
        self.holds_word(&up)
    }

    /// Exact membership test for an already-normalized word.
    pub fn holds_word(&self, w: &String) -> (r: bool)
        ensures
            r == contains_word(self.words@, w@),
    {
        let mut i: usize = 0;
        while i < self.words.len()
            invariant
                i <= self.words@.len(),
                forall|t: int| 0 <= t < i ==> (#[trigger] self.words@[t]).word@ != w@,
            decreases self.words@.len() - i,
        {
            if self.words[i].word.eq(w) {
                return true;
            }
            i += 1;
        }
        false
    }
}

} // verus!
