use crate::algos::algos_utils::{bulls, cows, digit_char, digit_to_char, str_chars, string_from_chars};
use rand::seq::IteratorRandom;
use vstd::prelude::*;
use vstd::string::*;
use vstd::utf8::encode_utf8;

verus! {

/// Whether std counts `c` as alphanumeric (a Unicode letter or number).
pub uninterp spec fn alphanumeric(c: char) -> bool;

/// Relies on std's `char::is_alphanumeric`.
#[verifier::external_body]
fn is_alphanumeric(c: char) -> (r: bool)
    ensures
        r == alphanumeric(c),
{
    c.is_alphanumeric()
}

/// Relies on rand's `IteratorRandom::choose_multiple` over `0..10` with
/// `thread_rng`: `min(amount, 10)` distinct values below ten, drawn at random.
#[verifier::external_body]
fn sample_digits(amount: usize) -> (r: Vec<usize>)
    ensures
        r.len() == if amount < 10 { amount } else { 10 },
        forall|i: int| 0 <= i < r.len() ==> r@[i] < 10,
        forall|i: int, j: int| 0 <= i < j < r.len() ==> r@[i] != r@[j],
{
    (0..10usize).choose_multiple(&mut rand::thread_rng(), amount)
}

/// A secret code of distinct digits and the number of guesses scored against it.
pub struct Game {
    guess_count: u64,
    answer: String,
}

/// `c` is one of the characters `0` to `9`.
pub open spec fn is_digit(c: char) -> bool {
    48 <= (c as u32) && (c as u32) <= 57
}

/// Every character of `s` is alphanumeric.
pub open spec fn all_alphanumeric(s: Seq<char>) -> bool {
    forall|i: int| 0 <= i < s.len() ==> alphanumeric(#[trigger] s[i])
}

impl Game {
    /// The secret code.
    pub closed spec fn secret(&self) -> Seq<char> {
        self.answer@
    }

    /// Length of the secret code in bytes.
    pub closed spec fn secret_byte_len(&self) -> usize {
        encode_utf8(self.answer@).len() as usize
    }

    /// Number of guesses scored so far.
    pub closed spec fn count(&self) -> u64 {
        self.guess_count
    }

    /// A game over a random secret of `min(length, 10)` distinct digits.
    pub fn new(length: usize) -> (r: Game)
        ensures
            r.secret().len() == if length < 10 { length } else { 10 },
            forall|i: int| 0 <= i < r.secret().len() ==> is_digit(#[trigger] r.secret()[i]),
            forall|i: int, j: int| 0 <= i < j < r.secret().len() ==> r.secret()[i] != r.secret()[j],
            r.count() == 0,
    {
        let sample = sample_digits(length);
        let mut chars: Vec<char> = Vec::new();
        let mut i: usize = 0;
        while i < sample.len()
            invariant
                i <= sample.len(),
                chars.len() == i,
                forall|k: int| 0 <= k < sample.len() ==> sample@[k] < 10,
                forall|k: int| 0 <= k < i ==> chars@[k] == digit_char(#[trigger] sample@[k] as nat),
            decreases sample.len() - i,
        {
            let c = digit_to_char(sample[i]);
            chars.push(c);
            i = i + 1;
        }
        let answer = string_from_chars(&chars);
        proof {
            assert forall|a: int, b: int| 0 <= a < b < chars.len() implies chars@[a] != chars@[b] by {
                let x = sample@[a] as nat;
                let y = sample@[b] as nat;
                assert(x != y);
                assert(((48 + x) as u8) as char != ((48 + y) as u8) as char);
            }
            assert forall|k: int| 0 <= k < chars.len() implies is_digit(#[trigger] chars@[k]) by {
                assert(chars@[k] == digit_char(sample@[k] as nat));
            }
        }
        Game { guess_count: 0, answer }
    }

    /// The secret code.
    pub fn get_answer(&self) -> (r: &str)
        ensures
            r@ == self.secret(),
    {
        self.answer.as_str()
    }

    /// Number of guesses scored so far.
    pub fn get_guess_count(&self) -> (r: u64)
        ensures
            r == self.count(),
    {
        self.guess_count
    }

    /// Length of the secret code.
    pub fn get_answer_length(&self) -> (r: usize)
        ensures
            r == self.secret().len(),
    {
        self.answer.as_str().unicode_len()
    }

    /// Scores `guess` against the secret: `(exact, value)` matches. A guess
    /// whose byte length differs from the secret's, or that holds a character
    /// that is not alphanumeric, is refused and not counted.
    pub fn make_guess(&mut self, guess: &str) -> (r: Option<(usize, usize)>)
        requires
            old(self).count() < u64::MAX,
        ensures
            r is None <==> guess.len() != old(self).secret_byte_len()
                || !all_alphanumeric(guess@),
            r is None ==> *final(self) == *old(self),
            r matches Some(p) ==> {
                &&& p == (bulls(guess@, old(self).secret()) as usize, cows(guess@, old(self).secret()) as usize)
                &&& final(self).count() == old(self).count() + 1
                &&& final(self).secret() == old(self).secret()
            },
    {
        let g = str_chars(guess);
        if guess.len() != self.answer.as_str().len() {
            return None;
        }
        let mut i: usize = 0;
        while i < g.len()
            invariant
                i <= g.len(),
                g@ == guess@,
                guess.len() == self.secret_byte_len(),
                forall|k: int| 0 <= k < i ==> alphanumeric(#[trigger] g@[k]),
            decreases g.len() - i,
        {
            if !is_alphanumeric(g[i]) {
                return None;
            }
            i = i + 1;
        }
        self.guess_count = self.guess_count + 1;
        let a = str_chars(self.answer.as_str());
        let s = crate::algos::algos_utils::score_chars(&g, &a);
        Some(s)
    }
}

} // verus!
