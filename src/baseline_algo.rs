use crate::algos::algos_utils::{bulls, chars_of, code_views, score_chars, shared, lemma_bulls_le_shared, universe};
use crate::rng::random_index;
use vstd::prelude::*;

verus! {

/// Whether past guess `rec` rules out `number`: the number was itself guessed,
/// has fewer exact matches with the guess than were reported, or has too few
/// further shared digits for the reported value matches.
pub open spec fn ruled_out(number: Seq<char>, rec: (Seq<char>, (usize, usize))) -> bool {
    number == rec.0 || bulls(number, rec.0) < rec.1.0 || shared(number, rec.0) - rec.1.0 < rec.1.1
}

/// No past guess rules `number` out.
pub open spec fn still_possible(number: Seq<char>, past: Seq<(Seq<char>, (usize, usize))>) -> bool {
    forall|i: int| 0 <= i < past.len() ==> !ruled_out(number, #[trigger] past[i])
}

/// The numbers of `pool`, in order, that no past guess rules out.
pub open spec fn possible_numbers(pool: Seq<Seq<char>>, past: Seq<(Seq<char>, (usize, usize))>) -> Seq<
    Seq<char>,
>
    decreases pool.len(),
{
    if pool.len() == 0 {
        seq![]
    } else {
        let rest = possible_numbers(pool.drop_last(), past);
        if still_possible(pool.last(), past) {
            rest.push(pool.last())
        } else {
            rest
        }
    }
}

/// A guess record as plain values.
pub open spec fn guess_view(p: (String, (usize, usize))) -> (Seq<char>, (usize, usize)) {
    (p.0@, p.1)
}

/// The views of a list of guess records.
pub open spec fn guesses_view(v: Seq<(String, (usize, usize))>) -> Seq<(Seq<char>, (usize, usize))> {
    v.map_values(|p: (String, (usize, usize))| guess_view(p))
}

/// A random guesser that keeps a list of numbers and a log of scored guesses,
/// and prunes the numbers that the log rules out when asked to.
pub struct BaselineAlgo {
    numbers: Vec<String>,
    past_guesses: Vec<(String, (usize, usize))>,
}

impl BaselineAlgo {
    /// The numbers still kept.
    pub closed spec fn pool(&self) -> Seq<Seq<char>> {
        code_views(self.numbers@)
    }

    /// The guesses added so far, with their feedback.
    pub closed spec fn history(&self) -> Seq<(Seq<char>, (usize, usize))> {
        guesses_view(self.past_guesses@)
    }

    /// Starts with `numbers` and no past guesses.
    pub fn new(numbers: Vec<String>) -> (r: BaselineAlgo)
        ensures
            r.pool() == code_views(numbers@),
            r.history().len() == 0,
    {
        let past_guesses: Vec<(String, (usize, usize))> = Vec::new();
        let r = BaselineAlgo { numbers, past_guesses };
        assert(r.history() =~= Seq::<(Seq<char>, (usize, usize))>::empty());
        r
    }

    /// The numbers still kept.
    pub fn get_numbers(&self) -> (r: &Vec<String>)
        ensures
            code_views(r@) == self.pool(),
    {
        &self.numbers
    }

    /// The guesses added so far, with their feedback.
    pub fn get_past_guesses(&self) -> (r: &Vec<(String, (usize, usize))>)
        ensures
            guesses_view(r@) == self.history(),
    {
        &self.past_guesses
    }

    /// One of the kept numbers, drawn uniformly at random; nothing is removed.
    pub fn guess(&mut self) -> (r: String)
        requires
            old(self).pool().len() > 0,
        ensures
            *final(self) == *old(self),
            old(self).pool().contains(r@),
    {
        let index = random_index(self.numbers.len());
        let r = self.numbers[index].clone();
        assert(self.pool()[index as int] == r@);
        r
    }

    /// Logs `guess` with the feedback `(bulls, cows)` it received.
    pub fn add_guess(&mut self, guess: String, bulls: usize, cows: usize)
        ensures
            final(self).pool() == old(self).pool(),
            final(self).history() == old(self).history().push((guess@, (bulls, cows))),
    {
        let ghost before = self.history();
        let g = guess;
        self.past_guesses.push((g, (bulls, cows)));
        assert(self.history() =~= before.push((g@, (bulls, cows))));
    }

    fn is_still_possible(&self, number: &String) -> (r: bool)
        ensures
            r == still_possible(number@, self.history()),
    {
        let a = chars_of(number);
        let mut i: usize = 0;
        while i < self.past_guesses.len()
            invariant
                i <= self.past_guesses.len(),
                a@ == number@,
                forall|k: int| 0 <= k < i ==> !ruled_out(number@, #[trigger] self.history()[k]),
            decreases self.past_guesses.len() - i,
        {
            let past_guess = &self.past_guesses[i].0;
            let past_bulls = self.past_guesses[i].1.0;
            let past_cows = self.past_guesses[i].1.1;
            let b = chars_of(past_guess);
            let s = score_chars(&a, &b);
            proof {
                lemma_bulls_le_shared(a@, b@);
                assert(s.0 + s.1 <= a.len());
                assert(self.history()[i as int] == (past_guess@, (past_bulls, past_cows)));
            }
            let local_bulls = s.0;
            let intersection_cardinality = s.0 + s.1;
            if *number == *past_guess || local_bulls < past_bulls || intersection_cardinality
                - past_bulls < past_cows {
                return false;
            }
            i = i + 1;
        }
        true
    }

    /// The kept numbers, in order, that no past guess rules out.
    pub fn find_valid_numbers(&self) -> (r: Vec<String>)
        ensures
            code_views(r@) == possible_numbers(self.pool(), self.history()),
    {
        let ghost all = self.pool();
        let mut valid_numbers: Vec<String> = Vec::new();
        let mut i: usize = 0;
        while i < self.numbers.len()
            invariant
                i <= self.numbers.len(),
                all == self.pool(),
                code_views(valid_numbers@) == possible_numbers(all.subrange(0, i as int), self.history()),
            decreases self.numbers.len() - i,
        {
            proof {
                assert(all.subrange(0, i + 1).drop_last() =~= all.subrange(0, i as int));
                assert(all.subrange(0, i + 1).last() == self.numbers@[i as int]@);
            }
            let ghost prev = valid_numbers@;
            if self.is_still_possible(&self.numbers[i]) {
                let k = self.numbers[i].clone();
                valid_numbers.push(k);
                proof {
                    assert(valid_numbers@.drop_last() == prev);
                    assert(code_views(valid_numbers@) =~= code_views(prev).push(k@));
                }
            }
            i = i + 1;
        }
        assert(all.subrange(0, self.numbers.len() as int) =~= all);
        valid_numbers
    }

    /// Drops the numbers that the past guesses rule out.
    pub fn update_numbers(&mut self)
        ensures
            final(self).pool() == possible_numbers(old(self).pool(), old(self).history()),
            final(self).history() == old(self).history(),
    {
        self.numbers = self.find_valid_numbers();
    }
}

/// The 5040 four-digit codes with pairwise distinct digits, ascending.
pub fn generate_default_init_values_for_numbers() -> (r: Vec<String>)
    ensures
        code_views(r@) == universe(4),
{
    crate::algos::algos_utils::generate_default_init_values_for_numbers()
}

} // verus!
