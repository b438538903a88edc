use crate::algos::algos_utils::{
    chars_of, code_views, filter_candidates, filter_codes, lemma_filter_codes_shrinks,
    lemma_without_code_shrinks, remove_code, without_code, lemma_filter_kept, lemma_without_code_kept, all_of_len,
};
use crate::rng::random_index;
use vstd::prelude::*;

verus! {

/// Feedback recorded for a guess whose feedback has not been supplied yet.
pub const PENDING_FEEDBACK: (usize, usize) = (usize::MAX, usize::MAX);

/// Guessing strategy that picks one remaining candidate uniformly at random.
pub struct BaselineAlgo {
    numbers: Vec<String>,
    past_guesses: Vec<(String, (usize, usize))>,
    last_guess_updated: bool,
    ndigits: usize,
}

/// A guess record as plain values.
pub open spec fn record_view(p: (String, (usize, usize))) -> (Seq<char>, (usize, usize)) {
    (p.0@, p.1)
}

impl BaselineAlgo {
    /// The codes still consistent with all feedback, in universe order.
    pub closed spec fn pool(&self) -> Seq<Seq<char>> {
        code_views(self.numbers@)
    }

    /// The guesses made so far, each with its feedback (or the pending marker).
    pub closed spec fn history(&self) -> Seq<(Seq<char>, (usize, usize))> {
        self.past_guesses@.map_values(|p: (String, (usize, usize))| record_view(p))
    }

    /// No guess is waiting for feedback.
    pub closed spec fn ready(&self) -> bool {
        self.last_guess_updated
    }

    /// The length shared by all codes of the game.
    pub closed spec fn digits(&self) -> nat {
        self.ndigits as nat
    }

    pub closed spec fn wf(&self) -> bool {
        &&& forall|i: int| 0 <= i < self.numbers.len() ==> (#[trigger] self.numbers@[i])@.len() == self.ndigits
        &&& forall|i: int| 0 <= i < self.past_guesses.len() ==> (#[trigger] self.past_guesses@[i]).0@.len() == self.ndigits
        &&& !self.last_guess_updated ==> self.past_guesses.len() > 0
    }

    /// Starts a game over `numbers`, which must all have the same length;
    /// there is nothing to play over an empty list.
    pub fn new(numbers: Vec<String>) -> (r: Option<BaselineAlgo>)
        requires
            forall|i: int| 0 <= i < numbers.len() ==> (#[trigger] numbers@[i])@.len() == numbers@[0]@.len(),
        ensures
            r is None <==> numbers.len() == 0,
            r matches Some(a) ==> {
                &&& a.wf()
                &&& a.pool() == code_views(numbers@)
                &&& a.history().len() == 0
                &&& a.ready()
                &&& a.digits() == numbers@[0]@.len()
            },
    {
        if numbers.len() == 0 {
            return None;
        }
        let past_guesses: Vec<(String, (usize, usize))> = Vec::new();
        let last_guess_updated: bool = true;
        let ndigits: usize = chars_of(&numbers[0]).len();
        let a = BaselineAlgo { numbers, past_guesses, last_guess_updated, ndigits };
        assert(a.history() =~= Seq::<(Seq<char>, (usize, usize))>::empty());
        Some(a)
    }

    /// Guesses the candidate at `index` of the pool: it leaves the pool and is
    /// recorded with pending feedback. Fails while a guess awaits feedback,
    /// on an empty pool, and for an index past the pool's end.
    pub fn guess_at(&mut self, index: usize) -> (r: Option<String>)
        requires
            old(self).wf(),
        ensures
            final(self).wf(),
            r is None <==> !old(self).ready() || index >= old(self).pool().len(),
            r is None ==> *final(self) == *old(self),
            r matches Some(g) ==> {
                &&& g@ == old(self).pool()[index as int]
                &&& final(self).pool() == without_code(old(self).pool(), g@)
                &&& final(self).pool().len() < old(self).pool().len()
                &&& final(self).history() == old(self).history().push((g@, PENDING_FEEDBACK))
                &&& !final(self).ready()
                &&& final(self).digits() == old(self).digits()
            },
    {
        if !self.last_guess_updated || index >= self.numbers.len() {
            return None;
        }
        let best_guess = self.numbers[index].clone();
        proof {
            assert(self.pool()[index as int] == best_guess@);
            lemma_without_code_shrinks(self.pool(), best_guess@);
        }
        let ghost old_pool = self.pool();
        let ghost old_history = self.history();
        let kept = remove_code(&self.numbers, &best_guess);
        proof {
            assert(all_of_len(old_pool, self.ndigits as nat));
            lemma_without_code_kept(old_pool, best_guess@, self.ndigits as nat);
        }
        self.numbers = kept;
        let record = (best_guess.clone(), PENDING_FEEDBACK);
        self.past_guesses.push(record);
        self.last_guess_updated = false;
        assert(self.history() =~= old_history.push((best_guess@, PENDING_FEEDBACK)));
        assert(forall|i: int| 0 <= i < self.numbers.len() ==> (#[trigger] self.numbers@[i])@ == self.pool()[i]);
        Some(best_guess)
    }

    /// Guesses a candidate drawn uniformly at random from the pool (see `guess_at`).
    /// Fails while a guess awaits feedback, and once the pool is exhausted.
    pub fn guess(&mut self) -> (r: Option<String>)
        requires
            old(self).wf(),
        ensures
            final(self).wf(),
            r is None <==> !old(self).ready() || old(self).pool().len() == 0,
            r is None ==> *final(self) == *old(self),
            r matches Some(g) ==> {
                &&& old(self).pool().contains(g@)
                &&& final(self).pool() == without_code(old(self).pool(), g@)
                &&& final(self).pool().len() < old(self).pool().len()
                &&& final(self).history() == old(self).history().push((g@, PENDING_FEEDBACK))
                &&& !final(self).ready()
                &&& final(self).digits() == old(self).digits()
            },
    {
        if !self.last_guess_updated || self.numbers.len() == 0 {
            return None;
        }
        let index = random_index(self.numbers.len());
        let ghost old_pool = self.pool();
        let r = self.guess_at(index);
        proof {
            if r is Some {
                assert(old_pool[index as int] == r->0@);
            }
        }
        r
    }

    /// Number of candidates still in the pool.
    pub fn get_numbers_count(&self) -> (r: usize)
        ensures
            r == self.pool().len(),
    {
        self.numbers.len()
    }

    /// The candidates still in the pool.
    pub fn get_numbers(&self) -> (r: &Vec<String>)
        ensures
            code_views(r@) == self.pool(),
    {
        &self.numbers
    }

    /// The guesses made so far, with their feedback.
    pub fn get_past_guesses(&self) -> (r: &Vec<(String, (usize, usize))>)
        ensures
            r@.map_values(|p: (String, (usize, usize))| record_view(p)) == self.history(),
    {
        &self.past_guesses
    }

    /// Whether no guess is waiting for feedback.
    pub fn is_last_guess_updated(&self) -> (r: bool)
        ensures
            r == self.ready(),
    {
        self.last_guess_updated
    }

    /// The length shared by all codes of the game.
    pub fn get_ndigits(&self) -> (r: usize)
        ensures
            r == self.digits(),
    {
        self.ndigits
    }

    fn get_last_guess(&self) -> (r: Option<(String, (usize, usize))>)
        ensures
            r is None <==> self.history().len() == 0,
            r matches Some(p) ==> record_view(p) == self.history().last(),
    {
        if self.past_guesses.len() == 0 {
            return None;
        }
        let last = self.past_guesses.len() - 1;
        let code = self.past_guesses[last].0.clone();
        Some((code, self.past_guesses[last].1))
    }

    /// Supplies the feedback `(bulls, cows)` for the pending guess and keeps
    /// only the candidates that would have produced it. Returns `None` for
    /// feedback with `bulls + cows` above the code length (whatever the
    /// state), `Some(false)` when no guess is pending, `Some(true)` otherwise.
    pub fn incorporate_guess_feedback(&mut self, bulls: usize, cows: usize) -> (r: Option<bool>)
        requires
            old(self).wf(),
        ensures
            final(self).wf(),
            r is None <==> bulls + cows > old(self).digits(),
            r == Some(false) <==> bulls + cows <= old(self).digits() && old(self).ready(),
            r != Some(true) ==> *final(self) == *old(self),
            r == Some(true) ==> {
                let last = old(self).history().last();
                &&& final(self).ready()
                &&& final(self).pool() == filter_codes(old(self).pool(), last.0, (bulls as nat, cows as nat))
                &&& final(self).history() == old(self).history().update(
                    old(self).history().len() - 1,
                    (last.0, (bulls, cows)),
                )
                &&& final(self).digits() == old(self).digits()
            },
            final(self).pool().len() <= old(self).pool().len(),
    {
        if bulls > self.ndigits || cows > self.ndigits - bulls {
            return None;
        } else if self.last_guess_updated {
            return Some(false);
        }
        let ghost old_history = self.history();
        let ghost old_pool = self.pool();
        let ghost last = old_history.last();
        let code = match self.past_guesses.pop() {
            Some(p) => p.0,
            None => { return None; },
        };
        proof {
            assert(old_history.drop_last() =~= self.history());
            assert(code@ == last.0);
        }
        let valid = self.find_valid_numbers((code.clone(), (bulls, cows)));
        let valid = match valid {
            Some(v) => v,
            None => { return None; },
        };
        proof {
            lemma_filter_codes_shrinks(old_pool, last.0, (bulls as nat, cows as nat));
            assert(all_of_len(old_pool, self.ndigits as nat));
            lemma_filter_kept(old_pool, last.0, (bulls as nat, cows as nat), self.ndigits as nat);
        }
        self.past_guesses.push((code, (bulls, cows)));
        self.numbers = valid;
        self.last_guess_updated = true;
        assert(self.history() =~= old_history.update(old_history.len() - 1, (last.0, (bulls, cows))));
        assert(forall|i: int| 0 <= i < self.numbers.len() ==> (#[trigger] self.numbers@[i])@ == self.pool()[i]);
        Some(true)
    }

    fn find_valid_numbers(&self, guess: (String, (usize, usize))) -> (r: Option<Vec<String>>)
        ensures
            r is None <==> guess.0@.len() != self.digits() || guess.1.0 + guess.1.1 > self.digits(),
            r matches Some(v) ==> code_views(v@) == filter_codes(
                self.pool(),
                guess.0@,
                (guess.1.0 as nat, guess.1.1 as nat),
            ),
    {
        if chars_of(&guess.0).len() != self.ndigits || guess.1.0 > self.ndigits || guess.1.1
            > self.ndigits - guess.1.0 {
            return None;
        }
        Some(filter_candidates(&self.numbers, &guess.0, guess.1))
    }
}

} // verus!
