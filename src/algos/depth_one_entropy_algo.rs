use crate::algos::algos_utils::{
    all_of_len, chars_of, code_views, filter_candidates, filter_codes, generate_possible_feedbacks,
    lemma_filter_codes_shrinks, lemma_filter_kept, lemma_without_code_kept,
    lemma_without_code_shrinks, reachable_feedback, remove_code, score, score_chars, without_code,
};
use crate::algos::baseline_algo::{record_view, PENDING_FEEDBACK};
use crate::algos::fixed_log::{fixed_log2, log2_fixed, FIX_ONE};
use vstd::prelude::*;

verus! {

/// One part of a partition: a feedback pair and how many codes gave it.
pub type Part = ((nat, nat), nat);

/// Index of the part of `t` keyed by `f`, or -1.
pub open spec fn find_part(t: Seq<Part>, f: (nat, nat)) -> int
    decreases t.len(),
{
    if t.len() == 0 {
        -1
    } else if t.last().0 == f {
        t.len() - 1
    } else {
        find_part(t.drop_last(), f)
    }
}

/// The codes of `pool` grouped by the feedback that guess `g` receives against
/// each: one part per feedback, with its size, in order of first appearance.
pub open spec fn partition_sizes(pool: Seq<Seq<char>>, g: Seq<char>) -> Seq<Part>
    decreases pool.len(),
{
    if pool.len() == 0 {
        seq![]
    } else {
        let t = partition_sizes(pool.drop_last(), g);
        let f = score(pool.last(), g);
        let i = find_part(t, f);
        if i < 0 {
            t.push((f, 1nat))
        } else {
            t.update(i, (f, t[i].1 + 1))
        }
    }
}

/// Total size of the parts.
pub open spec fn total_size(t: Seq<Part>) -> nat
    decreases t.len(),
{
    if t.len() == 0 {
        0
    } else {
        total_size(t.drop_last()) + t.last().1
    }
}

/// Total size of the parts other than the full match `(n, 0)`.
pub open spec fn informative_size(t: Seq<Part>, n: nat) -> nat
    decreases t.len(),
{
    if t.len() == 0 {
        0
    } else {
        informative_size(t.drop_last(), n) + if t.last().0 == (n, 0nat) {
            0
        } else {
            t.last().1
        }
    }
}

/// Sum of `k * log2(k)` (in fixed point) over the sizes `k` of the parts other
/// than the full match `(n, 0)`.
pub open spec fn informative_weight(t: Seq<Part>, n: nat) -> nat
    decreases t.len(),
{
    if t.len() == 0 {
        0
    } else {
        informative_weight(t.drop_last(), n) + if t.last().0 == (n, 0nat) {
            0
        } else {
            t.last().1 * fixed_log2(t.last().1)
        }
    }
}

/// `(|pool| - 1)` times the Shannon entropy (base 2, fixed point) of the
/// feedback that guess `g` induces over the pool, the full match left out:
/// with `M = |pool| - 1` and parts of sizes `k`, `sum(k) * log2(M) - sum(k * log2(k))`.
pub open spec fn entropy_score(pool: Seq<Seq<char>>, g: Seq<char>, n: nat) -> int {
    let t = partition_sizes(pool, g);
    informative_size(t, n) * fixed_log2((pool.len() - 1) as nat) - informative_weight(t, n)
}

/// Index among the first `k` codes of the pool of the first one whose entropy score is greatest.
pub open spec fn best_upto(pool: Seq<Seq<char>>, n: nat, k: nat) -> nat
    decreases k,
{
    if k <= 1 {
        0
    } else {
        let b = best_upto(pool, n, (k - 1) as nat);
        if entropy_score(pool, pool[k - 1], n) > entropy_score(pool, pool[b as int], n) {
            (k - 1) as nat
        } else {
            b
        }
    }
}

/// Index of the guess the entropy strategy picks from `pool`.
pub open spec fn best_guess_index(pool: Seq<Seq<char>>, n: nat) -> nat {
    best_upto(pool, n, pool.len())
}

pub open spec fn part_view(e: ((usize, usize), usize)) -> Part {
    ((e.0.0 as nat, e.0.1 as nat), e.1 as nat)
}

pub open spec fn parts_view(t: Seq<((usize, usize), usize)>) -> Seq<Part> {
    t.map_values(|e: ((usize, usize), usize)| part_view(e))
}

proof fn lemma_find_part_range(t: Seq<Part>, f: (nat, nat))
    ensures
        -1 <= find_part(t, f) < t.len(),
        find_part(t, f) >= 0 ==> t[find_part(t, f)].0 == f,
    decreases t.len(),
{
    if t.len() > 0 {
        lemma_find_part_range(t.drop_last(), f);
    }
}

proof fn lemma_part_le_total(t: Seq<Part>, i: int)
    requires
        0 <= i < t.len(),
    ensures
        t[i].1 <= total_size(t),
    decreases t.len(),
{
    if i < t.len() - 1 {
        lemma_part_le_total(t.drop_last(), i);
    }
}

proof fn lemma_total_update(t: Seq<Part>, i: int, e: Part)
    requires
        0 <= i < t.len(),
    ensures
        total_size(t.update(i, e)) == total_size(t) - t[i].1 + e.1,
    decreases t.len(),
{
    if i < t.len() - 1 {
        lemma_total_update(t.drop_last(), i, e);
        assert(t.update(i, e).drop_last() =~= t.drop_last().update(i, e));
    } else {
        assert(t.update(i, e).drop_last() =~= t.drop_last());
    }
}

proof fn lemma_total_prefix(t: Seq<Part>, i: int)
    requires
        0 <= i <= t.len(),
    ensures
        total_size(t.subrange(0, i)) <= total_size(t),
    decreases t.len(),
{
    if i < t.len() {
        lemma_total_prefix(t.drop_last(), i);
        assert(t.drop_last().subrange(0, i) =~= t.subrange(0, i));
    } else {
        assert(t.subrange(0, i) =~= t);
    }
}

/// Index of the part of `t` keyed by `f`, searched from the back.
fn find_part_exec(t: &Vec<((usize, usize), usize)>, f: (usize, usize)) -> (r: Option<usize>)
    ensures
        r is None ==> find_part(parts_view(t@), (f.0 as nat, f.1 as nat)) == -1,
        r matches Some(i) ==> find_part(parts_view(t@), (f.0 as nat, f.1 as nat)) == i && i < t.len(),
{
    let ghost tv = parts_view(t@);
    let ghost fv = (f.0 as nat, f.1 as nat);
    let mut i: usize = t.len();
    assert(tv.subrange(0, i as int) =~= tv);
    while i > 0
        invariant
            i <= t.len(),
            tv == parts_view(t@),
            fv == (f.0 as nat, f.1 as nat),
            find_part(tv, fv) == find_part(tv.subrange(0, i as int), fv),
        decreases i,
    {
        proof {
            assert(tv.subrange(0, i as int).drop_last() =~= tv.subrange(0, i - 1));
            assert(tv.subrange(0, i as int).last() == part_view(t@[i - 1]));
        }
        if t[i - 1].0.0 == f.0 && t[i - 1].0.1 == f.1 {
            return Some(i - 1);
        }
        i = i - 1;
    }
    None
}

/// The partition of the pool (given as characters) by the feedback of guess `g`.
fn partition_exec(pool: &Vec<Vec<char>>, g: &Vec<char>, Ghost(pv): Ghost<Seq<Seq<char>>>) -> (t: Vec<
    ((usize, usize), usize),
>)
    requires
        pool.len() == pv.len(),
        forall|k: int| 0 <= k < pool.len() ==> (#[trigger] pool@[k])@ == pv[k],
    ensures
        parts_view(t@) == partition_sizes(pv, g@),
        total_size(parts_view(t@)) == pv.len(),
{
    let mut t: Vec<((usize, usize), usize)> = Vec::new();
    let mut j: usize = 0;
    while j < pool.len()
        invariant
            j <= pool.len(),
            pool.len() == pv.len(),
            forall|k: int| 0 <= k < pool.len() ==> (#[trigger] pool@[k])@ == pv[k],
            parts_view(t@) == partition_sizes(pv.subrange(0, j as int), g@),
            total_size(parts_view(t@)) == j,
        decreases pool.len() - j,
    {
        let ghost prefix = pv.subrange(0, j + 1);
        let ghost tv = parts_view(t@);
        proof {
            assert(prefix.drop_last() =~= pv.subrange(0, j as int));
            assert(prefix.last() == pv[j as int]);
        }
        let f = score_chars(&pool[j], g);
        let ghost fv = (f.0 as nat, f.1 as nat);
        assert(fv == score(pv[j as int], g@));
        match find_part_exec(&t, f) {
            Some(i) => {
                proof {
                    lemma_part_le_total(tv, i as int);
                    lemma_total_update(tv, i as int, (fv, tv[i as int].1 + 1));
                    lemma_find_part_range(tv, fv);
                }
                let c = t[i].1 + 1;
                t.set(i, (f, c));
                assert(parts_view(t@) =~= tv.update(i as int, (fv, tv[i as int].1 + 1)));
            },
            None => {
                t.push((f, 1));
                assert(parts_view(t@).drop_last() =~= tv);
                assert(parts_view(t@) =~= tv.push((fv, 1nat)));
            },
        }
        j = j + 1;
    }
    assert(pv.subrange(0, pool.len() as int) =~= pv);
    t
}

/// The two sums of an entropy score: `informative_size * log2(M)` and
/// `informative_weight`, for the partition `t` of a pool.
fn score_terms(t: &Vec<((usize, usize), usize)>, n: usize, log_m: u128) -> (r: (u128, u128))
    requires
        total_size(parts_view(t@)) < 0x1_0000_0000_0000_0000,
        log_m < 64 * FIX_ONE,
    ensures
        r.0 == informative_size(parts_view(t@), n as nat) * log_m,
        r.1 == informative_weight(parts_view(t@), n as nat),
        r.0 <= 0x1_0000_0000_0000_0000 * (64 * FIX_ONE),
        r.1 <= 0x1_0000_0000_0000_0000 * (64 * FIX_ONE),
{
    let ghost tv = parts_view(t@);
    let mut size: u128 = 0;
    let mut weight: u128 = 0;
    let mut i: usize = 0;
    while i < t.len()
        invariant
            i <= t.len(),
            tv == parts_view(t@),
            total_size(tv) < 0x1_0000_0000_0000_0000,
            size == informative_size(tv.subrange(0, i as int), n as nat),
            weight == informative_weight(tv.subrange(0, i as int), n as nat),
            size <= total_size(tv.subrange(0, i as int)),
            weight <= total_size(tv.subrange(0, i as int)) * (64 * FIX_ONE),
        decreases t.len() - i,
    {
        let ghost sub = tv.subrange(0, i + 1);
        proof {
            assert(sub.drop_last() =~= tv.subrange(0, i as int));
            assert(sub.last() == part_view(t@[i as int]));
            lemma_total_prefix(tv, i + 1);
        }
        let k = t[i].1;
        let ghost s0 = total_size(tv.subrange(0, i as int));
        assert(s0 * (64 * FIX_ONE) <= (s0 + k) * (64 * FIX_ONE)) by (nonlinear_arith);
        let ghost key = tv[i as int].0;
        proof {
            assert(sub.last() == tv[i as int]);
            assert(tv[i as int].1 == k);
            assert(informative_size(sub, n as nat) == informative_size(tv.subrange(0, i as int), n as nat)
                + if key == (n as nat, 0nat) { 0 } else { k as nat });
            assert(informative_weight(sub, n as nat) == informative_weight(tv.subrange(0, i as int), n as nat)
                + if key == (n as nat, 0nat) { 0 } else { k * fixed_log2(k as nat) });
            if k == 0 {
                let lz = fixed_log2(k as nat);
                assert(k * lz == 0) by (nonlinear_arith)
                    requires
                        k == 0,
                ;
            }
        }
        if k > 0 && !(t[i].0.0 == n && t[i].0.1 == 0) {
            let lk = log2_fixed(k as u128);
            proof {
                assert((k as int) * (lk as int) <= (k as int) * (64 * FIX_ONE)) by (nonlinear_arith)
                    requires
                        lk < 64 * FIX_ONE,
                ;
                assert(s0 * (64 * FIX_ONE) + (k as int) * (64 * FIX_ONE) == (s0 + k) * (64 * FIX_ONE))
                    by (nonlinear_arith);
                assert((s0 + k) * (64 * FIX_ONE) <= 0x1_0000_0000_0000_0000 * (64 * FIX_ONE)) by (nonlinear_arith)
                    requires
                        s0 + k <= 0x1_0000_0000_0000_0000,
                ;
            }
            size = size + k as u128;
            weight = weight + k as u128 * lk;
        }
        i = i + 1;
    }
    proof {
        assert(tv.subrange(0, t.len() as int) =~= tv);
        assert(weight <= 0x1_0000_0000_0000_0000 * (64 * FIX_ONE)) by (nonlinear_arith)
            requires
                weight <= total_size(tv) * (64 * FIX_ONE),
                total_size(tv) < 0x1_0000_0000_0000_0000,
        ;
        assert(size * log_m <= 0x1_0000_0000_0000_0000 * (64 * FIX_ONE)) by (nonlinear_arith)
            requires
                size <= 0x1_0000_0000_0000_0000,
                log_m < 64 * FIX_ONE,
        ;
    }
    (size * log_m, weight)
}


/// The two sums of the entropy score of guessing `pool[gi]`.
fn entropy_terms(
    pool: &Vec<Vec<char>>,
    gi: usize,
    n: usize,
    log_m: u128,
    Ghost(pv): Ghost<Seq<Seq<char>>>,
) -> (r: (u128, u128))
    requires
        gi < pool.len(),
        pool.len() == pv.len(),
        forall|k: int| 0 <= k < pool.len() ==> (#[trigger] pool@[k])@ == pv[k],
        log_m < 64 * FIX_ONE,
    ensures
        r.0 == informative_size(partition_sizes(pv, pv[gi as int]), n as nat) * log_m,
        r.1 == informative_weight(partition_sizes(pv, pv[gi as int]), n as nat),
        r.0 <= 0x1_0000_0000_0000_0000 * (64 * FIX_ONE),
        r.1 <= 0x1_0000_0000_0000_0000 * (64 * FIX_ONE),
{
    let t = partition_exec(pool, &pool[gi], Ghost(pv));
    score_terms(&t, n, log_m)
}

/// Guessing strategy that picks the candidate whose feedback would split the
/// remaining pool most evenly (greatest entropy, one step ahead).
pub struct DepthOneEntropyAlgo {
    numbers: Vec<String>,
    possible_feedbacks: Vec<(usize, usize)>,
    past_guesses: Vec<(String, (usize, usize))>,
    last_guess_updated: bool,
    ndigits: usize,
}

impl DepthOneEntropyAlgo {
    /// The codes still consistent with all feedback, in universe order.
    pub closed spec fn pool(&self) -> Seq<Seq<char>> {
        code_views(self.numbers@)
    }

    /// The guesses made so far, each with its feedback (or the pending marker).
    pub closed spec fn history(&self) -> Seq<(Seq<char>, (usize, usize))> {
        self.past_guesses@.map_values(|p: (String, (usize, usize))| record_view(p))
    }

    /// The feedback pairs that codes of this game can receive.
    pub closed spec fn feedback_space(&self) -> Seq<(usize, usize)> {
        self.possible_feedbacks@
    }

    /// No guess is waiting for feedback.
    pub closed spec fn ready(&self) -> bool {
        self.last_guess_updated
    }

    /// The length shared by all codes of the game.
    pub closed spec fn digits(&self) -> nat {
        self.ndigits as nat
    }

    pub closed spec fn wf(&self) -> bool {
        &&& forall|i: int| 0 <= i < self.numbers.len() ==> (#[trigger] self.numbers@[i])@.len() == self.ndigits
        &&& forall|i: int| 0 <= i < self.past_guesses.len() ==> (#[trigger] self.past_guesses@[i]).0@.len() == self.ndigits
        &&& !self.last_guess_updated ==> self.past_guesses.len() > 0
    }

    /// Starts a game over `numbers`, which must all have the same length;
    /// there is nothing to play over an empty list.
    pub fn new(numbers: Vec<String>) -> (r: Option<DepthOneEntropyAlgo>)
        requires
            forall|i: int| 0 <= i < numbers.len() ==> (#[trigger] numbers@[i])@.len() == numbers@[0]@.len(),
        ensures
            r is None <==> numbers.len() == 0,
            r matches Some(a) ==> {
                &&& a.wf()
                &&& a.pool() == code_views(numbers@)
                &&& a.history().len() == 0
                &&& a.ready()
                &&& a.digits() == numbers@[0]@.len()
                &&& 1 <= a.digits() < usize::MAX ==> forall|f: (usize, usize)|
                    #[trigger] a.feedback_space().contains(f) <==> reachable_feedback(a.digits(), f)
            },
    {
        if numbers.len() == 0 {
            return None;
        }
        let past_guesses: Vec<(String, (usize, usize))> = Vec::new();
        let last_guess_updated: bool = true;
        let ndigits: usize = chars_of(&numbers[0]).len();
        let possible_feedbacks: Vec<(usize, usize)> = if 1 <= ndigits && ndigits < usize::MAX {
            generate_possible_feedbacks(ndigits)
        } else {
            Vec::new()
        };
        let a = DepthOneEntropyAlgo {
            numbers,
            possible_feedbacks,
            past_guesses,
            last_guess_updated,
            ndigits,
        };
        assert(a.history() =~= Seq::<(Seq<char>, (usize, usize))>::empty());
        Some(a)
    }

    /// Guesses the candidate of greatest entropy score (the first such in pool
    /// order; the sole candidate when only one is left): it leaves the pool and
    /// is recorded with pending feedback. Fails while a guess awaits feedback,
    /// and once the pool is exhausted.
    pub fn guess(&mut self) -> (r: Option<String>)
        requires
            old(self).wf(),
        ensures
            final(self).wf(),
            r is None <==> !old(self).ready() || old(self).pool().len() == 0,
            r is None ==> *final(self) == *old(self),
            r matches Some(g) ==> {
                &&& g@ == old(self).pool()[best_guess_index(old(self).pool(), old(self).digits()) as int]
                &&& final(self).pool() == without_code(old(self).pool(), g@)
                &&& final(self).pool().len() < old(self).pool().len()
                &&& final(self).history() == old(self).history().push((g@, PENDING_FEEDBACK))
                &&& !final(self).ready()
                &&& final(self).digits() == old(self).digits()
            },
    {
        if !self.last_guess_updated || self.numbers.len() == 0 {
            return None;
        }
        let index = self.choose_best();
        let best_guess = self.numbers[index].clone();
        proof {
            assert(self.pool()[index as int] == best_guess@);
            lemma_without_code_shrinks(self.pool(), best_guess@);
        }
        let ghost old_pool = self.pool();
        let ghost old_history = self.history();
        let kept = remove_code(&self.numbers, &best_guess);
        proof {
            assert(all_of_len(old_pool, self.ndigits as nat));
            lemma_without_code_kept(old_pool, best_guess@, self.ndigits as nat);
        }
        self.numbers = kept;
        let record = (best_guess.clone(), PENDING_FEEDBACK);
        self.past_guesses.push(record);
        self.last_guess_updated = false;
        assert(self.history() =~= old_history.push((best_guess@, PENDING_FEEDBACK)));
        assert(forall|i: int| 0 <= i < self.numbers.len() ==> (#[trigger] self.numbers@[i])@ == self.pool()[i]);
        Some(best_guess)
    }

    /// Index of the candidate the strategy guesses next.
    fn choose_best(&self) -> (r: usize)
        requires
            self.numbers.len() > 0,
        ensures
            r == best_guess_index(self.pool(), self.digits()),
            r < self.numbers.len(),
    {
        let n = self.numbers.len();
        let ghost pv = self.pool();
        if n == 1 {
            return 0;
        }
        let mut pc: Vec<Vec<char>> = Vec::new();
        let mut j: usize = 0;
        while j < n
            invariant
                j <= n,
                n == self.numbers.len(),
                pv == self.pool(),
                pc.len() == j,
                forall|k: int| 0 <= k < j ==> (#[trigger] pc@[k])@ == pv[k],
            decreases n - j,
        {
            let c = chars_of(&self.numbers[j]);
            pc.push(c);
            j = j + 1;
        }
        let log_m = log2_fixed((n - 1) as u128);
        let first = entropy_terms(&pc, 0, self.ndigits, log_m, Ghost(pv));
        let mut best_size: u128 = first.0;
        let mut best_weight: u128 = first.1;
        let mut best: usize = 0;
        let mut i: usize = 1;
        while i < n
            invariant
                1 <= i <= n,
                n == self.numbers.len(),
                n == pv.len(),
                pv == self.pool(),
                log_m == fixed_log2((n - 1) as nat),
                log_m < 64 * FIX_ONE,
                pc.len() == n,
                forall|k: int| 0 <= k < n ==> (#[trigger] pc@[k])@ == pv[k],
                best < i,
                best == best_upto(pv, self.ndigits as nat, i as nat),
                best_size == informative_size(partition_sizes(pv, pv[best as int]), self.ndigits as nat) * log_m,
                best_weight == informative_weight(partition_sizes(pv, pv[best as int]), self.ndigits as nat),
                best_size <= 0x1_0000_0000_0000_0000 * (64 * FIX_ONE),
                best_weight <= 0x1_0000_0000_0000_0000 * (64 * FIX_ONE),
            decreases n - i,
        {
            let terms = entropy_terms(&pc, i, self.ndigits, log_m, Ghost(pv));
            if terms.0 + best_weight > best_size + terms.1 {
                best = i;
                best_size = terms.0;
                best_weight = terms.1;
            }
            i = i + 1;
        }
        best
    }

    /// Number of candidates still in the pool.
    pub fn get_numbers_count(&self) -> (r: usize)
        ensures
            r == self.pool().len(),
    {
        self.numbers.len()
    }

    /// The candidates still in the pool.
    pub fn get_numbers(&self) -> (r: &Vec<String>)
        ensures
            code_views(r@) == self.pool(),
    {
        &self.numbers
    }

    /// The guesses made so far, with their feedback.
    pub fn get_past_guesses(&self) -> (r: &Vec<(String, (usize, usize))>)
        ensures
            r@.map_values(|p: (String, (usize, usize))| record_view(p)) == self.history(),
    {
        &self.past_guesses
    }

    /// The feedback pairs that codes of this game can receive.
    pub fn get_possible_feedbacks(&self) -> (r: &Vec<(usize, usize)>)
        ensures
            r@ == self.feedback_space(),
    {
        &self.possible_feedbacks
    }

    /// Whether no guess is waiting for feedback.
    pub fn is_last_guess_updated(&self) -> (r: bool)
        ensures
            r == self.ready(),
    {
        self.last_guess_updated
    }

    /// The length shared by all codes of the game.
    pub fn get_ndigits(&self) -> (r: usize)
        ensures
            r == self.digits(),
    {
        self.ndigits
    }

    fn get_last_guess(&self) -> (r: Option<(String, (usize, usize))>)
        ensures
            r is None <==> self.history().len() == 0,
            r matches Some(p) ==> record_view(p) == self.history().last(),
    {
        if self.past_guesses.len() == 0 {
            return None;
        }
        let last = self.past_guesses.len() - 1;
        let code = self.past_guesses[last].0.clone();
        Some((code, self.past_guesses[last].1))
    }

    /// Supplies the feedback `(bulls, cows)` for the pending guess and keeps
    /// only the candidates that would have produced it. Returns `None` for
    /// feedback with `bulls + cows` above the code length (whatever the
    /// state), `Some(false)` when no guess is pending, `Some(true)` otherwise.
    pub fn incorporate_guess_feedback(&mut self, bulls: usize, cows: usize) -> (r: Option<bool>)
        requires
            old(self).wf(),
        ensures
            final(self).wf(),
            r is None <==> bulls + cows > old(self).digits(),
            r == Some(false) <==> bulls + cows <= old(self).digits() && old(self).ready(),
            r != Some(true) ==> *final(self) == *old(self),
            r == Some(true) ==> {
                let last = old(self).history().last();
                &&& final(self).ready()
                &&& final(self).pool() == filter_codes(old(self).pool(), last.0, (bulls as nat, cows as nat))
                &&& final(self).history() == old(self).history().update(
                    old(self).history().len() - 1,
                    (last.0, (bulls, cows)),
                )
                &&& final(self).digits() == old(self).digits()
            },
            final(self).pool().len() <= old(self).pool().len(),
    {
        if bulls > self.ndigits || cows > self.ndigits - bulls {
            return None;
        } else if self.last_guess_updated {
            return Some(false);
        }
        let ghost old_history = self.history();
        let ghost old_pool = self.pool();
        let ghost last = old_history.last();
        let code = match self.past_guesses.pop() {
            Some(p) => p.0,
            None => { return None; },
        };
        proof {
            assert(old_history.drop_last() =~= self.history());
            assert(code@ == last.0);
        }
        let valid = self.find_valid_numbers((code.clone(), (bulls, cows)));
        let valid = match valid {
            Some(v) => v,
            None => { return None; },
        };
        proof {
            lemma_filter_codes_shrinks(old_pool, last.0, (bulls as nat, cows as nat));
            assert(all_of_len(old_pool, self.ndigits as nat));
            lemma_filter_kept(old_pool, last.0, (bulls as nat, cows as nat), self.ndigits as nat);
        }
        self.past_guesses.push((code, (bulls, cows)));
        self.numbers = valid;
        self.last_guess_updated = true;
        assert(self.history() =~= old_history.update(old_history.len() - 1, (last.0, (bulls, cows))));
        assert(forall|i: int| 0 <= i < self.numbers.len() ==> (#[trigger] self.numbers@[i])@ == self.pool()[i]);
        Some(true)
    }

    fn find_valid_numbers(&self, guess: (String, (usize, usize))) -> (r: Option<Vec<String>>)
        ensures
            r is None <==> guess.0@.len() != self.digits() || guess.1.0 + guess.1.1 > self.digits(),
            r matches Some(v) ==> code_views(v@) == filter_codes(
                self.pool(),
                guess.0@,
                (guess.1.0 as nat, guess.1.1 as nat),
            ),
    {
        if chars_of(&guess.0).len() != self.ndigits || guess.1.0 > self.ndigits || guess.1.1
            > self.ndigits - guess.1.0 {
            return None;
        }
        Some(filter_candidates(&self.numbers, &guess.0, guess.1))
    }
}

} // verus!
