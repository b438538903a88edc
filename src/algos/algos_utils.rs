use vstd::prelude::*;
use vstd::string::*;

verus! {

/// Number of positions `j < i` at which the two codes hold the same digit.
pub open spec fn bulls_upto(a: Seq<char>, b: Seq<char>, i: int) -> nat
    decreases i,
{
    if i <= 0 {
        0
    } else {
        bulls_upto(a, b, i - 1) + if a[i - 1] == b[i - 1] {
            1nat
        } else {
            0nat
        }
    }
}

/// Number of positions `j < i` of `a` whose digit occurs anywhere in `b`.
pub open spec fn shared_upto(a: Seq<char>, b: Seq<char>, i: int) -> nat
    decreases i,
{
    if i <= 0 {
        0
    } else {
        shared_upto(a, b, i - 1) + if b.contains(a[i - 1]) {
            1nat
        } else {
            0nat
        }
    }
}

pub open spec fn min_len(a: Seq<char>, b: Seq<char>) -> int {
    if a.len() <= b.len() {
        a.len() as int
    } else {
        b.len() as int
    }
}

/// Exact matches: positions (of the common prefix) holding the same digit.
pub open spec fn bulls(a: Seq<char>, b: Seq<char>) -> nat {
    bulls_upto(a, b, min_len(a, b))
}

/// Digits of `a` that occur anywhere in `b`.
pub open spec fn shared(a: Seq<char>, b: Seq<char>) -> nat {
    shared_upto(a, b, a.len() as int)
}

/// Value matches: shared digits that are not exact matches.
pub open spec fn cows(a: Seq<char>, b: Seq<char>) -> nat {
    (shared(a, b) - bulls(a, b)) as nat
}

/// The feedback `(exact, value)` that guess `a` receives against code `b`.
pub open spec fn score(a: Seq<char>, b: Seq<char>) -> (nat, nat) {
    (bulls(a, b), cows(a, b))
}

proof fn lemma_shared_upto_mono(a: Seq<char>, b: Seq<char>, i: int, j: int)
    requires
        0 <= i <= j,
    ensures
        shared_upto(a, b, i) <= shared_upto(a, b, j),
    decreases j - i,
{
    if i < j {
        lemma_shared_upto_mono(a, b, i, j - 1);
    }
}

proof fn lemma_bulls_upto_le_shared(a: Seq<char>, b: Seq<char>, i: int)
    requires
        0 <= i <= min_len(a, b),
    ensures
        bulls_upto(a, b, i) <= shared_upto(a, b, i),
    decreases i,
{
    if i > 0 {
        lemma_bulls_upto_le_shared(a, b, i - 1);
        if a[i - 1] == b[i - 1] {
            assert(b.contains(a[i - 1]));
        }
    }
}

/// Every exact match is also a shared digit, so the value count never underflows.
pub proof fn lemma_bulls_le_shared(a: Seq<char>, b: Seq<char>)
    ensures
        bulls(a, b) <= shared(a, b),
        bulls(a, b) + cows(a, b) == shared(a, b),
        shared(a, b) <= a.len(),
{
    lemma_bulls_upto_le_shared(a, b, min_len(a, b));
    lemma_shared_upto_mono(a, b, min_len(a, b), a.len() as int);
    lemma_shared_upto_le_len(a, b, a.len() as int);
}

proof fn lemma_shared_upto_le_len(a: Seq<char>, b: Seq<char>, i: int)
    requires
        0 <= i,
    ensures
        shared_upto(a, b, i) <= i,
    decreases i,
{
    if i > 0 {
        lemma_shared_upto_le_len(a, b, i - 1);
    }
}

/// The characters of `s`, one by one.
pub fn chars_of(s: &String) -> (r: Vec<char>)
    ensures
        r@ == s@,
{
    str_chars(s.as_str())
}

/// The characters of `st`, one by one.
pub fn str_chars(st: &str) -> (r: Vec<char>)
    ensures
        r@ == st@,
{
    let ghost s = st@;
    let n = st.unicode_len();
    let mut r: Vec<char> = Vec::new();
    let mut i: usize = 0;
    while i < n
        invariant
            n == s.len(),
            st@ == s,
            i <= n,
            r@ == s.subrange(0, i as int),
        decreases n - i,
    {
        let c = st.get_char(i);
        r.push(c);
        i = i + 1;
        assert(r@ =~= s.subrange(0, i as int));
    }
    assert(r@ =~= s);
    r
}

/// Whether `c` occurs in `v`.
pub fn contains_char(v: &Vec<char>, c: char) -> (r: bool)
    ensures
        r == v@.contains(c),
{
    let mut j: usize = 0;
    while j < v.len()
        invariant
            j <= v.len(),
            forall|k: int| 0 <= k < j ==> v@[k] != c,
        decreases v.len() - j,
    {
        if v[j] == c {
            return true;
        }
        j = j + 1;
    }
    false
}

/// Scores guess `a` against code `b`, both given as characters.
pub fn score_chars(a: &Vec<char>, b: &Vec<char>) -> (r: (usize, usize))
    ensures
        r.0 == bulls(a@, b@),
        r.1 == cows(a@, b@),
{
    let m: usize = if a.len() <= b.len() {
        a.len()
    } else {
        b.len()
    };
    let mut nb: usize = 0;
    let mut i: usize = 0;
    while i < m
        invariant
            m == min_len(a@, b@),
            i <= m,
            nb == bulls_upto(a@, b@, i as int),
            nb <= i,
        decreases m - i,
    {
        if a[i] == b[i] {
            nb = nb + 1;
        }
        i = i + 1;
    }
    let mut ns: usize = 0;
    let mut i: usize = 0;
    while i < a.len()
        invariant
            i <= a.len(),
            ns == shared_upto(a@, b@, i as int),
            ns <= i,
        decreases a.len() - i,
    {
        if contains_char(b, a[i]) {
            ns = ns + 1;
        }
        i = i + 1;
    }
    proof {
        lemma_bulls_le_shared(a@, b@);
    }
    (nb, ns - nb)
}

/// Scores `number0` as a guess against `number1`: the count of positions that
/// hold the same digit, and the count of further digits of `number0` found
/// anywhere in `number1`. Codes of different lengths cannot be compared.
pub fn get_bulls_and_cows(number0: String, number1: String) -> (r: Option<(usize, usize)>)
    ensures
        r is None <==> number0@.len() != number1@.len(),
        r matches Some(p) ==> p.0 == bulls(number0@, number1@) && p.1 == cows(number0@, number1@),
{
    let a = chars_of(&number0);
    let b = chars_of(&number1);
    if a.len() != b.len() {
        return None;
    }
    Some(score_chars(&a, &b))
}

/// The views of a list of codes.
pub open spec fn code_views(v: Seq<String>) -> Seq<Seq<char>> {
    v.map_values(|s: String| s@)
}

/// The codes of `pool`, in order, that receive feedback `fb` when `g` is guessed against them.
pub open spec fn filter_codes(pool: Seq<Seq<char>>, g: Seq<char>, fb: (nat, nat)) -> Seq<Seq<char>>
    decreases pool.len(),
{
    if pool.len() == 0 {
        seq![]
    } else {
        let rest = filter_codes(pool.drop_last(), g, fb);
        if score(g, pool.last()) == fb {
            rest.push(pool.last())
        } else {
            rest
        }
    }
}

/// Filtering never adds codes and keeps only codes of the pool.
pub proof fn lemma_filter_codes_shrinks(pool: Seq<Seq<char>>, g: Seq<char>, fb: (nat, nat))
    ensures
        filter_codes(pool, g, fb).len() <= pool.len(),
        forall|k: int|
            0 <= k < filter_codes(pool, g, fb).len() ==> pool.contains(
                #[trigger] filter_codes(pool, g, fb)[k],
            ),
    decreases pool.len(),
{
    if pool.len() > 0 {
        lemma_filter_codes_shrinks(pool.drop_last(), g, fb);
        let rest = filter_codes(pool.drop_last(), g, fb);
        assert forall|k: int| 0 <= k < rest.len() implies pool.contains(#[trigger] rest[k]) by {
            let w = choose|w: int| 0 <= w < pool.drop_last().len() && pool.drop_last()[w] == rest[k];
            assert(pool[w] == rest[k]);
        }
        assert(pool[pool.len() - 1] == pool.last());
    }
}

/// A code is always consistent with the feedback it gives to any guess:
/// filtering the one-code pool `[c]` by `score(g, c)` keeps exactly `[c]`.
pub proof fn lemma_code_consistent_with_own_feedback(c: Seq<char>, g: Seq<char>)
    ensures
        filter_codes(seq![c], g, score(g, c)) == seq![c],
{
    let pool = seq![c];
    assert(pool.drop_last() =~= Seq::<Seq<char>>::empty());
    assert(filter_codes(pool.drop_last(), g, score(g, c)) == Seq::<Seq<char>>::empty());
    assert(seq![].push(c) =~= pool);
}

/// Keeps, in order, the codes of `pool` against which `guess` scores exactly `feedback`.
pub fn filter_candidates(pool: &Vec<String>, guess: &String, feedback: (usize, usize)) -> (r: Vec<
    String,
>)
    ensures
        code_views(r@) == filter_codes(
            code_views(pool@),
            guess@,
            (feedback.0 as nat, feedback.1 as nat),
        ),
{
    let ghost fb = (feedback.0 as nat, feedback.1 as nat);
    let ghost all = code_views(pool@);
    let g = chars_of(guess);
    let mut r: Vec<String> = Vec::new();
    let mut i: usize = 0;
    while i < pool.len()
        invariant
            i <= pool.len(),
            all == code_views(pool@),
            fb == (feedback.0 as nat, feedback.1 as nat),
            g@ == guess@,
            code_views(r@) == filter_codes(all.subrange(0, i as int), guess@, fb),
        decreases pool.len() - i,
    {
        let c = chars_of(&pool[i]);
        let s = score_chars(&g, &c);
        proof {
            assert(c@ == pool@[i as int]@);
            assert(s.0 == score(guess@, c@).0 && s.1 == score(guess@, c@).1);
            assert(all.subrange(0, i + 1).drop_last() =~= all.subrange(0, i as int));
            assert(all.subrange(0, i + 1).last() == pool@[i as int]@);
        }
        let ghost prev = r@;
        if s.0 == feedback.0 && s.1 == feedback.1 {
            let k = pool[i].clone();
            r.push(k);
            proof {
                assert(r@.drop_last() == prev);
                assert(code_views(r@) =~= code_views(prev).push(k@));
            }
        } else {
            assert(score(guess@, pool@[i as int]@) != fb);
        }
        i = i + 1;
    }
    assert(all.subrange(0, pool.len() as int) =~= all);
    r
}

/// Whether a feedback pair can be told to a guess of `n` distinct digits:
/// for one digit only the full match; otherwise every pair with
/// `exact + value <= n` except `(n - 1, 1)`.
pub open spec fn reachable_feedback(n: nat, f: (usize, usize)) -> bool {
    if n == 1 {
        f.0 == 1 && f.1 == 0
    } else {
        f.0 + f.1 <= n && !(f.0 + 1 == n && f.1 == 1)
    }
}

pub open spec fn feedback_before(x: (usize, usize), y: (usize, usize)) -> bool {
    x.0 < y.0 || (x.0 == y.0 && x.1 < y.1)
}

/// Lists the feedback pairs reachable for codes of `ndigits` distinct digits,
/// in ascending order of `(exact, value)`, each once.
pub fn generate_possible_feedbacks(ndigits: usize) -> (r: Vec<(usize, usize)>)
    requires
        1 <= ndigits < usize::MAX,
    ensures
        forall|k: int| 0 <= k < r.len() ==> reachable_feedback(ndigits as nat, #[trigger] r@[k]),
        forall|f: (usize, usize)| reachable_feedback(ndigits as nat, f) ==> r@.contains(f),
        forall|k: int, l: int| 0 <= k < l < r.len() ==> feedback_before(r@[k], r@[l]),
        ndigits == 1 ==> r.len() == 1,
        ndigits >= 2 ==> 2 * r.len() + 2 == (ndigits + 1) * (ndigits + 2),
{
    let mut r: Vec<(usize, usize)> = Vec::new();
    if ndigits == 1 {
        r.push((1, 0));
        assert forall|f: (usize, usize)| reachable_feedback(ndigits as nat, f) implies r@.contains(f) by {
            assert(r@[0] == f);
        }
        return r;
    }
    let mut b: usize = 0;
    while b < ndigits - 1
        invariant
            2 <= ndigits < usize::MAX,
            b <= ndigits - 1,
            2 * r.len() == 2 * b * (ndigits + 1) - b * (b - 1),
            forall|k: int| 0 <= k < r.len() ==> (#[trigger] r@[k]).0 < b && reachable_feedback(ndigits as nat, r@[k]),
            forall|f: (usize, usize)| f.0 < b && reachable_feedback(ndigits as nat, f) ==> r@.contains(f),
            forall|k: int, l: int| 0 <= k < l < r.len() ==> feedback_before(r@[k], r@[l]),
        decreases ndigits - b,
    {
        let mut c: usize = 0;
        while c < ndigits - b + 1
            invariant
                2 <= ndigits < usize::MAX,
                b < ndigits - 1,
                c <= ndigits - b + 1,
                2 * r.len() == 2 * b * (ndigits + 1) - b * (b - 1) + 2 * c,
                forall|k: int| 0 <= k < r.len() ==> feedback_before(#[trigger] r@[k], (b, c)) && reachable_feedback(ndigits as nat, r@[k]),
                forall|f: (usize, usize)| feedback_before(f, (b, c)) && reachable_feedback(ndigits as nat, f) ==> r@.contains(f),
                forall|k: int, l: int| 0 <= k < l < r.len() ==> feedback_before(r@[k], r@[l]),
            decreases ndigits - b + 1 - c,
        {
            let ghost prev = r@;
            r.push((b, c));
            assert forall|f: (usize, usize)| feedback_before(f, (b, (c + 1) as usize)) && reachable_feedback(ndigits as nat, f) implies r@.contains(f) by {
                if f == (b, c) {
                    assert(r@[r.len() - 1] == f);
                } else {
                    assert(feedback_before(f, (b, c)));
                    let w = choose|w: int| 0 <= w < prev.len() && prev[w] == f;
                    assert(r@[w] == f);
                }
            }
            c = c + 1;
        }
        proof {
            let bb = b as int;
            let n = ndigits as int;
            assert(2 * bb * (n + 1) - bb * (bb - 1) + 2 * (n - bb + 1) == 2 * (bb + 1) * (n + 1) - (bb
                + 1) * bb) by (nonlinear_arith);
        }
        b = b + 1;
    }
    proof {
        let n = ndigits as int;
        assert(2 * (n - 1) * (n + 1) - (n - 1) * (n - 2) + 4 + 2 == (n + 1) * (n + 2)) by (nonlinear_arith);
    }
    let ghost before = r@;
    r.push((ndigits - 1, 0));
    r.push((ndigits, 0));
    assert forall|f: (usize, usize)| reachable_feedback(ndigits as nat, f) implies r@.contains(f) by {
        if f.0 < b {
            let w = choose|w: int| 0 <= w < before.len() && before[w] == f;
            assert(r@[w] == f);
        } else if f.0 + 1 == ndigits {
            assert(r@[r.len() - 2] == f);
        } else {
            assert(r@[r.len() - 1] == f);
        }
    }
    r
}

/// The character of decimal digit `d`.
pub open spec fn digit_char(d: nat) -> char {
    ((48 + d) as u8) as char
}

pub open spec fn pow10(n: nat) -> nat
    decreases n,
{
    if n == 0 {
        1
    } else {
        10 * pow10((n - 1) as nat)
    }
}

/// The numeral of `u` in base ten, zero-padded (or cut) to its last `n` digits.
pub open spec fn code_of(u: nat, n: nat) -> Seq<char>
    decreases n,
{
    if n == 0 {
        seq![]
    } else {
        code_of(u / 10, (n - 1) as nat).push(digit_char(u % 10))
    }
}

/// No character occurs twice in `s`.
pub open spec fn distinct_digits(s: Seq<char>) -> bool {
    forall|i: int, j: int| 0 <= i < j < s.len() ==> s[i] != s[j]
}

/// The numbers below `m`, ascending, whose `n`-digit numeral has distinct digits.
pub open spec fn universe_values(n: nat, m: nat) -> Seq<nat>
    decreases m,
{
    if m == 0 {
        seq![]
    } else {
        let rest = universe_values(n, (m - 1) as nat);
        if distinct_digits(code_of((m - 1) as nat, n)) {
            rest.push((m - 1) as nat)
        } else {
            rest
        }
    }
}

/// Every `n`-digit code with pairwise distinct digits, in ascending numeric order.
pub open spec fn universe(n: nat) -> Seq<Seq<char>> {
    universe_values(n, pow10(n)).map_values(|u: nat| code_of(u, n))
}

proof fn lemma_code_of_len(u: nat, n: nat)
    ensures
        code_of(u, n).len() == n,
    decreases n,
{
    if n > 0 {
        lemma_code_of_len(u / 10, (n - 1) as nat);
    }
}

proof fn lemma_universe_values(n: nat, m: nat)
    ensures
        forall|i: int| 0 <= i < universe_values(n, m).len() ==> (#[trigger] universe_values(n, m)[i]) < m
            && distinct_digits(code_of(universe_values(n, m)[i], n)),
        forall|i: int, j: int|
            0 <= i < j < universe_values(n, m).len() ==> universe_values(n, m)[i] < universe_values(n, m)[j],
    decreases m,
{
    if m > 0 {
        lemma_universe_values(n, (m - 1) as nat);
        let rest = universe_values(n, (m - 1) as nat);
        let vals = universe_values(n, m);
        if distinct_digits(code_of((m - 1) as nat, n)) {
            assert(vals == rest.push((m - 1) as nat));
            assert forall|i: int| 0 <= i < rest.len() implies vals[i] == rest[i] by {}
        } else {
            assert(vals == rest);
        }
    }
}

/// The universe holds codes of `n` pairwise distinct digits, each the numeral
/// of a number below `10^n`, in strictly ascending numeric order.
pub proof fn lemma_universe_shape(n: nat)
    ensures
        universe(n).len() == universe_values(n, pow10(n)).len(),
        forall|i: int|
            0 <= i < universe(n).len() ==> {
                &&& #[trigger] universe(n)[i] == code_of(universe_values(n, pow10(n))[i], n)
                &&& universe_values(n, pow10(n))[i] < pow10(n)
                &&& universe(n)[i].len() == n
                &&& distinct_digits(universe(n)[i])
            },
        forall|i: int, j: int|
            0 <= i < j < universe(n).len() ==> universe_values(n, pow10(n))[i] < universe_values(
                n,
                pow10(n),
            )[j],
{
    lemma_universe_values(n, pow10(n));
    assert forall|i: int| 0 <= i < universe(n).len() implies #[trigger] universe(n)[i].len() == n by {
        lemma_code_of_len(universe_values(n, pow10(n))[i], n);
    }
}

pub(crate) fn digit_to_char(d: usize) -> (c: char)
    requires
        d < 10,
    ensures
        c == digit_char(d as nat),
{
    ((48 + d) as u8) as char
}

fn code_chars(u: usize, n: usize) -> (r: Vec<char>)
    ensures
        r@ == code_of(u as nat, n as nat),
    decreases n,
{
    if n == 0 {
        Vec::new()
    } else {
        let mut r = code_chars(u / 10, n - 1);
        r.push(digit_to_char(u % 10));
        r
    }
}

fn all_distinct(v: &Vec<char>) -> (r: bool)
    ensures
        r == distinct_digits(v@),
{
    let mut i: usize = 0;
    while i < v.len()
        invariant
            i <= v.len(),
            forall|a: int, b: int| 0 <= a < b < v.len() && a < i ==> v@[a] != v@[b],
        decreases v.len() - i,
    {
        let mut j: usize = i + 1;
        while j < v.len()
            invariant
                i < v.len(),
                i < j <= v.len(),
                forall|a: int, b: int| 0 <= a < b < v.len() && a < i ==> v@[a] != v@[b],
                forall|b: int| i < b < j ==> v@[i as int] != v@[b],
            decreases v.len() - j,
        {
            if v[i] == v[j] {
                return false;
            }
            j = j + 1;
        }
        i = i + 1;
    }
    true
}

/// Relies on std's `FromIterator<char>` for `String`: the string of the given characters, in order.
#[verifier::external_body]
pub(crate) fn string_from_chars(v: &Vec<char>) -> (s: String)
    ensures
        s@ == v@,
{
    v.iter().collect()
}

proof fn lemma_pow10_mono(i: nat, n: nat)
    requires
        i <= n,
    ensures
        1 <= pow10(i) <= pow10(n),
    decreases n,
{
    if n > 0 && i < n {
        lemma_pow10_mono(i, (n - 1) as nat);
    } else if n > 0 {
        lemma_pow10_mono((n - 1) as nat, (n - 1) as nat);
    }
}

/// Every `ndigits`-digit code with pairwise distinct digits, as zero-padded
/// numerals in ascending numeric order.
pub fn generate_universe(ndigits: usize) -> (r: Vec<String>)
    requires
        ndigits <= 9,
    ensures
        code_views(r@) == universe(ndigits as nat),
{
    let mut limit: usize = 1;
    let mut k: usize = 0;
    while k < ndigits
        invariant
            k <= ndigits <= 9,
            limit == pow10(k as nat),
        decreases ndigits - k,
    {
        proof {
            lemma_pow10_mono((k + 1) as nat, 9);
            reveal_with_fuel(pow10, 10);
            assert(pow10(9) == 1_000_000_000);
        }
        limit = limit * 10;
        k = k + 1;
    }
    let mut r: Vec<String> = Vec::new();
    let mut u: usize = 0;
    while u < limit
        invariant
            u <= limit,
            limit == pow10(ndigits as nat),
            code_views(r@) == universe_values(ndigits as nat, u as nat).map_values(
                |x: nat| code_of(x, ndigits as nat),
            ),
        decreases limit - u,
    {
        let c = code_chars(u, ndigits);
        let ghost prev = r@;
        if all_distinct(&c) {
            let s = string_from_chars(&c);
            r.push(s);
            assert(r@.drop_last() == prev);
            assert(code_views(r@) =~= code_views(prev).push(s@));
        }
        u = u + 1;
        assert(universe_values(ndigits as nat, u as nat).map_values(|x: nat| code_of(x, ndigits as nat))
            =~= code_views(r@));
    }
    r
}

/// The 5040 four-digit codes with pairwise distinct digits, ascending.
pub fn generate_default_init_values_for_numbers() -> (r: Vec<String>)
    ensures
        code_views(r@) == universe(4),
{
    generate_universe(4)
}

/// The codes of `pool`, in order, that differ from `g`.
pub open spec fn without_code(pool: Seq<Seq<char>>, g: Seq<char>) -> Seq<Seq<char>>
    decreases pool.len(),
{
    if pool.len() == 0 {
        seq![]
    } else {
        let rest = without_code(pool.drop_last(), g);
        if pool.last() == g {
            rest
        } else {
            rest.push(pool.last())
        }
    }
}

/// Removing a code never adds codes, and removing one that is present shrinks the pool.
pub proof fn lemma_without_code_shrinks(pool: Seq<Seq<char>>, g: Seq<char>)
    ensures
        without_code(pool, g).len() <= pool.len(),
        pool.contains(g) ==> without_code(pool, g).len() < pool.len(),
    decreases pool.len(),
{
    if pool.len() > 0 {
        lemma_without_code_shrinks(pool.drop_last(), g);
        if pool.contains(g) && pool.last() != g {
            let w = choose|w: int| 0 <= w < pool.len() && pool[w] == g;
            assert(w != pool.len() - 1);
            assert(pool.drop_last()[w] == g);
        }
    }
}

/// Every copy of `g` taken out of `pool`, the order of the rest kept.
pub fn remove_code(pool: &Vec<String>, g: &String) -> (r: Vec<String>)
    ensures
        code_views(r@) == without_code(code_views(pool@), g@),
{
    let ghost all = code_views(pool@);
    let mut r: Vec<String> = Vec::new();
    let mut i: usize = 0;
    while i < pool.len()
        invariant
            i <= pool.len(),
            all == code_views(pool@),
            code_views(r@) == without_code(all.subrange(0, i as int), g@),
        decreases pool.len() - i,
    {
        proof {
            assert(all.subrange(0, i + 1).drop_last() =~= all.subrange(0, i as int));
            assert(all.subrange(0, i + 1).last() == pool@[i as int]@);
        }
        let ghost prev = r@;
        if pool[i] != *g {
            let k = pool[i].clone();
            r.push(k);
            proof {
                assert(r@.drop_last() == prev);
                assert(code_views(r@) =~= code_views(prev).push(k@));
            }
        }
        i = i + 1;
    }
    assert(all.subrange(0, pool.len() as int) =~= all);
    r
}

/// All codes of `pool` have length `n`.
pub open spec fn all_of_len(pool: Seq<Seq<char>>, n: nat) -> bool {
    forall|i: int| 0 <= i < pool.len() ==> (#[trigger] pool[i]).len() == n
}

pub proof fn lemma_filter_kept(pool: Seq<Seq<char>>, g: Seq<char>, fb: (nat, nat), n: nat)
    requires
        all_of_len(pool, n),
    ensures
        all_of_len(filter_codes(pool, g, fb), n),
    decreases pool.len(),
{
    if pool.len() > 0 {
        lemma_filter_kept(pool.drop_last(), g, fb, n);
        assert(pool[pool.len() - 1] == pool.last());
    }
}

pub proof fn lemma_without_code_kept(pool: Seq<Seq<char>>, g: Seq<char>, n: nat)
    requires
        all_of_len(pool, n),
    ensures
        all_of_len(without_code(pool, g), n),
    decreases pool.len(),
{
    if pool.len() > 0 {
        lemma_without_code_kept(pool.drop_last(), g, n);
        assert(pool[pool.len() - 1] == pool.last());
    }
}

/// The pool never grows over a guess and its feedback: removing the guessed
/// code and then filtering by any feedback leaves at most as many codes as
/// there were before the guess.
pub proof fn lemma_pool_shrinks_over_round(pool: Seq<Seq<char>>, g: Seq<char>, fb: (nat, nat))
    ensures
        filter_codes(without_code(pool, g), g, fb).len() <= pool.len(),
{
    lemma_without_code_shrinks(pool, g);
    lemma_filter_codes_shrinks(without_code(pool, g), g, fb);
}

} // verus!
