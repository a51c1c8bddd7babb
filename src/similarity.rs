use vstd::prelude::*;
use vstd::string::StrSliceExecFns;
use vstd::string::StringExecFns;

use crate::category::{concrete_at, Category, CONCRETE_COUNT};
use crate::error::MaskerError;

verus! {

/// Similarities are fixed-point numbers in `0..=SIMILARITY_SCALE`, where the
/// scale stands for "identical".
pub const SIMILARITY_SCALE: u64 = 1000000;

/// Samples for each concrete category.
pub type FakeWordPool = Vec<(Category, Vec<String>)>;

/// The category inferred for a literal, with the samples that led to it.
#[derive(Debug)]
pub struct WordClassification {
    pub category: Category,
    pub similar: Vec<String>,
}

/// Edit distance between two strings, counted in characters.
pub uninterp spec fn levenshtein_of(a: Seq<char>, b: Seq<char>) -> nat;

/// Relies on strsim::levenshtein: the minimum number of single-character
/// insertions, deletions and substitutions, a function of the two strings.
#[verifier::external_body]
fn edit_distance(a: &str, b: &str) -> (r: usize)
    ensures
        r as nat == levenshtein_of(a@, b@),
{
    strsim::levenshtein(a, b)
}

/// Normalized similarity of `candidate` to `word`: one minus the edit distance
/// over the longer length, in units of `1 / SIMILARITY_SCALE`, rounded down.
pub open spec fn similarity(candidate: Seq<char>, word: Seq<char>) -> nat {
    let m: nat = if candidate.len() >= word.len() { candidate.len() } else { word.len() };
    similarity_of(levenshtein_of(candidate, word), m)
}

/// One minus `distance / longest`, in units of `1 / SIMILARITY_SCALE`, rounded
/// down; two empty strings are identical, and a distance of at least the
/// longer length counts as nothing in common.
pub open spec fn similarity_of(distance: nat, longest: nat) -> nat {
    if longest == 0 {
        SIMILARITY_SCALE as nat
    } else if distance >= longest {
        0
    } else {
        (((longest - distance) * SIMILARITY_SCALE) / (longest as int)) as nat
    }
}

proof fn lemma_similarity_bounded(d: nat, m: nat)
    ensures
        similarity_of(d, m) <= SIMILARITY_SCALE,
{
    if m != 0 && d < m {
        let x: int = (m - d) * SIMILARITY_SCALE;
        assert(x <= m * SIMILARITY_SCALE) by (nonlinear_arith)
            requires
                x == (m - d) * SIMILARITY_SCALE,
                d >= 0,
                m > d,
        ;
        vstd::arithmetic::div_mod::lemma_div_is_ordered(x, m * SIMILARITY_SCALE, m as int);
        vstd::arithmetic::div_mod::lemma_div_multiples_vanish(SIMILARITY_SCALE as int, m as int);
    }
}

/// The similarity of two strings at edit distance `distance`, the longer of
/// which has `longest` characters.
pub fn similarity_from_distance(distance: usize, longest: usize) -> (r: u64)
    ensures
        r == similarity_of(distance as nat, longest as nat),
        r <= SIMILARITY_SCALE,
{
    proof {
        lemma_similarity_bounded(distance as nat, longest as nat);
    }
    if longest == 0 {
        SIMILARITY_SCALE
    } else if distance >= longest {
        0
    } else {
        let x: u128 = ((longest - distance) as u128) * (SIMILARITY_SCALE as u128);
        let q: u128 = x / (longest as u128);
        q as u64
    }
}

/// Computes `similarity(candidate@, word@)`.
pub fn similarity_score(candidate: &str, word: &str) -> (r: u64)
    ensures
        r == similarity(candidate@, word@),
        r <= SIMILARITY_SCALE,
{
    let a = candidate.unicode_len();
    let b = word.unicode_len();
    let m = if a >= b { a } else { b };
    let d = edit_distance(candidate, word);
    similarity_from_distance(d, m)
}

/// The characters of each string.
pub open spec fn strings_view(v: Seq<String>) -> Seq<Seq<char>> {
    v.map_values(|s: String| s@)
}

/// Sample `j` may be offered in place of `word`: it exists and differs from it.
pub open spec fn eligible(word: Seq<char>, samples: Seq<Seq<char>>, j: int) -> bool {
    0 <= j < samples.len() && samples[j] != word
}

/// The similarity to `word` of each sample.
pub open spec fn similarities(word: Seq<char>, samples: Seq<Seq<char>>) -> Seq<int> {
    samples.map_values(|s: Seq<char>| similarity(s, word) as int)
}

/// Sample `i` ranks before sample `j`: a higher score, or an equal score and
/// earlier in the pool.
pub open spec fn ranks_before(scores: Seq<int>, i: int, j: int) -> bool {
    scores[i] > scores[j] || (scores[i] == scores[j] && i < j)
}

/// Sample `j` repeats the string of a sample already chosen.
pub open spec fn repeats_chosen(samples: Seq<Seq<char>>, chosen: Seq<int>, j: int) -> bool {
    exists|t: int| 0 <= t < chosen.len() && #[trigger] samples[chosen[t]] == samples[j]
}

/// Sample `j` may come next after the samples already `chosen`: it differs
/// from the word and from every chosen string, and ranks after the last
/// chosen sample.
pub open spec fn is_next_candidate(
    word: Seq<char>,
    samples: Seq<Seq<char>>,
    scores: Seq<int>,
    chosen: Seq<int>,
    j: int,
) -> bool {
    &&& eligible(word, samples, j)
    &&& !repeats_chosen(samples, chosen, j)
    &&& match last_of(chosen) {
        None => true,
        Some(p) => ranks_before(scores, p, j),
    }
}

/// The best-ranked candidate among the first `upto` samples.
pub open spec fn best_candidate(
    word: Seq<char>,
    samples: Seq<Seq<char>>,
    scores: Seq<int>,
    chosen: Seq<int>,
    upto: nat,
) -> Option<int>
    decreases upto,
{
    if upto == 0 {
        None
    } else {
        let j = upto - 1;
        let b = best_candidate(word, samples, scores, chosen, (upto - 1) as nat);
        if is_next_candidate(word, samples, scores, chosen, j) {
            match b {
                None => Some(j),
                Some(bi) => if ranks_before(scores, j, bi) {
                    Some(j)
                } else {
                    Some(bi)
                },
            }
        } else {
            b
        }
    }
}

/// The last index of a selection, if any.
pub open spec fn last_of(sel: Seq<int>) -> Option<int> {
    if sel.len() == 0 {
        None
    } else {
        Some(sel.last())
    }
}

/// Indices of the `n` best-scored samples, best first, leaving out samples
/// equal to `word` and repeats of a string already chosen: each one is the
/// best-ranked such sample that ranks after the one before it.
pub open spec fn ranked_by(word: Seq<char>, samples: Seq<Seq<char>>, scores: Seq<int>, n: nat) -> Seq<
    int,
>
    decreases n,
{
    if n == 0 {
        Seq::empty()
    } else {
        let prev = ranked_by(word, samples, scores, (n - 1) as nat);
        match best_candidate(word, samples, scores, prev, samples.len()) {
            Some(b) => prev.push(b),
            None => prev,
        }
    }
}

/// Indices of the `n` samples most similar to `word`, best first, leaving out
/// samples equal to `word`.
pub open spec fn ranked(word: Seq<char>, samples: Seq<Seq<char>>, n: nat) -> Seq<int> {
    ranked_by(word, samples, similarities(word, samples), n)
}

/// No string occurs twice.
pub open spec fn all_distinct(v: Seq<Seq<char>>) -> bool {
    forall|t: int, u: int| 0 <= t < u < v.len() ==> #[trigger] v[t] != #[trigger] v[u]
}

/// The samples at the given indices.
pub open spec fn pick(samples: Seq<Seq<char>>, sel: Seq<int>) -> Seq<Seq<char>> {
    sel.map_values(|i: int| samples[i])
}

proof fn lemma_ranked_stable(
    word: Seq<char>,
    samples: Seq<Seq<char>>,
    scores: Seq<int>,
    k: nat,
    n: nat,
)
    requires
        k <= n,
        best_candidate(word, samples, scores, ranked_by(word, samples, scores, k), samples.len()) is None,
    ensures
        ranked_by(word, samples, scores, n) == ranked_by(word, samples, scores, k),
    decreases n - k,
{
    if k < n {
        assert(ranked_by(word, samples, scores, (k + 1) as nat) == ranked_by(word, samples, scores, k));
        lemma_ranked_stable(word, samples, scores, (k + 1) as nat, n);
    }
}

proof fn lemma_best_candidate_is_candidate(
    word: Seq<char>,
    samples: Seq<Seq<char>>,
    scores: Seq<int>,
    chosen: Seq<int>,
    upto: nat,
)
    requires
        upto <= samples.len(),
    ensures
        best_candidate(word, samples, scores, chosen, upto) matches Some(b) ==> (
        is_next_candidate(word, samples, scores, chosen, b) && b < upto),
    decreases upto,
{
    if upto > 0 {
        lemma_best_candidate_is_candidate(word, samples, scores, chosen, (upto - 1) as nat);
    }
}

/// Every index in a ranking is in range and names a sample that differs from
/// the word.
pub proof fn lemma_ranked_eligible(word: Seq<char>, samples: Seq<Seq<char>>, scores: Seq<int>, n: nat)
    ensures
        ranked_by(word, samples, scores, n).len() <= n,
        forall|k: int|
            0 <= k < ranked_by(word, samples, scores, n).len() ==> eligible(
                word,
                samples,
                #[trigger] ranked_by(word, samples, scores, n)[k],
            ),
    decreases n,
{
    if n > 0 {
        let prev = ranked_by(word, samples, scores, (n - 1) as nat);
        lemma_ranked_eligible(word, samples, scores, (n - 1) as nat);
        lemma_best_candidate_is_candidate(word, samples, scores, prev, samples.len());
    }
}

/// The samples a ranking picks are distinct strings.
pub proof fn lemma_pick_distinct(word: Seq<char>, samples: Seq<Seq<char>>, n: nat)
    ensures
        all_distinct(pick(samples, ranked(word, samples, n))),
{
    let sc = similarities(word, samples);
    lemma_ranked_distinct(word, samples, sc, n);
    let sel = ranked_by(word, samples, sc, n);
    assert forall|t: int, u: int| 0 <= t < u < pick(samples, sel).len() implies #[trigger] pick(
        samples,
        sel,
    )[t] != #[trigger] pick(samples, sel)[u] by {
        assert(samples[sel[t]] != samples[sel[u]]);
    }
}

/// No two samples of a ranking are the same string.
pub proof fn lemma_ranked_distinct(word: Seq<char>, samples: Seq<Seq<char>>, scores: Seq<int>, n: nat)
    ensures
        forall|t: int, u: int|
            0 <= t < u < ranked_by(word, samples, scores, n).len() ==> samples[#[trigger] ranked_by(
                word,
                samples,
                scores,
                n,
            )[t]] != samples[#[trigger] ranked_by(word, samples, scores, n)[u]],
    decreases n,
{
    if n > 0 {
        let prev = ranked_by(word, samples, scores, (n - 1) as nat);
        let r = ranked_by(word, samples, scores, n);
        lemma_ranked_distinct(word, samples, scores, (n - 1) as nat);
        lemma_best_candidate_is_candidate(word, samples, scores, prev, samples.len());
        if r.len() > prev.len() {
            let b = r.last();
            assert forall|t: int, u: int| 0 <= t < u < r.len() implies samples[r[t]] != samples[r[u]] by {
                if u < prev.len() {
                    assert(r[t] == prev[t] && r[u] == prev[u]);
                } else {
                    assert(r[u] == b && r[t] == prev[t]);
                    assert(!repeats_chosen(samples, prev, b));
                    if samples[prev[t]] == samples[b] {
                        assert(0 <= t < prev.len() && samples[prev[t]] == samples[b]);
                    }
                }
            }
        }
    }
}

proof fn lemma_first_candidate_exists(
    word: Seq<char>,
    samples: Seq<Seq<char>>,
    scores: Seq<int>,
    upto: nat,
)
    requires
        upto <= samples.len(),
    ensures
        best_candidate(word, samples, scores, Seq::empty(), upto) is Some <==> exists|j: int|
            0 <= j < upto && #[trigger] eligible(word, samples, j),
    decreases upto,
{
    if upto > 0 {
        lemma_first_candidate_exists(word, samples, scores, (upto - 1) as nat);
        if best_candidate(word, samples, scores, Seq::empty(), (upto - 1) as nat) is None {
            if exists|j: int| 0 <= j < upto && #[trigger] eligible(word, samples, j) {
                let j = choose|j: int| 0 <= j < upto && #[trigger] eligible(word, samples, j);
                assert(j == upto - 1);
            }
        }
    }
}

proof fn lemma_ranked_grows(word: Seq<char>, samples: Seq<Seq<char>>, scores: Seq<int>, n: nat)
    requires
        n >= 1,
        ranked_by(word, samples, scores, 1).len() > 0,
    ensures
        ranked_by(word, samples, scores, n).len() > 0,
    decreases n,
{
    if n > 1 {
        lemma_ranked_grows(word, samples, scores, (n - 1) as nat);
    }
}

/// With `n` positive, a ranking is empty exactly when every sample equals the
/// word.
pub proof fn lemma_ranked_nonempty(word: Seq<char>, samples: Seq<Seq<char>>, scores: Seq<int>, n: nat)
    requires
        n > 0,
    ensures
        ranked_by(word, samples, scores, n).len() > 0 <==> has_other_sample(word, samples),
{
    lemma_first_candidate_exists(word, samples, scores, samples.len());
    assert(ranked_by(word, samples, scores, 0) =~= Seq::<int>::empty());
    if ranked_by(word, samples, scores, 1).len() > 0 {
        lemma_ranked_grows(word, samples, scores, n);
    } else {
        lemma_ranked_stable(word, samples, scores, 1, n);
    }
    if has_other_sample(word, samples) {
        let j = choose|j: int| #[trigger] eligible(word, samples, j);
        assert(0 <= j < samples.len() && eligible(word, samples, j));
    }
}

/// Whether sample `j` repeats the string of a chosen sample.
fn repeats_chosen_exec(samples: &Vec<String>, chosen: &Vec<usize>, j: usize) -> (r: bool)
    requires
        j < samples.len(),
        forall|t: int| 0 <= t < chosen.len() ==> chosen@[t] < samples.len(),
    ensures
        r == repeats_chosen(strings_view(samples@), chosen@.map_values(|i: usize| i as int), j as int),
{
    let ghost sv = strings_view(samples@);
    let ghost cv = chosen@.map_values(|i: usize| i as int);
    let mut t: usize = 0;
    while t < chosen.len()
        invariant
            t <= chosen.len(),
            j < samples.len(),
            sv == strings_view(samples@),
            cv == chosen@.map_values(|i: usize| i as int),
            forall|u: int| 0 <= u < chosen.len() ==> chosen@[u] < samples.len(),
            forall|u: int| 0 <= u < t ==> #[trigger] sv[cv[u]] != sv[j as int],
        decreases chosen.len() - t,
    {
        if samples[chosen[t]] == samples[j] {
            proof {
                assert(sv[cv[t as int]] == sv[j as int]);
            }
            return true;
        }
        proof {
            assert(sv[cv[t as int]] != sv[j as int]);
        }
        t = t + 1;
    }
    false
}

/// Indices of the `n` best-scored samples, best first, leaving out samples
/// equal to `word`; `scores[j]` scores `samples[j]`.
pub fn rank_by_scores(word: &String, samples: &Vec<String>, scores: &Vec<u64>, n: usize) -> (r: Vec<
    usize,
>)
    requires
        scores.len() == samples.len(),
    ensures
        r@.map_values(|i: usize| i as int) == ranked_by(
            word@,
            strings_view(samples@),
            scores@.map_values(|x: u64| x as int),
            n as nat,
        ),
        forall|t: int| 0 <= t < r.len() ==> r@[t] < samples.len(),
{
    let ghost sv = strings_view(samples@);
    let ghost sc = scores@.map_values(|x: u64| x as int);
    let mut chosen: Vec<usize> = Vec::new();
    let mut k: usize = 0;
    while k < n
        invariant
            k <= n,
            sv == strings_view(samples@),
            sc == scores@.map_values(|x: u64| x as int),
            scores.len() == samples.len(),
            chosen@.map_values(|i: usize| i as int) == ranked_by(word@, sv, sc, k as nat),
            forall|t: int| 0 <= t < chosen.len() ==> chosen@[t] < samples.len(),
        decreases n - k,
    {
        let ghost prev = ranked_by(word@, sv, sc, k as nat);
        let last: Option<usize> = if chosen.len() == 0 {
            None
        } else {
            Some(chosen[chosen.len() - 1])
        };
        let mut best: Option<usize> = None;
        let mut j: usize = 0;
        while j < samples.len()
            invariant
                j <= samples.len(),
                sv == strings_view(samples@),
                sc == scores@.map_values(|x: u64| x as int),
                scores.len() == samples.len(),
                prev == chosen@.map_values(|i: usize| i as int),
                forall|t: int| 0 <= t < chosen.len() ==> chosen@[t] < samples.len(),
                last_of(prev) == match last {
                    None => None,
                    Some(p) => Some(p as int),
                },
                last matches Some(p) ==> p < samples.len(),
                best matches Some(b) ==> b < j,
                best_candidate(word@, sv, sc, prev, j as nat) == match best {
                    None => None,
                    Some(b) => Some(b as int),
                },
            decreases samples.len() - j,
        {
            let differs = !(samples[j] == *word);
            let follows = match last {
                None => true,
                Some(p) => scores[p] > scores[j] || (scores[p] == scores[j] && p < j),
            };
            if differs && follows && !repeats_chosen_exec(samples, &chosen, j) {
                best = match best {
                    None => Some(j),
                    Some(b) => if scores[j] > scores[b] || (scores[j] == scores[b] && j < b) {
                        Some(j)
                    } else {
                        Some(b)
                    },
                };
            }
            j = j + 1;
        }
        proof {
            assert(sv.len() == samples.len());
        }
        match best {
            None => {
                proof {
                    lemma_ranked_stable(word@, sv, sc, k as nat, n as nat);
                }
                return chosen;
            },
            Some(b) => {
                chosen.push(b);
                proof {
                    assert(chosen@.map_values(|i: usize| i as int) =~= ranked_by(
                        word@,
                        sv,
                        sc,
                        (k + 1) as nat,
                    ));
                }
            },
        }
        k = k + 1;
    }
    chosen
}

/// Indices of the `n` samples most similar to `word`, as `ranked` gives them.
fn top_similar_indices(word: &String, samples: &Vec<String>, n: usize) -> (r: Vec<usize>)
    ensures
        r@.map_values(|i: usize| i as int) == ranked(word@, strings_view(samples@), n as nat),
        forall|t: int| 0 <= t < r.len() ==> r@[t] < samples.len(),
{
    let ghost sv = strings_view(samples@);
    let mut scores: Vec<u64> = Vec::new();
    let mut j: usize = 0;
    while j < samples.len()
        invariant
            j <= samples.len(),
            sv == strings_view(samples@),
            scores.len() == j,
            forall|k: int| 0 <= k < j ==> scores@[k] == similarity(#[trigger] sv[k], word@),
        decreases samples.len() - j,
    {
        let s = similarity_score(samples[j].as_str(), word.as_str());
        scores.push(s);
        j = j + 1;
    }
    proof {
        assert(scores@.map_values(|x: u64| x as int) =~= similarities(word@, sv));
    }
    rank_by_scores(word, samples, &scores, n)
}

/// Samples of the pool, as characters, by category.
pub open spec fn pool_view(p: Seq<(Category, Vec<String>)>) -> Seq<(Category, Seq<Seq<char>>)> {
    p.map_values(|e: (Category, Vec<String>)| (e.0, strings_view(e.1@)))
}

/// Index of the first pool row, from `i` on, that holds category `c`.
pub open spec fn row_index_from(pv: Seq<(Category, Seq<Seq<char>>)>, c: Category, i: nat) -> Option<
    int,
>
    decreases pv.len() - i,
{
    if i >= pv.len() {
        None
    } else if pv[i as int].0 == c {
        Some(i as int)
    } else {
        row_index_from(pv, c, i + 1)
    }
}

/// The samples of the first pool row for `c`; empty when there is none.
pub open spec fn row_samples(pv: Seq<(Category, Seq<Seq<char>>)>, c: Category) -> Seq<Seq<char>> {
    match row_index_from(pv, c, 0) {
        Some(i) => pv[i].1,
        None => Seq::empty(),
    }
}

/// Sum of the similarities to `word` of the selected samples.
pub open spec fn sum_similarity(word: Seq<char>, samples: Seq<Seq<char>>, sel: Seq<int>) -> nat
    decreases sel.len(),
{
    if sel.len() == 0 {
        0
    } else {
        sum_similarity(word, samples, sel.drop_last()) + similarity(samples[sel.last()], word)
    }
}

/// The top-`n` selection of the `i`-th concrete category.
pub open spec fn category_selection(
    word: Seq<char>,
    pv: Seq<(Category, Seq<Seq<char>>)>,
    i: int,
    n: nat,
) -> Seq<int> {
    ranked(word, row_samples(pv, concrete_at(i)), n)
}

/// Mean similarity of the top-`n` selection of the `i`-th concrete category.
pub open spec fn category_mean(
    word: Seq<char>,
    pv: Seq<(Category, Seq<Seq<char>>)>,
    i: int,
    n: nat,
) -> int {
    let sel = category_selection(word, pv, i, n);
    sum_similarity(word, row_samples(pv, concrete_at(i)), sel) as int / sel.len() as int
}

/// Some sample differs from `word`.
pub open spec fn has_other_sample(word: Seq<char>, samples: Seq<Seq<char>>) -> bool {
    exists|j: int| #[trigger] eligible(word, samples, j)
}

/// A word can be classified: `n` is positive and every concrete category has
/// a pool row with at least one sample that differs from the word.
pub open spec fn classifiable(word: Seq<char>, pv: Seq<(Category, Seq<Seq<char>>)>, n: nat) -> bool {
    &&& n > 0
    &&& forall|i: int|
        0 <= i < CONCRETE_COUNT ==> {
            &&& #[trigger] row_index_from(pv, concrete_at(i), 0) is Some
            &&& has_other_sample(word, row_samples(pv, concrete_at(i)))
        }
}

/// Among the first `upto` concrete categories, the one with the highest mean;
/// the earliest wins a tie.
pub open spec fn best_category(
    word: Seq<char>,
    pv: Seq<(Category, Seq<Seq<char>>)>,
    n: nat,
    upto: nat,
) -> int
    decreases upto,
{
    if upto <= 1 {
        0
    } else {
        let b = best_category(word, pv, n, (upto - 1) as nat);
        if category_mean(word, pv, upto - 1, n) > category_mean(word, pv, b, n) {
            upto - 1
        } else {
            b
        }
    }
}

/// The category a classification picks.
pub open spec fn classified_index(word: Seq<char>, pv: Seq<(Category, Seq<Seq<char>>)>, n: nat) -> int {
    best_category(word, pv, n, CONCRETE_COUNT as nat)
}

/// The samples a classification reports.
pub open spec fn classified_similar(
    word: Seq<char>,
    pv: Seq<(Category, Seq<Seq<char>>)>,
    n: nat,
) -> Seq<Seq<char>> {
    let i = classified_index(word, pv, n);
    pick(row_samples(pv, concrete_at(i)), category_selection(word, pv, i, n))
}

/// What `sample_similar_word_for_category` returns, `None` standing for an error.
pub open spec fn similar_words(
    word: Seq<char>,
    pv: Seq<(Category, Seq<Seq<char>>)>,
    c: Category,
    n: nat,
) -> Option<Seq<Seq<char>>> {
    if c == Category::Inferred {
        if classifiable(word, pv, n) {
            Some(classified_similar(word, pv, n))
        } else {
            None
        }
    } else if n == 0 || row_samples(pv, c).len() == 0 {
        None
    } else {
        Some(pick(row_samples(pv, c), ranked(word, row_samples(pv, c), n)))
    }
}

/// Index of the first pool row for `c`.
fn find_row(pool: &FakeWordPool, c: Category) -> (r: Option<usize>)
    ensures
        match r {
            None => row_index_from(pool_view(pool@), c, 0) is None,
            Some(i) => row_index_from(pool_view(pool@), c, 0) == Some(i as int) && i < pool.len(),
        },
{
    let ghost pv = pool_view(pool@);
    let mut i: usize = 0;
    while i < pool.len()
        invariant
            i <= pool.len(),
            pv == pool_view(pool@),
            row_index_from(pv, c, 0) == row_index_from(pv, c, i as nat),
        decreases pool.len() - i,
    {
        if pool[i].0 == c {
            return Some(i);
        }
        i = i + 1;
    }
    None
}

/// Copies of the samples at the given indices.
fn pick_strings(samples: &Vec<String>, sel: &Vec<usize>) -> (r: Vec<String>)
    requires
        forall|t: int| 0 <= t < sel.len() ==> sel@[t] < samples.len(),
    ensures
        strings_view(r@) == pick(strings_view(samples@), sel@.map_values(|i: usize| i as int)),
        r.len() == sel.len(),
{
    let mut r: Vec<String> = Vec::new();
    let mut t: usize = 0;
    while t < sel.len()
        invariant
            t <= sel.len(),
            forall|u: int| 0 <= u < sel.len() ==> sel@[u] < samples.len(),
            r.len() == t,
            strings_view(r@) == pick(
                strings_view(samples@),
                sel@.map_values(|i: usize| i as int),
            ).take(t as int),
        decreases sel.len() - t,
    {
        let ghost before = r@;
        r.push(samples[sel[t]].clone());
        proof {
            assert(r@[t as int]@ == strings_view(samples@)[sel@[t as int] as int]);
            assert(sel@.map_values(|i: usize| i as int)[t as int] == sel@[t as int] as int);
        }
        t = t + 1;
        proof {
            assert(strings_view(r@) =~= pick(
                strings_view(samples@),
                sel@.map_values(|i: usize| i as int),
            ).take(t as int));
        }
    }
    proof {
        assert(pick(strings_view(samples@), sel@.map_values(|i: usize| i as int)).take(
            t as int,
        ) =~= pick(strings_view(samples@), sel@.map_values(|i: usize| i as int)));
    }
    r
}

/// Sum of the similarities of the selected samples to `word`.
fn selection_sum(word: &String, samples: &Vec<String>, sel: &Vec<usize>) -> (r: u128)
    requires
        forall|t: int| 0 <= t < sel.len() ==> sel@[t] < samples.len(),
    ensures
        r == sum_similarity(word@, strings_view(samples@), sel@.map_values(|i: usize| i as int)),
{
    let ghost sv = strings_view(samples@);
    let ghost sel_v = sel@.map_values(|i: usize| i as int);
    let mut sum: u128 = 0;
    let mut t: usize = 0;
    while t < sel.len()
        invariant
            t <= sel.len(),
            sv == strings_view(samples@),
            sel_v == sel@.map_values(|i: usize| i as int),
            forall|u: int| 0 <= u < sel.len() ==> sel@[u] < samples.len(),
            sum == sum_similarity(word@, sv, sel_v.take(t as int)),
            sum <= t * SIMILARITY_SCALE,
        decreases sel.len() - t,
    {
        let s = similarity_score(samples[sel[t]].as_str(), word.as_str());
        proof {
            assert(sel_v.take(t + 1).drop_last() =~= sel_v.take(t as int));
        }
        sum = sum + s as u128;
        t = t + 1;
    }
    proof {
        assert(sel_v.take(t as int) =~= sel_v);
    }
    sum
}

/// The samples of `samples` most similar to `word`, best first, at most `n`
/// of them, none equal to `word`.
fn similar_in_row(word: &String, samples: &Vec<String>, n: usize) -> (r: Vec<String>)
    ensures
        strings_view(r@) == pick(strings_view(samples@), ranked(word@, strings_view(samples@), n as nat)),
        r.len() <= n,
{
    let idx = top_similar_indices(word, samples, n);
    proof {
        lemma_ranked_eligible(word@, strings_view(samples@), similarities(word@, strings_view(samples@)), n as nat);
        assert(idx@.len() == idx@.map_values(|i: usize| i as int).len());
    }
    pick_strings(samples, &idx)
}

/// The top `top_words_num` samples of `category` most similar to `word`, best
/// first, never `word` itself. For `Inferred`, the samples of the category
/// `classify_word` picks. An error when there is nothing to rank.
pub fn sample_similar_word_for_category(
    word: &str,
    category: Category,
    pool: &FakeWordPool,
    top_words_num: usize,
) -> (r: Result<Vec<String>, MaskerError>)
    ensures
        match r {
            Ok(v) => similar_words(word@, pool_view(pool@), category, top_words_num as nat) == Some(
                strings_view(v@),
            ) && all_distinct(strings_view(v@)),
            Err(e) => similar_words(word@, pool_view(pool@), category, top_words_num as nat) is None
                && e is SimilarityError,
        },
{
    if category == Category::Inferred {
        return match classify_word(word, pool, top_words_num) {
            Ok(wc) => Ok(wc.similar),
            Err(e) => Err(e),
        };
    }
    let ghost pv = pool_view(pool@);
    if top_words_num == 0 {
        return Err(MaskerError::SimilarityError(String::from_str("nothing to rank")));
    }
    match find_row(pool, category) {
        None => Err(MaskerError::SimilarityError(String::from_str("no samples for category"))),
        Some(ri) => {
            let row = &pool[ri].1;
            proof {
                assert(pv[ri as int].1 == strings_view(row@));
            }
            if row.len() == 0 {
                Err(MaskerError::SimilarityError(String::from_str("no samples for category")))
            } else {
                let w = word.to_owned();
                proof {
                    lemma_pick_distinct(word@, strings_view(row@), top_words_num as nat);
                }
                Ok(similar_in_row(&w, row, top_words_num))
            }
        },
    }
}

/// Infers the category of `word`: for each concrete category, the mean
/// similarity of its `top_words_num` best samples; the highest mean wins, the
/// earliest category a tie. An error when `top_words_num` is zero or a
/// category has no sample to rank.
pub fn classify_word(word: &str, pool: &FakeWordPool, top_words_num: usize) -> (r: Result<
    WordClassification,
    MaskerError,
>)
    ensures
        r is Ok <==> classifiable(word@, pool_view(pool@), top_words_num as nat),
        r matches Ok(wc) ==> {
            &&& wc.category == concrete_at(classified_index(word@, pool_view(pool@), top_words_num as nat))
            &&& wc.category != Category::Inferred
            &&& strings_view(wc.similar@) == classified_similar(word@, pool_view(pool@), top_words_num as nat)
            &&& all_distinct(strings_view(wc.similar@))
        },
        r matches Err(e) ==> e is SimilarityError,
{
    let ghost pv = pool_view(pool@);
    let ghost n = top_words_num as nat;
    if top_words_num == 0 {
        return Err(MaskerError::SimilarityError(String::from_str("nothing to rank")));
    }
    let w = word.to_owned();
    let mut best_i: usize = 0;
    let mut best_mean: u128 = 0;
    let mut best_words: Vec<String> = Vec::new();
    let mut i: usize = 0;
    while i < CONCRETE_COUNT
        invariant
            1 <= n,
            n == top_words_num,
            pv == pool_view(pool@),
            w@ == word@,
            i <= CONCRETE_COUNT,
            forall|k: int|
                0 <= k < i ==> {
                    &&& #[trigger] row_index_from(pv, concrete_at(k), 0) is Some
                    &&& has_other_sample(word@, row_samples(pv, concrete_at(k)))
                    &&& category_selection(word@, pv, k, n).len() > 0
                },
            i > 0 ==> {
                &&& best_i as int == best_category(word@, pv, n, i as nat)
                &&& best_i < i
                &&& best_mean as int == category_mean(word@, pv, best_i as int, n)
                &&& strings_view(best_words@) == pick(
                    row_samples(pv, concrete_at(best_i as int)),
                    category_selection(word@, pv, best_i as int, n),
                )
            },
        decreases CONCRETE_COUNT - i,
    {
        let cat = Category::concrete(i);
        let ri = match find_row(pool, cat) {
            None => {
                return Err(MaskerError::SimilarityError(String::from_str("no samples for category")));
            },
            Some(ri) => ri,
        };
        let row = &pool[ri].1;
        proof {
            assert(pv[ri as int].1 == strings_view(row@));
            assert(row_samples(pv, cat) == strings_view(row@));
        }
        let idx = top_similar_indices(&w, row, top_words_num);
        if idx.len() == 0 {
            proof {
                lemma_ranked_nonempty(word@, strings_view(row@), similarities(word@, strings_view(row@)), n);
            }
            return Err(MaskerError::SimilarityError(String::from_str("no samples to rank")));
        }
        proof {
            lemma_ranked_nonempty(word@, strings_view(row@), similarities(word@, strings_view(row@)), n);
        }
        let sum = selection_sum(&w, row, &idx);
        let mean = sum / (idx.len() as u128);
        if i == 0 || mean > best_mean {
            best_i = i;
            best_mean = mean;
            best_words = pick_strings(row, &idx);
        }
        i = i + 1;
    }
    proof {
        lemma_pick_distinct(word@, row_samples(pv, concrete_at(best_i as int)), n);
    }
    Ok(WordClassification { category: Category::concrete(best_i), similar: best_words })
}

proof fn lemma_row_index_in_range(pv: Seq<(Category, Seq<Seq<char>>)>, c: Category, i: nat)
    ensures
        row_index_from(pv, c, i) matches Some(r) ==> i <= r < pv.len() && pv[r].0 == c,
    decreases pv.len() - i,
{
    if i < pv.len() {
        lemma_row_index_in_range(pv, c, i + 1);
    }
}

/// Whether `s` is one of the samples of the pool.
pub open spec fn in_pool(pv: Seq<(Category, Seq<Seq<char>>)>, s: Seq<char>) -> bool {
    exists|i: int, j: int| 0 <= i < pv.len() && 0 <= j < pv[i].1.len() && pv[i].1[j] == s
}

proof fn lemma_pick_ranked(word: Seq<char>, pv: Seq<(Category, Seq<Seq<char>>)>, c: Category, n: nat)
    ensures
        forall|k: int|
            0 <= k < pick(row_samples(pv, c), ranked(word, row_samples(pv, c), n)).len() ==> {
                &&& #[trigger] pick(row_samples(pv, c), ranked(word, row_samples(pv, c), n))[k]
                    != word
                &&& in_pool(pv, pick(row_samples(pv, c), ranked(word, row_samples(pv, c), n))[k])
            },
{
    let row = row_samples(pv, c);
    let sel = ranked(word, row, n);
    lemma_ranked_eligible(word, row, similarities(word, row), n);
    lemma_row_index_in_range(pv, c, 0);
    assert forall|k: int| 0 <= k < pick(row, sel).len() implies {
        &&& #[trigger] pick(row, sel)[k] != word
        &&& in_pool(pv, pick(row, sel)[k])
    } by {
        assert(eligible(word, row, sel[k]));
        let ri = row_index_from(pv, c, 0)->0;
        assert(pv[ri].1[sel[k]] == pick(row, sel)[k]);
    }
}

/// A similarity query never offers the queried word itself, whatever the
/// category, and offers only samples of the pool.
pub proof fn lemma_similar_words_exclude_word(
    word: Seq<char>,
    pv: Seq<(Category, Seq<Seq<char>>)>,
    c: Category,
    n: nat,
)
    ensures
        similar_words(word, pv, c, n) matches Some(ws) ==> forall|k: int|
            0 <= k < ws.len() ==> #[trigger] ws[k] != word && in_pool(pv, ws[k]),
{
    if c == Category::Inferred {
        let i = classified_index(word, pv, n);
        lemma_pick_ranked(word, pv, concrete_at(i), n);
    } else {
        lemma_pick_ranked(word, pv, c, n);
    }
}

proof fn lemma_best_category(
    word: Seq<char>,
    pv: Seq<(Category, Seq<Seq<char>>)>,
    n: nat,
    upto: nat,
)
    requires
        upto >= 1,
    ensures
        0 <= best_category(word, pv, n, upto) < upto,
        forall|i: int|
            0 <= i < upto ==> #[trigger] category_mean(word, pv, i, n) <= category_mean(
                word,
                pv,
                best_category(word, pv, n, upto),
                n,
            ),
        forall|i: int|
            0 <= i < best_category(word, pv, n, upto) ==> #[trigger] category_mean(word, pv, i, n)
                < category_mean(word, pv, best_category(word, pv, n, upto), n),
    decreases upto,
{
    if upto > 1 {
        lemma_best_category(word, pv, n, (upto - 1) as nat);
    }
}

/// A classification picks a concrete category, never `Inferred`: one whose
/// mean similarity no other category exceeds, and that every earlier category
/// falls short of. It depends on the word, the pool and `n` alone.
pub proof fn lemma_classification_is_best(word: Seq<char>, pv: Seq<(Category, Seq<Seq<char>>)>, n: nat)
    ensures
        0 <= classified_index(word, pv, n) < CONCRETE_COUNT,
        concrete_at(classified_index(word, pv, n)) != Category::Inferred,
        forall|i: int|
            0 <= i < CONCRETE_COUNT ==> #[trigger] category_mean(word, pv, i, n) <= category_mean(
                word,
                pv,
                classified_index(word, pv, n),
                n,
            ),
        forall|i: int|
            0 <= i < classified_index(word, pv, n) ==> #[trigger] category_mean(word, pv, i, n)
                < category_mean(word, pv, classified_index(word, pv, n), n),
{
    lemma_best_category(word, pv, n, CONCRETE_COUNT as nat);
}

} // verus!
