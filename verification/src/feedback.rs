//! Scoring of a guess against the answer: per-letter verdicts.
//!
//! The classification runs in two passes. The first pass marks every exact
//! positional match and consumes the matched answer letter. The second pass
//! walks the remaining positions left to right and, for each guess letter
//! still present among the unconsumed answer letters, consumes the leftmost
//! such occurrence and marks the position `Present`; otherwise it marks it
//! `Absent`. Consumption guarantees that a letter of the answer backs at most
//! one verdict.

use vstd::prelude::*;

verus! {

use crate::is_letter;

/// Per-position classification of one guess letter against the answer.
#[derive(Clone, Copy, PartialEq, Eq, Debug, Structural)]
pub enum Verdict {
    Correct,
    Present,
    Absent,
}

/// The byte that overwrites a consumed answer letter; never a letter itself.
pub const CONSUMED: u8 = 95;

/// Every byte of `s` is an uppercase letter.
pub open spec fn all_letters(s: Seq<u8>) -> bool {
    forall|i: int| 0 <= i < s.len() ==> is_letter(s[i])
}

/// The answer letters left after the first pass: every position matched
/// exactly by the guess is consumed.
pub open spec fn rem_after_exact(guess: Seq<u8>, answer: Seq<u8>) -> Seq<u8> {
    Seq::new(answer.len(), |i: int| if guess[i] == answer[i] { CONSUMED } else { answer[i] })
}

/// Leftmost index at or after `i` where `s` holds `c`; `s.len()` if none.
pub open spec fn first_index_from(s: Seq<u8>, c: u8, i: int) -> int
    decreases s.len() - i,
{
    if i < 0 || i >= s.len() {
        s.len() as int
    } else if s[i] == c {
        i
    } else {
        first_index_from(s, c, i + 1)
    }
}

/// The second pass from position `i` on: verdicts for positions `i..`, with
/// `rem` holding the answer letters not yet consumed.
pub open spec fn scan(guess: Seq<u8>, answer: Seq<u8>, rem: Seq<u8>, i: int) -> Seq<Verdict>
    decreases guess.len() - i,
{
    if i < 0 || i >= guess.len() {
        Seq::empty()
    } else if guess[i] == answer[i] {
        seq![Verdict::Correct] + scan(guess, answer, rem, i + 1)
    } else {
        let p = first_index_from(rem, guess[i], 0);
        if p < rem.len() {
            seq![Verdict::Present] + scan(guess, answer, rem.update(p, CONSUMED), i + 1)
        } else {
            seq![Verdict::Absent] + scan(guess, answer, rem, i + 1)
        }
    }
}

/// What `score` returns for a guess/answer pair of equal length.
pub open spec fn score_spec(guess: Seq<u8>, answer: Seq<u8>) -> Seq<Verdict> {
    scan(guess, answer, rem_after_exact(guess, answer), 0)
}

/// Leftmost occurrence of `c` in `s`, or `s.len()` if `s` does not hold `c`.
fn find_first(s: &Vec<u8>, c: u8) -> (p: usize)
    ensures
        p as int == first_index_from(s@, c, 0),
        p <= s@.len(),
        p < s@.len() ==> s@[p as int] == c,
{
    let mut j: usize = 0;
    while j < s.len()
        invariant
            0 <= j <= s@.len(),
            first_index_from(s@, c, 0) == first_index_from(s@, c, j as int),
        decreases s@.len() - j,
    {
        if s[j] == c {
            assert(first_index_from(s@, c, j as int) == j);
            return j;
        }
        assert(first_index_from(s@, c, j as int) == first_index_from(s@, c, j + 1));
        j = j + 1;
    }
    assert(first_index_from(s@, c, j as int) == s@.len());
    j
}

/// Classify `guess` against `answer`, position by position.
pub fn score(guess: &Vec<u8>, answer: &Vec<u8>) -> (r: Vec<Verdict>)
    requires
        guess@.len() == answer@.len(),
        all_letters(guess@),
        all_letters(answer@),
    ensures
        r@ == score_spec(guess@, answer@),
        r@.len() == guess@.len(),
        forall|i: int| 0 <= i < r@.len() ==> (r@[i] == Verdict::Correct <==> guess@[i] == answer@[i]),
{
    let n = guess.len();
    let mut rem: Vec<u8> = Vec::new();
    let mut i: usize = 0;
    while i < n
        invariant
            0 <= i <= n,
            n == guess@.len(),
            n == answer@.len(),
            rem@.len() == i,
            forall|j: int| 0 <= j < i ==> rem@[j] == rem_after_exact(guess@, answer@)[j],
        decreases n - i,
    {
        if guess[i] == answer[i] {
            rem.push(CONSUMED);
        } else {
            rem.push(answer[i]);
        }
        i = i + 1;
    }
    proof {
        assert(rem@ =~= rem_after_exact(guess@, answer@));
    }

    let mut r: Vec<Verdict> = Vec::new();
    let mut i: usize = 0;
    while i < n
        invariant
            0 <= i <= n,
            n == guess@.len(),
            n == answer@.len(),
            rem@.len() == n,
            r@.len() == i,
            score_spec(guess@, answer@) == r@ + scan(guess@, answer@, rem@, i as int),
            forall|j: int| 0 <= j < i ==> (r@[j] == Verdict::Correct <==> guess@[j] == answer@[j]),
        decreases n - i,
    {
        let ghost pre = r@;
        let ghost rem_pre = rem@;
        if guess[i] == answer[i] {
            proof {
                assert(scan(guess@, answer@, rem@, i as int) =~= seq![Verdict::Correct] + scan(
                    guess@,
                    answer@,
                    rem@,
                    i + 1,
                ));
            }
            r.push(Verdict::Correct);
            proof {
                assert(pre.push(Verdict::Correct) + scan(guess@, answer@, rem@, i + 1) =~= pre + (
                seq![Verdict::Correct] + scan(guess@, answer@, rem@, i + 1)));
            }
        } else {
            let p = find_first(&rem, guess[i]);
            if p < rem.len() {
                proof {
                    assert(scan(guess@, answer@, rem@, i as int) =~= seq![Verdict::Present] + scan(
                        guess@,
                        answer@,
                        rem@.update(p as int, CONSUMED),
                        i + 1,
                    ));
                }
                rem[p] = CONSUMED;
                r.push(Verdict::Present);
                proof {
                    assert(pre.push(Verdict::Present) + scan(guess@, answer@, rem@, i + 1) =~= pre
                        + (seq![Verdict::Present] + scan(guess@, answer@, rem@, i + 1)));
                }
            } else {
                proof {
                    assert(scan(guess@, answer@, rem@, i as int) =~= seq![Verdict::Absent] + scan(
                        guess@,
                        answer@,
                        rem@,
                        i + 1,
                    ));
                }
                r.push(Verdict::Absent);
                proof {
                    assert(pre.push(Verdict::Absent) + scan(guess@, answer@, rem@, i + 1) =~= pre
                        + (seq![Verdict::Absent] + scan(guess@, answer@, rem@, i + 1)));
                }
            }
        }
        i = i + 1;
    }
    proof {
        assert(r@ + scan(guess@, answer@, rem@, n as int) =~= r@);
    }
    r
}

/// Occurrences of `c` in `s` at positions `i` and later.
pub open spec fn count_from(s: Seq<u8>, c: u8, i: int) -> nat
    decreases s.len() - i,
{
    if i < 0 || i >= s.len() {
        0
    } else {
        (if s[i] == c {
            1nat
        } else {
            0nat
        }) + count_from(s, c, i + 1)
    }
}

/// Occurrences of `c` anywhere in `s`.
pub open spec fn count_of(s: Seq<u8>, c: u8) -> nat {
    count_from(s, c, 0)
}

/// Positions `j` of the verdict suffix `v` (which describes guess positions
/// `i..`) where the verdict is `Present` and the guess letter is `c`.
pub open spec fn present_count_at(guess: Seq<u8>, v: Seq<Verdict>, c: u8, i: int) -> nat
    decreases v.len(),
{
    if v.len() == 0 {
        0
    } else {
        (if v[0] == Verdict::Present && guess[i] == c {
            1nat
        } else {
            0nat
        }) + present_count_at(guess, v.drop_first(), c, i + 1)
    }
}

/// Positions where guess and answer agree on the letter `c`: the `Correct`
/// verdicts that `c` earns.
pub open spec fn correct_count_from(guess: Seq<u8>, answer: Seq<u8>, c: u8, i: int) -> nat
    decreases answer.len() - i,
{
    if i < 0 || i >= answer.len() {
        0
    } else {
        (if guess[i] == answer[i] && answer[i] == c {
            1nat
        } else {
            0nat
        }) + correct_count_from(guess, answer, c, i + 1)
    }
}

/// Verdicts of kind `t` in `v`.
pub open spec fn verdict_count(v: Seq<Verdict>, t: Verdict) -> nat
    decreases v.len(),
{
    if v.len() == 0 {
        0
    } else {
        (if v[0] == t {
            1nat
        } else {
            0nat
        }) + verdict_count(v.drop_first(), t)
    }
}

proof fn lemma_verdict_count_le_len(v: Seq<Verdict>, t: Verdict)
    ensures
        verdict_count(v, t) <= v.len(),
    decreases v.len(),
{
    if v.len() > 0 {
        lemma_verdict_count_le_len(v.drop_first(), t);
    }
}

proof fn lemma_first_index_bounds(s: Seq<u8>, c: u8, i: int)
    requires
        0 <= i <= s.len(),
    ensures
        i <= first_index_from(s, c, i) <= s.len(),
        first_index_from(s, c, i) < s.len() ==> s[first_index_from(s, c, i)] == c,
    decreases s.len() - i,
{
    if i < s.len() && s[i] != c {
        lemma_first_index_bounds(s, c, i + 1);
    }
}

proof fn lemma_count_update(s: Seq<u8>, c: u8, p: int, x: u8, i: int)
    requires
        0 <= p < s.len(),
        0 <= i <= s.len(),
    ensures
        count_from(s.update(p, x), c, i) == count_from(s, c, i) + (if i <= p && x == c {
            1int
        } else {
            0int
        }) - (if i <= p && s[p] == c {
            1int
        } else {
            0int
        }),
    decreases s.len() - i,
{
    if i < s.len() {
        lemma_count_update(s, c, p, x, i + 1);
    }
}

proof fn lemma_scan_present_bound(guess: Seq<u8>, answer: Seq<u8>, rem: Seq<u8>, i: int, c: u8)
    requires
        0 <= i <= guess.len(),
        guess.len() == answer.len(),
        c != CONSUMED,
    ensures
        present_count_at(guess, scan(guess, answer, rem, i), c, i) <= count_of(rem, c),
    decreases guess.len() - i,
{
    if i >= guess.len() {
    } else if guess[i] == answer[i] {
        lemma_scan_present_bound(guess, answer, rem, i + 1, c);
        let tail = scan(guess, answer, rem, i + 1);
        assert((seq![Verdict::Correct] + tail).drop_first() =~= tail);
    } else {
        let p = first_index_from(rem, guess[i], 0);
        lemma_first_index_bounds(rem, guess[i], 0);
        if p < rem.len() {
            let rem2 = rem.update(p, CONSUMED);
            lemma_scan_present_bound(guess, answer, rem2, i + 1, c);
            lemma_count_update(rem, c, p, CONSUMED, 0);
            let tail = scan(guess, answer, rem2, i + 1);
            assert((seq![Verdict::Present] + tail).drop_first() =~= tail);
        } else {
            lemma_scan_present_bound(guess, answer, rem, i + 1, c);
            let tail = scan(guess, answer, rem, i + 1);
            assert((seq![Verdict::Absent] + tail).drop_first() =~= tail);
        }
    }
}

proof fn lemma_rem_counts(guess: Seq<u8>, answer: Seq<u8>, c: u8, i: int)
    requires
        guess.len() == answer.len(),
        0 <= i <= answer.len(),
        c != CONSUMED,
    ensures
        count_from(rem_after_exact(guess, answer), c, i) + correct_count_from(guess, answer, c, i)
            == count_from(answer, c, i),
    decreases answer.len() - i,
{
    if i < answer.len() {
        lemma_rem_counts(guess, answer, c, i + 1);
    }
}

proof fn lemma_scan_all_correct(w: Seq<u8>, rem: Seq<u8>, i: int)
    requires
        0 <= i <= w.len(),
    ensures
        scan(w, w, rem, i).len() == w.len() - i,
        forall|j: int| 0 <= j < w.len() - i ==> scan(w, w, rem, i)[j] == Verdict::Correct,
    decreases w.len() - i,
{
    if i < w.len() {
        lemma_scan_all_correct(w, rem, i + 1);
        let tail = scan(w, w, rem, i + 1);
        assert(scan(w, w, rem, i) =~= seq![Verdict::Correct] + tail);
        assert forall|j: int| 0 <= j < w.len() - i implies scan(w, w, rem, i)[j]
            == Verdict::Correct by {
            if j > 0 {
                assert(scan(w, w, rem, i)[j] == tail[j - 1]);
            }
        }
    }
}

/// A guess equal to the answer earns `Correct` at every position.
pub proof fn lemma_score_all_correct(w: Seq<u8>)
    ensures
        score_spec(w, w).len() == w.len(),
        forall|j: int| 0 <= j < w.len() ==> score_spec(w, w)[j] == Verdict::Correct,
{
    lemma_scan_all_correct(w, rem_after_exact(w, w), 0);
}

proof fn lemma_scan_correct_iff(guess: Seq<u8>, answer: Seq<u8>, rem: Seq<u8>, i: int)
    requires
        0 <= i <= guess.len(),
        guess.len() == answer.len(),
    ensures
        scan(guess, answer, rem, i).len() == guess.len() - i,
        forall|j: int|
            0 <= j < guess.len() - i ==> (scan(guess, answer, rem, i)[j] == Verdict::Correct
                <==> guess[i + j] == answer[i + j]),
    decreases guess.len() - i,
{
    if i < guess.len() {
        if guess[i] == answer[i] {
            lemma_scan_correct_iff(guess, answer, rem, i + 1);
        } else {
            let p = first_index_from(rem, guess[i], 0);
            if p < rem.len() {
                lemma_scan_correct_iff(guess, answer, rem.update(p, CONSUMED), i + 1);
            } else {
                lemma_scan_correct_iff(guess, answer, rem, i + 1);
            }
        }
    }
}

/// The scored sequence has the guess's length, and a position is `Correct`
/// exactly where guess and answer agree.
pub proof fn lemma_score_correct_iff(guess: Seq<u8>, answer: Seq<u8>)
    requires
        guess.len() == answer.len(),
    ensures
        score_spec(guess, answer).len() == guess.len(),
        forall|j: int|
            0 <= j < guess.len() ==> (score_spec(guess, answer)[j] == Verdict::Correct <==> guess[j]
                == answer[j]),
{
    lemma_scan_correct_iff(guess, answer, rem_after_exact(guess, answer), 0);
}

/// For each letter, the `Present` verdicts it earns never exceed its
/// occurrences in the answer minus its exact matches; and `Correct` verdicts
/// never exceed the word length.
pub proof fn lemma_score_letter_budget(guess: Seq<u8>, answer: Seq<u8>, c: u8)
    requires
        guess.len() == answer.len(),
        is_letter(c),
    ensures
        present_count_at(guess, score_spec(guess, answer), c, 0) + correct_count_from(
            guess,
            answer,
            c,
            0,
        ) <= count_of(answer, c),
        verdict_count(score_spec(guess, answer), Verdict::Correct) <= guess.len(),
{
    lemma_scan_present_bound(guess, answer, rem_after_exact(guess, answer), 0, c);
    lemma_rem_counts(guess, answer, c, 0);
    lemma_score_correct_iff(guess, answer);
    lemma_verdict_count_le_len(score_spec(guess, answer), Verdict::Correct);
}

} // verus!
