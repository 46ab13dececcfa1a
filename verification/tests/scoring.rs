use wordle::feedback::score;
use wordle::feedback::Verdict;

fn w(s: &str) -> Vec<u8> {
    s.as_bytes().to_vec()
}

#[test]
fn same_word_scores_all_correct() {
    let r = score(&w("CRANE"), &w("CRANE"));
    assert_eq!(r, vec![Verdict::Correct; 5]);
}

#[test]
fn score_has_word_length() {
    let r = score(&w("AUDIO"), &w("CRANE"));
    assert_eq!(r.len(), 5);
}

#[test]
fn all_absent_when_no_letter_shared() {
    let r = score(&w("PUFFY"), &w("CRANE"));
    assert_eq!(r, vec![Verdict::Absent; 5]);
}

#[test]
fn duplicate_letters_consume_leftmost() {
    // answer ALLOY, guess LLAMA: the first L is present (the answer's
    // unmatched L at slot two is consumed), the second L is an exact match,
    // the first A is present, and M plus the second A find nothing left.
    let r = score(&w("LLAMA"), &w("ALLOY"));
    assert_eq!(
        r,
        vec![
            Verdict::Present,
            Verdict::Correct,
            Verdict::Present,
            Verdict::Absent,
            Verdict::Absent,
        ]
    );
}

#[test]
fn surplus_copies_of_a_letter_are_absent() {
    // answer ALLOY holds two Ls; only the two exact matches earn a verdict.
    let r = score(&w("LLLLL"), &w("ALLOY"));
    assert_eq!(
        r,
        vec![
            Verdict::Absent,
            Verdict::Correct,
            Verdict::Correct,
            Verdict::Absent,
            Verdict::Absent,
        ]
    );
}

#[test]
fn exact_matches_beat_present_matches() {
    // answer ABBEY, guess BABES: both Bs of the answer are spoken for by the
    // exact match and the displaced first B; the S finds nothing.
    let r = score(&w("BABES"), &w("ABBEY"));
    assert_eq!(
        r,
        vec![
            Verdict::Present,
            Verdict::Present,
            Verdict::Correct,
            Verdict::Correct,
            Verdict::Absent,
        ]
    );
}

#[test]
fn a_letter_earns_no_more_verdicts_than_the_answer_holds() {
    // four Es guessed against the three Es of GEESE: only three earn a
    // verdict, the fourth is absent
    let r = score(&w("EEEEG"), &w("GEESE"));
    let earned = r
        .iter()
        .zip("EEEEG".bytes())
        .filter(|(v, b)| *b == b'E' && **v != Verdict::Absent)
        .count();
    assert_eq!(earned, 3);
}
