use wordle::round::GuessError;
use wordle::round::Round;
use wordle::round::RoundOutcome;
use wordle::stats::GameState;
use wordle::words::WordSet;

fn w(s: &str) -> Vec<u8> {
    s.as_bytes().to_vec()
}

fn set(words: &[&str]) -> WordSet {
    let mut s = WordSet::new();
    for word in words {
        assert!(s.add(&w(word)));
    }
    s
}

#[test]
fn round_needs_an_acceptable_answer() {
    let acc = set(&["CRANE", "AUDIO"]);
    assert!(Round::start_round(&w("CRANE"), false, &acc).is_some());
    assert!(Round::start_round(&w("ZZZZZ"), false, &acc).is_none());
}

#[test]
fn winning_on_attempt_k_reports_won_k() {
    let acc = set(&["CRANE", "AUDIO", "PUFFY"]);
    let mut stats = GameState::new();
    let mut round = Round::start_round(&w("CRANE"), false, &acc).unwrap();
    assert!(round.submit_guess(&w("AUDIO"), &acc, &mut stats).is_ok());
    assert!(round.submit_guess(&w("PUFFY"), &acc, &mut stats).is_ok());
    assert!(round.submit_guess(&w("CRANE"), &acc, &mut stats).is_ok());
    assert_eq!(round.outcome(), Some(RoundOutcome::Won(3)));
    assert_eq!(stats.attempts, 3);
}

#[test]
fn six_misses_lose_the_round() {
    let acc = set(&["CRANE", "AUDIO", "PUFFY", "BLIMP", "GHOST", "WRECK", "JUMBO"]);
    let mut stats = GameState::new();
    let mut round = Round::start_round(&w("CRANE"), false, &acc).unwrap();
    for miss in ["AUDIO", "PUFFY", "BLIMP", "GHOST", "WRECK", "JUMBO"] {
        assert!(round.outcome().is_none());
        assert!(round.submit_guess(&w(miss), &acc, &mut stats).is_ok());
    }
    assert_eq!(round.outcome(), Some(RoundOutcome::Lost));
    assert_eq!(stats.attempts, 6);
}

#[test]
fn unknown_words_cost_no_attempt() {
    let acc = set(&["CRANE", "AUDIO"]);
    let mut stats = GameState::new();
    let mut round = Round::start_round(&w("CRANE"), false, &acc).unwrap();
    assert_eq!(
        round.submit_guess(&w("QQQQQ"), &acc, &mut stats),
        Err(GuessError::NotInWordList)
    );
    assert_eq!(stats.attempts, 0);
    assert!(round.outcome().is_none());
}

#[test]
fn hard_mode_rejections_cost_no_attempt() {
    // CRATE against CRANE pins C, R, A and E; CRABS once more moves the
    // pinned E, so in hard mode it must be rejected, attempt after attempt.
    let acc = set(&["CRANE", "CRATE", "CRABS"]);
    let mut stats = GameState::new();
    let mut round = Round::start_round(&w("CRANE"), true, &acc).unwrap();
    assert!(round.submit_guess(&w("CRATE"), &acc, &mut stats).is_ok());
    for _ in 0..5 {
        assert_eq!(
            round.submit_guess(&w("CRABS"), &acc, &mut stats),
            Err(GuessError::HardModeConflict)
        );
    }
    assert_eq!(stats.attempts, 1);
    assert!(round.outcome().is_none());
}

#[test]
fn hard_mode_keeps_present_letters() {
    // NOBLE against CRANE marks N and E; GHOST drops them both.
    let acc = set(&["CRANE", "NOBLE", "GHOST", "NERVE"]);
    let mut stats = GameState::new();
    let mut round = Round::start_round(&w("CRANE"), true, &acc).unwrap();
    assert!(round.submit_guess(&w("NOBLE"), &acc, &mut stats).is_ok());
    assert_eq!(
        round.submit_guess(&w("GHOST"), &acc, &mut stats),
        Err(GuessError::HardModeConflict)
    );
    assert!(round.submit_guess(&w("NERVE"), &acc, &mut stats).is_ok());
    assert_eq!(stats.attempts, 2);
}

#[test]
fn guesses_are_tallied_per_round() {
    let acc = set(&["CRANE", "AUDIO"]);
    let mut stats = GameState::new();
    let mut round = Round::start_round(&w("CRANE"), false, &acc).unwrap();
    round.submit_guess(&w("AUDIO"), &acc, &mut stats).unwrap();
    round.submit_guess(&w("CRANE"), &acc, &mut stats).unwrap();
    stats.record_round(true);
    assert_eq!(stats.total_rounds, 1);
    assert_eq!(stats.successful_games, 1);
    assert_eq!(stats.attempts, 2);
    let top = stats.top_words(5);
    assert_eq!(top.len(), 2);
}
