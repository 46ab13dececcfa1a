use wordle::codec::load_state;
use wordle::codec::parse_state;
use wordle::codec::serialize_state;
use wordle::stats::GameState;

fn w(s: &str) -> Vec<u8> {
    s.as_bytes().to_vec()
}

#[test]
fn fresh_session_is_all_zero() {
    let g = GameState::new();
    assert_eq!(g.total_rounds, 0);
    assert_eq!(g.successful_games, 0);
    assert_eq!(g.attempts, 0);
    assert!(g.used_words.is_empty());
}

#[test]
fn add_word_counts_each_use() {
    let mut g = GameState::new();
    g.add_word(&w("CRANE"));
    g.add_word(&w("BRAVE"));
    g.add_word(&w("CRANE"));
    assert_eq!(g.used_words.len(), 2);
    let top = g.top_words(5);
    assert_eq!(top[0].word, w("CRANE"));
    assert_eq!(top[0].count, 2);
    assert_eq!(top[1].word, w("BRAVE"));
    assert_eq!(top[1].count, 1);
}

#[test]
fn ranking_breaks_frequency_ties_alphabetically() {
    // equal counts are ordered by the word, so the ranking is the same
    // however the words arrived
    let mut g = GameState::new();
    for word in ["SNAKE", "CRANE", "BRAVE", "CRANE", "BRAVE", "CRANE", "BRAVE"] {
        g.add_word(&w(word));
    }
    let top = g.top_words(5);
    assert_eq!(top.len(), 3);
    assert_eq!(top[0].word, w("BRAVE"));
    assert_eq!(top[0].count, 3);
    assert_eq!(top[1].word, w("CRANE"));
    assert_eq!(top[1].count, 3);
    assert_eq!(top[2].word, w("SNAKE"));
    assert_eq!(top[2].count, 1);

    let mut h = GameState::new();
    for word in ["CRANE", "CRANE", "CRANE", "BRAVE", "BRAVE", "BRAVE", "SNAKE"] {
        h.add_word(&w(word));
    }
    let again = h.top_words(5);
    assert_eq!(again.len(), 3);
    for (a, b) in top.iter().zip(again.iter()) {
        assert_eq!(a.word, b.word);
        assert_eq!(a.count, b.count);
    }
}

#[test]
fn top_words_caps_at_the_asked_count() {
    let mut g = GameState::new();
    for word in ["AUDIO", "BRAVE", "CRANE", "DANCE", "EAGLE", "FABLE", "GRAPE"] {
        g.add_word(&w(word));
    }
    assert_eq!(g.top_words(5).len(), 5);
    assert_eq!(g.top_words(0).len(), 0);
    assert_eq!(g.top_words(99).len(), 7);
}

#[test]
fn save_then_load_reproduces_the_statistics() {
    let mut g = GameState::new();
    g.add_word(&w("CRANE"));
    g.add_word(&w("CRANE"));
    g.add_word(&w("AUDIO"));
    g.record_round(true);
    g.record_round(false);
    g.attempts = 7;
    let bytes = serialize_state(&g);
    let back = load_state(&bytes);
    assert_eq!(back.total_rounds, g.total_rounds);
    assert_eq!(back.successful_games, g.successful_games);
    assert_eq!(back.attempts, g.attempts);
    assert_eq!(back.used_words.len(), g.used_words.len());
    for (a, b) in back.used_words.iter().zip(g.used_words.iter()) {
        assert_eq!(a.word, b.word);
        assert_eq!(a.count, b.count);
    }
}

#[test]
fn empty_session_round_trips() {
    let g = GameState::new();
    let bytes = serialize_state(&g);
    let back = load_state(&bytes);
    assert_eq!(back.total_rounds, 0);
    assert_eq!(back.successful_games, 0);
    assert_eq!(back.attempts, 0);
    assert!(back.used_words.is_empty());
}

#[test]
fn corrupt_records_load_as_a_fresh_session() {
    for garbage in [
        &b""[..],
        &b"not a record"[..],
        &b"{\"total_rounds\": 3}"[..],
        &b"00000000000000000003\n"[..],
    ] {
        let back = load_state(&garbage.to_vec());
        assert_eq!(back.total_rounds, 0);
        assert_eq!(back.successful_games, 0);
        assert_eq!(back.attempts, 0);
        assert!(back.used_words.is_empty());
    }
}

#[test]
fn tampered_records_are_rejected() {
    let mut g = GameState::new();
    g.add_word(&w("CRANE"));
    g.record_round(true);
    let mut bytes = serialize_state(&g);
    assert!(parse_state(&bytes).is_some());
    // more successes than rounds cannot come from a save
    bytes[40] = b'9';
    assert!(parse_state(&bytes).is_none());
}

#[test]
fn truncated_records_are_rejected() {
    let mut g = GameState::new();
    g.add_word(&w("CRANE"));
    let bytes = serialize_state(&g);
    let cut = bytes[..bytes.len() - 1].to_vec();
    assert!(parse_state(&cut).is_none());
}

#[test]
fn serialized_record_layout_is_fixed_width() {
    let g = GameState::new();
    let bytes = serialize_state(&g);
    let expected = "00000000000000000000\n00000000000000000000\n00000000000000000000\n";
    assert_eq!(bytes, expected.as_bytes().to_vec());

    let mut h = GameState::new();
    h.add_word(&w("CRANE"));
    let with_row = serialize_state(&h);
    let expected_row = "00000000000000000000\n00000000000000000000\n00000000000000000000\nCRANE 00000000000000000001\n";
    assert_eq!(with_row, expected_row.as_bytes().to_vec());
}

#[test]
fn extreme_counter_values_round_trip() {
    let mut g = GameState::new();
    g.total_rounds = u64::MAX;
    g.successful_games = u64::MAX;
    g.attempts = u64::MAX;
    let back = load_state(&serialize_state(&g));
    assert_eq!(back.total_rounds, u64::MAX);
    assert_eq!(back.successful_games, u64::MAX);
    assert_eq!(back.attempts, u64::MAX);
}
