use wordle::words::WordSet;

fn w(s: &str) -> Vec<u8> {
    s.as_bytes().to_vec()
}

#[test]
fn membership_follows_what_was_added() {
    let mut s = WordSet::new();
    assert!(s.add(&w("CRANE")));
    assert!(s.add(&w("AUDIO")));
    assert!(s.contains(&w("CRANE")));
    assert!(s.contains(&w("AUDIO")));
    assert!(!s.contains(&w("BRAVE")));
}

#[test]
fn only_proper_words_enter_a_set() {
    let mut s = WordSet::new();
    assert!(!s.add(&w("TOO")));
    assert!(!s.add(&w("lower")));
    assert!(!s.add(&w("AB CD")));
    assert!(!s.add(&w("SIXSIX")));
    assert_eq!(s.len(), 0);
}

#[test]
fn seeded_pick_is_deterministic() {
    let mut s = WordSet::new();
    for word in ["CRANE", "AUDIO", "BRAVE", "SNAKE", "GHOST"] {
        s.add(&w(word));
    }
    let a = s.pick(12345);
    let b = s.pick(12345);
    assert_eq!(a, b);
    assert!(s.contains(&a));
}

#[test]
fn pick_from_a_single_word_set_yields_that_word() {
    let mut s = WordSet::new();
    s.add(&w("CRANE"));
    assert_eq!(s.pick(99), w("CRANE"));
    assert_eq!(s.pick(0), w("CRANE"));
}

#[test]
fn different_seeds_may_pick_different_words() {
    let mut s = WordSet::new();
    for word in ["CRANE", "AUDIO", "BRAVE", "SNAKE", "GHOST", "BLIMP", "WRECK"] {
        s.add(&w(word));
    }
    let mut seen = Vec::new();
    for seed in 0..64u64 {
        let p = s.pick(seed);
        if !seen.contains(&p) {
            seen.push(p);
        }
    }
    assert!(seen.len() > 1);
}
