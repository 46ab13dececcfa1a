use wordle::hardmode::is_valid_hard_mode_guess;
use wordle::hardmode::HardModeConstraints;
use wordle::feedback::score;

fn w(s: &str) -> Vec<u8> {
    s.as_bytes().to_vec()
}

#[test]
fn pinned_position_must_keep_its_letter() {
    let pins = w("C____");
    let present: Vec<u8> = Vec::new();
    assert!(is_valid_hard_mode_guess(&w("CABLE"), &pins, &present));
    assert!(!is_valid_hard_mode_guess(&w("TABLE"), &pins, &present));
}

#[test]
fn present_letter_must_appear_somewhere() {
    let pins = w("_____");
    let present = vec![b'R'];
    assert!(is_valid_hard_mode_guess(&w("ROBIN"), &pins, &present));
    assert!(is_valid_hard_mode_guess(&w("CHAIR"), &pins, &present));
    assert!(!is_valid_hard_mode_guess(&w("MOUNT"), &pins, &present));
}

#[test]
fn pinned_and_present_constraints_hold_together() {
    let pins = w("__A__");
    let present = vec![b'L'];
    assert!(is_valid_hard_mode_guess(&w("PLANT"), &pins, &present));
    // keeps the pin but drops the L
    assert!(!is_valid_hard_mode_guess(&w("QUACK"), &pins, &present));
    // holds the L but moves the pinned A
    assert!(!is_valid_hard_mode_guess(&w("LUCKY"), &pins, &present));
}

#[test]
fn feedback_pins_correct_and_collects_present() {
    let mut c = HardModeConstraints::new();
    let guess = w("CRATE");
    let verdicts = score(&guess, &w("CARTE"));
    c.record_feedback(&guess, &verdicts);
    // C, T and E matched exactly; R and A are displaced.
    assert_eq!(c.pins, w("C__TE"));
    assert!(c.present.contains(&b'R'));
    assert!(c.present.contains(&b'A'));
    assert!(!c.present.contains(&b'C'));
}

#[test]
fn constraints_only_grow_within_a_round() {
    let mut c = HardModeConstraints::new();
    let answer = w("CRANE");
    let first = w("CARGO");
    let v1 = score(&first, &answer);
    c.record_feedback(&first, &v1);
    assert_eq!(c.pins, w("C____"));
    assert!(c.present.contains(&b'A'));
    assert!(c.present.contains(&b'R'));
    let second = w("CRAMP");
    let v2 = score(&second, &answer);
    c.record_feedback(&second, &v2);
    // the earlier pin and present letters are still there
    assert_eq!(c.pins, w("CRA__"));
    assert!(c.present.contains(&b'A'));
    assert!(c.present.contains(&b'R'));
}
