//! Hard-mode constraints: letters pinned to a position by a `Correct`
//! verdict, and letters known to be present somewhere from a `Present`
//! verdict. Within a round a pin is never changed and the present set only
//! grows; a guess that contradicts either is rejected before it is scored.

use vstd::prelude::*;

verus! {

use crate::WORD_LEN;
use crate::is_letter;
use crate::feedback::Verdict;
use crate::feedback::all_letters;
use crate::feedback::score_spec;

/// The byte that marks a positional slot not yet pinned to any letter.
pub const UNPINNED: u8 = 95;

/// The pins accept `guess`: every pinned slot holds the guess's letter there.
pub open spec fn pins_allow(pins: Seq<u8>, guess: Seq<u8>) -> bool {
    forall|i: int| 0 <= i < pins.len() ==> (pins[i] == UNPINNED || guess[i] == pins[i])
}

/// The present letters accept `guess`: each occurs somewhere in it.
pub open spec fn present_allow(present: Seq<u8>, guess: Seq<u8>) -> bool {
    forall|j: int| 0 <= j < present.len() ==> guess.contains(present[j])
}

/// A guess satisfies both hard-mode constraints.
pub open spec fn hard_mode_ok(pins: Seq<u8>, present: Seq<u8>, guess: Seq<u8>) -> bool {
    pins_allow(pins, guess) && present_allow(present, guess)
}

/// The pins after absorbing one scored guess: every `Correct` position is
/// pinned to the guess's letter there, all other slots keep their state.
pub open spec fn step_pins(pins: Seq<u8>, guess: Seq<u8>, v: Seq<Verdict>) -> Seq<u8> {
    Seq::new(
        pins.len(),
        |i: int|
            if v[i] == Verdict::Correct {
                guess[i]
            } else {
                pins[i]
            },
    )
}

/// Letter `x` earned a `Present` verdict somewhere in the scored guess.
pub open spec fn present_in(guess: Seq<u8>, v: Seq<Verdict>, x: u8) -> bool {
    exists|i: int| 0 <= i < guess.len() && v[i] == Verdict::Present && guess[i] == x
}

/// The pins after scoring each of `guesses`, in order, against `answer`.
pub open spec fn pins_after(pins: Seq<u8>, answer: Seq<u8>, guesses: Seq<Seq<u8>>) -> Seq<u8>
    decreases guesses.len(),
{
    if guesses.len() == 0 {
        pins
    } else {
        pins_after(
            step_pins(pins, guesses[0], score_spec(guesses[0], answer)),
            answer,
            guesses.drop_first(),
        )
    }
}

/// Whether letter `x` is in the present set after scoring each of `guesses`,
/// in order, against `answer`, starting from the set holding `present`.
pub open spec fn has_present_after(
    present: Seq<u8>,
    answer: Seq<u8>,
    guesses: Seq<Seq<u8>>,
    x: u8,
) -> bool
    decreases guesses.len(),
{
    if guesses.len() == 0 {
        present.contains(x)
    } else {
        has_present_after(present, answer, guesses.drop_last(), x) || present_in(
            guesses.last(),
            score_spec(guesses.last(), answer),
            x,
        )
    }
}

/// Absorbing one more scored guess steps the iterated pin map once.
pub proof fn lemma_pins_after_snoc(pins: Seq<u8>, answer: Seq<u8>, guesses: Seq<Seq<u8>>, g: Seq<u8>)
    ensures
        pins_after(pins, answer, guesses.push(g)) == step_pins(
            pins_after(pins, answer, guesses),
            g,
            score_spec(g, answer),
        ),
    decreases guesses.len(),
{
    let whole = guesses.push(g);
    if guesses.len() == 0 {
        assert(whole[0] == g);
        assert(whole.drop_first() =~= Seq::<Seq<u8>>::empty());
        assert(pins_after(pins, answer, whole) == pins_after(
            step_pins(pins, g, score_spec(g, answer)),
            answer,
            Seq::<Seq<u8>>::empty(),
        ));
        assert(pins_after(pins, answer, guesses) == pins);
    } else {
        let v0 = score_spec(guesses[0], answer);
        let step1 = step_pins(pins, guesses[0], v0);
        assert(whole[0] == guesses[0]);
        assert(whole.drop_first() =~= guesses.drop_first().push(g));
        assert(pins_after(pins, answer, whole) == pins_after(
            step1,
            answer,
            guesses.drop_first().push(g),
        ));
        lemma_pins_after_snoc(step1, answer, guesses.drop_first(), g);
        assert(pins_after(pins, answer, guesses) == pins_after(step1, answer, guesses.drop_first()));
    }
}

/// Absorbing one more scored guess steps the iterated present set once.
pub proof fn lemma_has_present_after_snoc(
    present: Seq<u8>,
    answer: Seq<u8>,
    guesses: Seq<Seq<u8>>,
    g: Seq<u8>,
    x: u8,
)
    ensures
        has_present_after(present, answer, guesses.push(g), x) == (has_present_after(
            present,
            answer,
            guesses,
            x,
        ) || present_in(g, score_spec(g, answer), x)),
{
    let whole = guesses.push(g);
    assert(whole.drop_last() =~= guesses);
    assert(whole.last() == g);
}

/// A pinned slot always holds the answer's letter, and scoring any further
/// guesses never unpins it or changes it.
pub proof fn lemma_pin_monotone(pins: Seq<u8>, answer: Seq<u8>, guesses: Seq<Seq<u8>>)
    requires
        pins.len() == answer.len(),
        forall|j: int| 0 <= j < pins.len() ==> (pins[j] == UNPINNED || pins[j] == answer[j]),
        forall|k: int| 0 <= k < guesses.len() ==> guesses[k].len() == answer.len(),
    ensures
        pins_after(pins, answer, guesses).len() == pins.len(),
        forall|j: int|
            0 <= j < pins.len() ==> (pins_after(pins, answer, guesses)[j] == UNPINNED
                || pins_after(pins, answer, guesses)[j] == answer[j]),
        forall|j: int|
            0 <= j < pins.len() && pins[j] != UNPINNED ==> pins_after(pins, answer, guesses)[j]
                == pins[j],
    decreases guesses.len(),
{
    if guesses.len() > 0 {
        let g0 = guesses[0];
        let step1 = step_pins(pins, g0, score_spec(g0, answer));
        crate::feedback::lemma_score_correct_iff(g0, answer);
        assert forall|j: int|
            0 <= j < pins.len() implies (step1[j] == UNPINNED || step1[j] == answer[j]) && (pins[j]
            != UNPINNED ==> step1[j] == pins[j]) by {
            if score_spec(g0, answer)[j] == Verdict::Correct {
                assert(g0[j] == answer[j]);
            }
        }
        assert forall|k: int|
            0 <= k < guesses.drop_first().len() implies guesses.drop_first()[k].len()
            == answer.len() by {
            assert(guesses.drop_first()[k] == guesses[k + 1]);
        }
        lemma_pin_monotone(step1, answer, guesses.drop_first());
    }
}

/// Once a position is pinned, any later guess in the round that places a
/// different letter there fails hard-mode validation, whatever else was
/// learned in between.
pub proof fn lemma_pinned_slot_rejects(
    pins: Seq<u8>,
    answer: Seq<u8>,
    guesses: Seq<Seq<u8>>,
    present: Seq<u8>,
    g: Seq<u8>,
    i: int,
)
    requires
        pins.len() == answer.len(),
        forall|j: int| 0 <= j < pins.len() ==> (pins[j] == UNPINNED || pins[j] == answer[j]),
        forall|k: int| 0 <= k < guesses.len() ==> guesses[k].len() == answer.len(),
        0 <= i < pins.len(),
        pins[i] != UNPINNED,
        g.len() == pins.len(),
        g[i] != pins[i],
    ensures
        !hard_mode_ok(pins_after(pins, answer, guesses), present, g),
{
    lemma_pin_monotone(pins, answer, guesses);
    assert(pins_after(pins, answer, guesses)[i] == pins[i]);
}

/// A letter once known present stays known present, however many further
/// guesses are scored.
pub proof fn lemma_present_monotone(
    present: Seq<u8>,
    answer: Seq<u8>,
    guesses: Seq<Seq<u8>>,
    x: u8,
)
    requires
        present.contains(x),
    ensures
        has_present_after(present, answer, guesses, x),
    decreases guesses.len(),
{
    if guesses.len() > 0 {
        lemma_present_monotone(present, answer, guesses.drop_last(), x);
    }
}

/// A guess that omits a letter of the present set fails hard-mode validation.
pub proof fn lemma_present_letter_rejects(pins: Seq<u8>, present: Seq<u8>, g: Seq<u8>, x: u8)
    requires
        present.contains(x),
        !g.contains(x),
    ensures
        !hard_mode_ok(pins, present, g),
{
    let k = choose|k: int| 0 <= k < present.len() && present[k] == x;
    assert(!present_allow(present, g)) by {
        assert(present[k] == x && !g.contains(present[k]));
    }
}

/// Per-round hard-mode state: a slot per word position, `UNPINNED` or a
/// pinned letter, and the letters known to be present somewhere.
pub struct HardModeConstraints {
    pub pins: Vec<u8>,
    pub present: Vec<u8>,
}

proof fn lemma_contains_push(s: Seq<u8>, c: u8)
    ensures
        forall|x: u8| s.push(c).contains(x) <==> (s.contains(x) || x == c),
{
    assert forall|x: u8| s.push(c).contains(x) <==> (s.contains(x) || x == c) by {
        if s.contains(x) {
            let k = choose|k: int| 0 <= k < s.len() && s[k] == x;
            assert(s.push(c)[k] == x);
        }
        if x == c {
            assert(s.push(c)[s.len() as int] == x);
        }
        if s.push(c).contains(x) {
            let k = choose|k: int| 0 <= k < s.push(c).len() && s.push(c)[k] == x;
            if k < s.len() {
                assert(s[k] == x);
            }
        }
    }
}

/// `s` holds `c` somewhere.
pub fn contains_byte(s: &Vec<u8>, c: u8) -> (r: bool)
    ensures
        r == s@.contains(c),
{
    let mut j: usize = 0;
    while j < s.len()
        invariant
            0 <= j <= s@.len(),
            forall|k: int| 0 <= k < j ==> s@[k] != c,
        decreases s@.len() - j,
    {
        if s[j] == c {
            assert(s@.contains(c));
            return true;
        }
        j = j + 1;
    }
    assert(!s@.contains(c));
    false
}

/// Whether `guess` keeps every pinned position and reuses every letter known
/// to be present; only such guesses are accepted in hard mode.
pub fn is_valid_hard_mode_guess(
    guess: &Vec<u8>,
    correct_positions: &Vec<u8>,
    present_letters: &Vec<u8>,
) -> (r: bool)
    requires
        guess@.len() == correct_positions@.len(),
    ensures
        r == hard_mode_ok(correct_positions@, present_letters@, guess@),
{
    let mut i: usize = 0;
    while i < correct_positions.len()
        invariant
            0 <= i <= correct_positions@.len(),
            guess@.len() == correct_positions@.len(),
            forall|j: int|
                0 <= j < i ==> (correct_positions@[j] == UNPINNED || guess@[j]
                    == correct_positions@[j]),
        decreases correct_positions@.len() - i,
    {
        if correct_positions[i] != UNPINNED && guess[i] != correct_positions[i] {
            assert(!pins_allow(correct_positions@, guess@));
            return false;
        }
        i = i + 1;
    }
    let mut j: usize = 0;
    while j < present_letters.len()
        invariant
            0 <= j <= present_letters@.len(),
            pins_allow(correct_positions@, guess@),
            forall|k: int| 0 <= k < j ==> guess@.contains(present_letters@[k]),
        decreases present_letters@.len() - j,
    {
        if !contains_byte(guess, present_letters[j]) {
            assert(!present_allow(present_letters@, guess@));
            return false;
        }
        j = j + 1;
    }
    true
}

impl HardModeConstraints {
    /// Slots match the word length, each slot is unpinned or a letter, and
    /// the present set holds letters only.
    pub open spec fn wf(self) -> bool {
        &&& self.pins@.len() == WORD_LEN
        &&& forall|i: int|
            0 <= i < self.pins@.len() ==> (self.pins@[i] == UNPINNED || is_letter(self.pins@[i]))
        &&& forall|i: int| 0 <= i < self.present@.len() ==> is_letter(self.present@[i])
    }

    /// A fresh round: nothing pinned, nothing known present.
    pub fn new() -> (r: HardModeConstraints)
        ensures
            r.wf(),
            r.pins@ =~= Seq::new(WORD_LEN as nat, |i: int| UNPINNED),
            r.present@ =~= Seq::<u8>::empty(),
    {
        let pins = vec![UNPINNED, UNPINNED, UNPINNED, UNPINNED, UNPINNED];
        let r = HardModeConstraints { pins, present: Vec::new() };
        proof {
            assert(r.pins@ =~= Seq::new(WORD_LEN as nat, |i: int| UNPINNED));
        }
        r
    }

    /// Whether `guess` is admissible against the current constraints.
    pub fn allows(&self, guess: &Vec<u8>) -> (r: bool)
        requires
            guess@.len() == self.pins@.len(),
        ensures
            r == hard_mode_ok(self.pins@, self.present@, guess@),
    {
        is_valid_hard_mode_guess(guess, &self.pins, &self.present)
    }

    /// Absorb one scored guess: pin every `Correct` position to its letter
    /// and add every `Present` letter to the present set.
    pub fn record_feedback(&mut self, guess: &Vec<u8>, verdicts: &Vec<Verdict>)
        requires
            old(self).wf(),
            guess@.len() == WORD_LEN,
            verdicts@.len() == WORD_LEN,
            all_letters(guess@),
        ensures
            final(self).wf(),
            final(self).pins@ =~= step_pins(old(self).pins@, guess@, verdicts@),
            forall|x: u8|
                final(self).present@.contains(x) <==> (old(self).present@.contains(x) || present_in(
                    guess@,
                    verdicts@,
                    x,
                )),
    {
        let ghost pins0 = self.pins@;
        let ghost present0 = self.present@;
        let mut i: usize = 0;
        while i < WORD_LEN
            invariant
                0 <= i <= WORD_LEN,
                guess@.len() == WORD_LEN,
                verdicts@.len() == WORD_LEN,
                all_letters(guess@),
                self.pins@.len() == WORD_LEN,
                pins0.len() == WORD_LEN,
                forall|j: int|
                    0 <= j < pins0.len() ==> (pins0[j] == UNPINNED || is_letter(pins0[j])),
                forall|j: int|
                    0 <= j < WORD_LEN ==> self.pins@[j] == (if j < i && verdicts@[j]
                        == Verdict::Correct {
                        guess@[j]
                    } else {
                        pins0[j]
                    }),
                forall|j: int| 0 <= j < self.present@.len() ==> is_letter(self.present@[j]),
                forall|x: u8| present0.contains(x) ==> self.present@.contains(x),
                forall|j: int|
                    0 <= j < i && verdicts@[j] == Verdict::Present ==> self.present@.contains(
                        guess@[j],
                    ),
                forall|x: u8|
                    self.present@.contains(x) ==> present0.contains(x) || present_in(
                        guess@,
                        verdicts@,
                        x,
                    ),
            decreases WORD_LEN - i,
        {
            let v = verdicts[i];
            if v == Verdict::Correct {
                self.pins[i] = guess[i];
            } else if v == Verdict::Present {
                let ghost pres_pre = self.present@;
                let c = guess[i];
                let already = contains_byte(&self.present, c);
                if !already {
                    self.present.push(c);
                    proof {
                        lemma_contains_push(pres_pre, c);
                        assert(present_in(guess@, verdicts@, c)) by {
                            assert(verdicts@[i as int] == Verdict::Present && guess@[i as int]
                                == c);
                        }
                    }
                }
            }
            i = i + 1;
        }
        proof {
            assert(self.pins@ =~= step_pins(pins0, guess@, verdicts@));
            assert forall|x: u8|
                self.present@.contains(x) <==> (present0.contains(x) || present_in(
                    guess@,
                    verdicts@,
                    x,
                )) by {
                if !present0.contains(x) && present_in(guess@, verdicts@, x) {
                    let j = choose|j: int|
                        0 <= j < guess@.len() && verdicts@[j] == Verdict::Present && guess@[j]
                            == x;
                    assert(self.present@.contains(guess@[j]));
                }
            }
        }
    }
}

} // verus!
