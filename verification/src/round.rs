//! One round of the game: answer selection, the guess loop, win and loss
//! detection. Invalid guesses cost no attempt and change nothing; an
//! accepted guess is scored, recorded in the statistics, and moves the round
//! towards `Won` or, after the last attempt, `Lost`.

use vstd::prelude::*;

verus! {

use crate::WORD_LEN;
use crate::bytes_eq;
use crate::copy_bytes;
use crate::is_word;
use crate::feedback::Verdict;
use crate::feedback::score;
use crate::feedback::score_spec;
use crate::feedback::lemma_score_correct_iff;
use crate::hardmode::HardModeConstraints;
use crate::hardmode::UNPINNED;
use crate::hardmode::hard_mode_ok;
use crate::hardmode::has_present_after;
use crate::hardmode::lemma_has_present_after_snoc;
use crate::hardmode::lemma_pins_after_snoc;
use crate::hardmode::pins_after;
use crate::hardmode::step_pins;
use crate::stats::GameState;
use crate::stats::lookup;
use crate::words::WordSet;

/// The most guesses a round may consume.
pub const MAX_ATTEMPTS: usize = 6;

/// Why a guess was turned away; it costs no attempt.
#[derive(Clone, Copy, PartialEq, Eq, Debug, Structural)]
pub enum GuessError {
    NotInWordList,
    HardModeConflict,
}

/// Where a round stands.
#[derive(Clone, Copy, PartialEq, Eq, Debug, Structural)]
pub enum RoundPhase {
    InProgress,
    Won,
    Lost,
}

/// The outcome a finished round reports, exactly once, to the statistics.
#[derive(Clone, Copy, PartialEq, Eq, Debug, Structural)]
pub enum RoundOutcome {
    Won(usize),
    Lost,
}

/// The slots of a round that has revealed nothing yet.
pub open spec fn unpinned_slots() -> Seq<u8> {
    Seq::new(WORD_LEN as nat, |i: int| UNPINNED)
}

/// One round: the hidden answer, the attempt counter, the hard-mode state
/// and the phase, with the scored guesses kept as ghost history.
pub struct Round {
    pub answer: Vec<u8>,
    pub hard_mode: bool,
    pub attempts: usize,
    pub phase: RoundPhase,
    pub constraints: HardModeConstraints,
    pub history: Ghost<Seq<Seq<u8>>>,
}

impl Round {
    /// The round's state is consistent with its scored history: the pins and
    /// the present set are exactly what the history yields, pinned slots hold
    /// the answer's letters, and the phase matches the history.
    pub open spec fn wf(self) -> bool {
        &&& is_word(self.answer@)
        &&& self.constraints.wf()
        &&& self.attempts <= MAX_ATTEMPTS
        &&& (self.phase == RoundPhase::InProgress ==> self.attempts < MAX_ATTEMPTS)
        &&& self.history@.len() == self.attempts
        &&& (forall|t: int| 0 <= t < self.history@.len() ==> is_word(self.history@[t]))
        &&& self.constraints.pins@ == pins_after(unpinned_slots(), self.answer@, self.history@)
        &&& (forall|x: u8|
            self.constraints.present@.contains(x) <==> has_present_after(
                Seq::<u8>::empty(),
                self.answer@,
                self.history@,
                x,
            ))
        &&& (forall|i: int|
            0 <= i < WORD_LEN ==> (self.constraints.pins@[i] == UNPINNED
                || self.constraints.pins@[i] == self.answer@[i]))
        &&& (self.phase == RoundPhase::Won ==> self.attempts >= 1 && self.history@.last()
            == self.answer@)
        &&& (self.phase != RoundPhase::Won ==> forall|t: int|
            0 <= t < self.history@.len() ==> self.history@[t] != self.answer@)
        &&& (self.phase == RoundPhase::Lost ==> self.attempts == MAX_ATTEMPTS)
    }

    /// Begin a round. The answer must be a member of the acceptable set;
    /// otherwise no round starts, and the caller re-prompts without anything
    /// being counted.
    pub fn start_round(answer: &Vec<u8>, hard_mode: bool, acceptable: &WordSet) -> (r: Option<
        Round,
    >)
        requires
            acceptable.wf(),
        ensures
            r is Some <==> acceptable.spec_contains(answer@),
            r matches Some(rd) ==> rd.wf() && rd.answer@ == answer@ && rd.hard_mode == hard_mode
                && rd.attempts == 0 && rd.phase == RoundPhase::InProgress && rd.history@
                == Seq::<Seq<u8>>::empty() && rd.constraints.pins@ == unpinned_slots()
                && rd.constraints.present@ == Seq::<u8>::empty(),
    {
        if !acceptable.contains(answer) {
            return None;
        }
        proof {
            let i = choose|i: int|
                0 <= i < acceptable.words@.len() && acceptable.words@[i]@ == answer@;
            assert(is_word(answer@));
        }
        let constraints = HardModeConstraints::new();
        let rd = Round {
            answer: copy_bytes(answer),
            hard_mode,
            attempts: 0,
            phase: RoundPhase::InProgress,
            constraints,
            history: Ghost(Seq::empty()),
        };
        proof {
            assert(rd.constraints.pins@ =~= unpinned_slots());
            assert(rd.constraints.pins@ == pins_after(unpinned_slots(), rd.answer@, rd.history@));
            assert forall|x: u8|
                rd.constraints.present@.contains(x) <==> has_present_after(
                    Seq::<u8>::empty(),
                    rd.answer@,
                    rd.history@,
                    x,
                ) by {
                assert(!rd.constraints.present@.contains(x));
                assert(!Seq::<u8>::empty().contains(x));
            }
        }
        Some(rd)
    }

    /// Play one guess. A guess outside the word list, or one that breaks the
    /// hard-mode constraints, is rejected: it costs no attempt and changes
    /// nothing. An accepted guess is scored against the answer, absorbed into
    /// the hard-mode state, counted, and tallied; it wins the round if it is
    /// the answer, and loses it if it was the last attempt.
    pub fn submit_guess(
        &mut self,
        guess: &Vec<u8>,
        acceptable: &WordSet,
        stats: &mut GameState,
    ) -> (r: Result<Vec<Verdict>, GuessError>)
        requires
            old(self).wf(),
            old(self).phase == RoundPhase::InProgress,
            acceptable.wf(),
            old(stats).wf(),
            old(stats).attempts < u64::MAX,
            lookup(old(stats).used_words@, guess@) < u64::MAX,
        ensures
            final(self).wf(),
            final(stats).wf(),
            final(self).answer@ == old(self).answer@,
            final(self).hard_mode == old(self).hard_mode,
            final(stats).total_rounds == old(stats).total_rounds,
            final(stats).successful_games == old(stats).successful_games,
            match r {
                Result::Err(e) => {
                    &&& *final(self) == *old(self)
                    &&& *final(stats) == *old(stats)
                    &&& (e == GuessError::NotInWordList <==> !acceptable.spec_contains(guess@))
                    &&& (e == GuessError::HardModeConflict ==> old(self).hard_mode
                        && acceptable.spec_contains(guess@) && !hard_mode_ok(
                        old(self).constraints.pins@,
                        old(self).constraints.present@,
                        guess@,
                    ))
                },
                Result::Ok(f) => {
                    &&& acceptable.spec_contains(guess@)
                    &&& (old(self).hard_mode ==> hard_mode_ok(
                        old(self).constraints.pins@,
                        old(self).constraints.present@,
                        guess@,
                    ))
                    &&& f@ == score_spec(guess@, old(self).answer@)
                    &&& final(self).attempts == old(self).attempts + 1
                    &&& final(self).history@ == old(self).history@.push(guess@)
                    &&& final(stats).attempts == old(stats).attempts + 1
                    &&& lookup(final(stats).used_words@, guess@) == lookup(
                        old(stats).used_words@,
                        guess@,
                    ) + 1
                    &&& (forall|w2: Seq<u8>|
                        w2 != guess@ ==> lookup(final(stats).used_words@, w2) == lookup(
                            old(stats).used_words@,
                            w2,
                        ))
                    &&& (guess@ == old(self).answer@ <==> final(self).phase == RoundPhase::Won)
                    &&& (guess@ != old(self).answer@ && old(self).attempts + 1 == MAX_ATTEMPTS
                        ==> final(self).phase == RoundPhase::Lost)
                    &&& (guess@ != old(self).answer@ && old(self).attempts + 1 < MAX_ATTEMPTS
                        ==> final(self).phase == RoundPhase::InProgress)
                },
            },
    {
        if !acceptable.contains(guess) {
            return Err(GuessError::NotInWordList);
        }
        proof {
            let i = choose|i: int|
                0 <= i < acceptable.words@.len() && acceptable.words@[i]@ == guess@;
            assert(is_word(guess@));
        }
        if self.hard_mode && !self.constraints.allows(guess) {
            return Err(GuessError::HardModeConflict);
        }
        let ghost a = self.answer@;
        let ghost h0 = self.history@;
        let ghost pins0 = self.constraints.pins@;
        let verdicts = score(guess, &self.answer);
        self.constraints.record_feedback(guess, &verdicts);
        self.attempts = self.attempts + 1;
        self.history = Ghost(h0.push(guess@));
        stats.record_attempt();
        stats.add_word(guess);
        let won = bytes_eq(guess, &self.answer);
        if won {
            self.phase = RoundPhase::Won;
        } else if self.attempts == MAX_ATTEMPTS {
            self.phase = RoundPhase::Lost;
        }
        proof {
            lemma_pins_after_snoc(unpinned_slots(), a, h0, guess@);
            assert(self.constraints.pins@ =~= step_pins(pins0, guess@, verdicts@));
            assert(self.constraints.pins@ == pins_after(unpinned_slots(), a, self.history@));
            assert forall|x: u8|
                self.constraints.present@.contains(x) <==> has_present_after(
                    Seq::<u8>::empty(),
                    a,
                    self.history@,
                    x,
                ) by {
                lemma_has_present_after_snoc(Seq::<u8>::empty(), a, h0, guess@, x);
            }
            lemma_score_correct_iff(guess@, a);
            assert forall|i: int|
                0 <= i < WORD_LEN implies (self.constraints.pins@[i] == UNPINNED
                || self.constraints.pins@[i] == a[i]) by {
                if verdicts@[i] == Verdict::Correct {
                    assert(guess@[i] == a[i]);
                }
            }
            assert(self.history@.last() == guess@);
            assert(forall|t: int| 0 <= t < h0.len() ==> self.history@[t] == h0[t]);
        }
        Ok(verdicts)
    }

    /// Once a position of a round is pinned by a `Correct` verdict, a guess
    /// that places any other letter there fails hard-mode validation, no
    /// matter what else the round has revealed since.
    pub proof fn lemma_pinned_position_rejects(self, g: Seq<u8>, i: int)
        requires
            self.wf(),
            0 <= i < WORD_LEN,
            self.constraints.pins@[i] != UNPINNED,
            g.len() == WORD_LEN,
            g[i] != self.constraints.pins@[i],
        ensures
            !hard_mode_ok(self.constraints.pins@, self.constraints.present@, g),
    {
    }

    /// Once a letter of a round is known to be present, a guess that omits
    /// it everywhere fails hard-mode validation.
    pub proof fn lemma_missing_present_letter_rejects(self, g: Seq<u8>, x: u8)
        requires
            self.wf(),
            self.constraints.present@.contains(x),
            !g.contains(x),
        ensures
            !hard_mode_ok(self.constraints.pins@, self.constraints.present@, g),
    {
        crate::hardmode::lemma_present_letter_rejects(
            self.constraints.pins@,
            self.constraints.present@,
            g,
            x,
        );
    }

    /// The outcome once the round is over; `None` while it is still going.
    pub fn outcome(&self) -> (r: Option<RoundOutcome>)
        ensures
            self.phase == RoundPhase::InProgress <==> r is None,
            self.phase == RoundPhase::Won ==> r == Some(RoundOutcome::Won(self.attempts)),
            self.phase == RoundPhase::Lost ==> r == Some(RoundOutcome::Lost),
    {
        match self.phase {
            RoundPhase::InProgress => None,
            RoundPhase::Won => Some(RoundOutcome::Won(self.attempts)),
            RoundPhase::Lost => Some(RoundOutcome::Lost),
        }
    }
}

} // verus!
