//! The two word sets of the game: membership tests and the seeded pick of a
//! hidden answer.

use vstd::prelude::*;
use rand::Rng;
use rand::SeedableRng;

verus! {

use crate::WORD_LEN;
use crate::bytes_eq;
use crate::copy_bytes;
use crate::is_letter;
use crate::is_word;

/// What the seeded pseudo-random generator yields first: a function of the
/// seed alone, so one seed always leads to one word.
pub uninterp spec fn seeded_draw(seed: u64) -> u64;

/// Relies on rand's `StdRng::seed_from_u64` and `RngCore::next_u64`: the
/// first draw of the generator is a deterministic function of the seed.
#[verifier::external_body]
fn seeded_raw(seed: u64) -> (r: u64)
    ensures
        r == seeded_draw(seed),
{
    let mut rng = rand::rngs::StdRng::seed_from_u64(seed);
    rng.gen::<u64>()
}

/// Whether `guess` is exactly `WORD_LEN` uppercase letters.
pub fn is_word_exec(w: &Vec<u8>) -> (r: bool)
    ensures
        r == is_word(w@),
{
    if w.len() != WORD_LEN {
        return false;
    }
    let mut i: usize = 0;
    while i < w.len()
        invariant
            0 <= i <= w@.len(),
            forall|j: int| 0 <= j < i ==> is_letter(w@[j]),
        decreases w@.len() - i,
    {
        if w[i] < crate::LETTER_A || w[i] > crate::LETTER_Z {
            assert(!is_letter(w@[i as int]));
            return false;
        }
        i = i + 1;
    }
    true
}

/// An immutable collection of words: the game only asks it whether a word is
/// a member, and for the seeded pick of an answer.
pub struct WordSet {
    pub words: Vec<Vec<u8>>,
}

impl WordSet {
    /// Every member is a proper word.
    pub open spec fn wf(self) -> bool {
        forall|i: int| 0 <= i < self.words@.len() ==> is_word(self.words@[i]@)
    }

    /// Membership of `w` in the set.
    pub open spec fn spec_contains(self, w: Seq<u8>) -> bool {
        exists|i: int| 0 <= i < self.words@.len() && self.words@[i]@ == w
    }

    /// An empty set.
    pub fn new() -> (r: WordSet)
        ensures
            r.wf(),
            r.words@.len() == 0,
            forall|w: Seq<u8>| !r.spec_contains(w),
    {
        WordSet { words: Vec::new() }
    }

    /// Add a word to the set; anything that is not a proper word is refused.
    pub fn add(&mut self, w: &Vec<u8>) -> (ok: bool)
        requires
            old(self).wf(),
        ensures
            final(self).wf(),
            ok == is_word(w@),
            ok ==> final(self).spec_contains(w@),
            forall|x: Seq<u8>|
                final(self).spec_contains(x) <==> (old(self).spec_contains(x) || (ok && x == w@)),
    {
        let ghost s0 = self.words@;
        if !is_word_exec(w) {
            return false;
        }
        self.words.push(copy_bytes(w));
        proof {
            assert forall|x: Seq<u8>|
                self.spec_contains(x) <==> (old(self).spec_contains(x) || x == w@) by {
                if old(self).spec_contains(x) {
                    let i = choose|i: int| 0 <= i < s0.len() && s0[i]@ == x;
                    assert(self.words@[i]@ == x);
                }
                if x == w@ {
                    assert(self.words@[s0.len() as int]@ == x);
                }
                if self.spec_contains(x) {
                    let i = choose|i: int| 0 <= i < self.words@.len() && self.words@[i]@ == x;
                    if i < s0.len() {
                        assert(s0[i]@ == x);
                    }
                }
            }
        }
        true
    }

    /// How many words the set holds.
    pub fn len(&self) -> (n: usize)
        ensures
            n == self.words@.len(),
    {
        self.words.len()
    }

    /// Whether `w` is a member of the set.
    pub fn contains(&self, w: &Vec<u8>) -> (r: bool)
        ensures
            r == self.spec_contains(w@),
    {
        let mut i: usize = 0;
        while i < self.words.len()
            invariant
                0 <= i <= self.words@.len(),
                forall|j: int| 0 <= j < i ==> self.words@[j]@ != w@,
            decreases self.words@.len() - i,
        {
            if bytes_eq(&self.words[i], w) {
                assert(self.spec_contains(w@));
                return true;
            }
            i = i + 1;
        }
        assert(!self.spec_contains(w@));
        false
    }

    /// The seeded answer pick: one seed always yields the same member.
    pub fn pick(&self, seed: u64) -> (r: Vec<u8>)
        requires
            self.wf(),
            self.words@.len() > 0,
        ensures
            r@ == self.words@[seeded_draw(seed) as int % (self.words@.len() as int)]@,
            self.spec_contains(r@),
            is_word(r@),
    {
        let n = self.words.len();
        let i = (seeded_raw(seed) % (n as u64)) as usize;
        assert(i < n);
        let r = copy_bytes(&self.words[i]);
        proof {
            assert(self.words@[i as int]@ == r@);
        }
        r
    }
}

} // verus!
