//! The core of a turn-based word-guessing game. A player submits five-letter
//! guesses against a hidden answer and is told, letter by letter, whether
//! each is in its place, elsewhere in the answer, or absent. The crate
//! proves the scoring algorithm, the hard-mode rules that carry revealed
//! information forward within a round, the round state machine, the session
//! statistics with their deterministic word ranking, and the text codec that
//! persists those statistics between sessions.

pub mod codec;
pub mod feedback;
pub mod hardmode;
pub mod round;
pub mod stats;
pub mod words;

use vstd::prelude::*;

verus! {

/// Number of letters in every word of the game.
pub const WORD_LEN: usize = 5;

/// The byte for `'A'`, the least letter a word may hold.
pub const LETTER_A: u8 = 65;

/// The byte for `'Z'`, the greatest letter a word may hold.
pub const LETTER_Z: u8 = 90;

/// An uppercase ASCII letter, the only kind of byte a word may hold.
pub open spec fn is_letter(b: u8) -> bool {
    LETTER_A <= b && b <= LETTER_Z
}

/// A word of the game: exactly `WORD_LEN` uppercase ASCII letters.
pub open spec fn is_word(s: Seq<u8>) -> bool {
    s.len() == WORD_LEN && forall|i: int| 0 <= i < s.len() ==> is_letter(s[i])
}

/// Byte-wise equality of two words, usable by every module.
pub fn bytes_eq(a: &Vec<u8>, b: &Vec<u8>) -> (r: bool)
    ensures
        r <==> a@ == b@,
{
    if a.len() != b.len() {
        assert(a@.len() != b@.len());
        return false;
    }
    let mut i: usize = 0;
    while i < a.len()
        invariant
            0 <= i <= a@.len(),
            a@.len() == b@.len(),
            forall|j: int| 0 <= j < i ==> a@[j] == b@[j],
        decreases a@.len() - i,
    {
        if a[i] != b[i] {
            return false;
        }
        i = i + 1;
    }
    proof {
        assert(a@ =~= b@);
    }
    true
}

/// An owned copy of a byte vector, usable by every module.
pub fn copy_bytes(v: &Vec<u8>) -> (r: Vec<u8>)
    ensures
        r@ == v@,
{
    let mut r: Vec<u8> = Vec::new();
    let mut i: usize = 0;
    while i < v.len()
        invariant
            0 <= i <= v@.len(),
            r@ =~= v@.subrange(0, i as int),
        decreases v@.len() - i,
    {
        r.push(v[i]);
        proof {
            assert(r@ =~= v@.subrange(0, i + 1));
        }
        i = i + 1;
    }
    proof {
        assert(r@ =~= v@);
    }
    r
}

} // verus!
