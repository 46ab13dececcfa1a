//! Cross-round statistics: counters, the per-word usage tally, and the
//! deterministic ranking of the most frequently guessed words.

use vstd::prelude::*;

verus! {

use crate::bytes_eq;
use crate::copy_bytes;
use crate::is_word;

/// One row of the usage tally: a word and how often it was guessed.
pub struct WordCount {
    pub word: Vec<u8>,
    pub count: u64,
}

/// The tally count of `w` in the rows `i..` of `s`; 0 if no row holds `w`.
pub open spec fn lookup_from(s: Seq<WordCount>, w: Seq<u8>, i: int) -> int
    decreases s.len() - i,
{
    if i < 0 || i >= s.len() {
        0
    } else if s[i].word@ == w {
        s[i].count as int
    } else {
        lookup_from(s, w, i + 1)
    }
}

/// The tally count of `w`; 0 if the tally does not hold `w`.
pub open spec fn lookup(s: Seq<WordCount>, w: Seq<u8>) -> int {
    lookup_from(s, w, 0)
}

/// No two rows of `s` tally the same word.
pub open spec fn distinct_words(s: Seq<WordCount>) -> bool {
    forall|a: int, b: int| 0 <= a < b < s.len() ==> s[a].word@ != s[b].word@
}

proof fn lemma_lookup_from_step(s: Seq<WordCount>, w: Seq<u8>, k: int, i: int)
    requires
        0 <= k <= i <= s.len(),
        forall|j: int| k <= j < i ==> s[j].word@ != w,
    ensures
        lookup_from(s, w, k) == lookup_from(s, w, i),
    decreases i - k,
{
    if k < i {
        lemma_lookup_from_step(s, w, k + 1, i);
    }
}

proof fn lemma_lookup_update_at(s: Seq<WordCount>, m: int, e2: WordCount, k: int)
    requires
        0 <= k <= m < s.len(),
        e2.word@ == s[m].word@,
        forall|j: int| k <= j < m ==> s[j].word@ != s[m].word@,
    ensures
        lookup_from(s.update(m, e2), s[m].word@, k) == e2.count as int,
    decreases m - k,
{
    if k < m {
        lemma_lookup_update_at(s, m, e2, k + 1);
    }
}

proof fn lemma_lookup_update_other(s: Seq<WordCount>, m: int, e2: WordCount, w2: Seq<u8>, k: int)
    requires
        0 <= m < s.len(),
        0 <= k <= s.len(),
        e2.word@ == s[m].word@,
        w2 != s[m].word@,
    ensures
        lookup_from(s.update(m, e2), w2, k) == lookup_from(s, w2, k),
    decreases s.len() - k,
{
    if k < s.len() {
        lemma_lookup_update_other(s, m, e2, w2, k + 1);
    }
}

proof fn lemma_lookup_push_absent(s: Seq<WordCount>, e: WordCount, w: Seq<u8>, k: int)
    requires
        0 <= k <= s.len(),
        forall|j: int| k <= j < s.len() ==> s[j].word@ != w,
    ensures
        lookup_from(s.push(e), w, k) == if e.word@ == w {
            e.count as int
        } else {
            0int
        },
    decreases s.len() - k,
{
    if k < s.len() {
        assert(s.push(e)[k] == s[k]);
        lemma_lookup_push_absent(s, e, w, k + 1);
    } else {
        reveal_with_fuel(lookup_from, 2);
        assert(s.push(e)[k] == e);
    }
}

proof fn lemma_lookup_push_found(s: Seq<WordCount>, e: WordCount, w: Seq<u8>, k: int)
    requires
        0 <= k <= s.len(),
        exists|j: int| k <= j < s.len() && s[j].word@ == w,
    ensures
        lookup_from(s.push(e), w, k) == lookup_from(s, w, k),
    decreases s.len() - k,
{
    if s[k].word@ == w {
        assert(s.push(e)[k] == s[k]);
    } else {
        let j = choose|j: int| k <= j < s.len() && s[j].word@ == w;
        assert(k + 1 <= j < s.len() && s[j].word@ == w);
        lemma_lookup_push_found(s, e, w, k + 1);
        assert(s.push(e)[k] == s[k]);
    }
}

/// In a tally with distinct words, a row's count is what lookup returns.
pub proof fn lemma_lookup_at_row(s: Seq<WordCount>, j: int)
    requires
        distinct_words(s),
        0 <= j < s.len(),
    ensures
        lookup(s, s[j].word@) == s[j].count as int,
{
    lemma_lookup_from_step(s, s[j].word@, 0, j);
}

/// The aggregate session record: round counters and the word-usage tally.
pub struct GameState {
    pub total_rounds: u64,
    pub successful_games: u64,
    pub attempts: u64,
    pub used_words: Vec<WordCount>,
}

impl GameState {
    /// Counters are consistent and the tally holds each guessed word once,
    /// with a positive count.
    pub open spec fn wf(self) -> bool {
        &&& self.successful_games <= self.total_rounds
        &&& distinct_words(self.used_words@)
        &&& forall|i: int|
            0 <= i < self.used_words@.len() ==> is_word(self.used_words@[i].word@)
        &&& forall|i: int| 0 <= i < self.used_words@.len() ==> self.used_words@[i].count >= 1
    }

    /// A fresh session: all counters zero, empty tally.
    pub fn new() -> (r: GameState)
        ensures
            r.wf(),
            r.total_rounds == 0,
            r.successful_games == 0,
            r.attempts == 0,
            r.used_words@.len() == 0,
            forall|w: Seq<u8>| lookup(r.used_words@, w) == 0,
    {
        GameState { total_rounds: 0, successful_games: 0, attempts: 0, used_words: Vec::new() }
    }

    /// Close a round: one more round played, one more success if it was won.
    pub fn record_round(&mut self, won: bool)
        requires
            old(self).wf(),
            old(self).total_rounds < u64::MAX,
        ensures
            final(self).wf(),
            final(self).total_rounds == old(self).total_rounds + 1,
            final(self).successful_games == old(self).successful_games + (if won {
                1int
            } else {
                0int
            }),
            final(self).attempts == old(self).attempts,
            final(self).used_words@ == old(self).used_words@,
    {
        self.total_rounds = self.total_rounds + 1;
        if won {
            self.successful_games = self.successful_games + 1;
        }
    }

    /// Count one consumed attempt.
    pub fn record_attempt(&mut self)
        requires
            old(self).wf(),
            old(self).attempts < u64::MAX,
        ensures
            final(self).wf(),
            final(self).attempts == old(self).attempts + 1,
            final(self).total_rounds == old(self).total_rounds,
            final(self).successful_games == old(self).successful_games,
            final(self).used_words@ == old(self).used_words@,
    {
        self.attempts = self.attempts + 1;
    }

    /// Tally one use of `word`: its count rises by one, every other word's
    /// count is untouched.
    pub fn add_word(&mut self, word: &Vec<u8>)
        requires
            old(self).wf(),
            is_word(word@),
            lookup(old(self).used_words@, word@) < u64::MAX,
        ensures
            final(self).wf(),
            final(self).total_rounds == old(self).total_rounds,
            final(self).successful_games == old(self).successful_games,
            final(self).attempts == old(self).attempts,
            lookup(final(self).used_words@, word@) == lookup(old(self).used_words@, word@) + 1,
            forall|w2: Seq<u8>|
                w2 != word@ ==> lookup(final(self).used_words@, w2) == lookup(
                    old(self).used_words@,
                    w2,
                ),
    {
        let ghost s0 = self.used_words@;
        let mut i: usize = 0;
        while i < self.used_words.len()
            invariant
                self.used_words@ == s0,
                s0 == old(self).used_words@,
                self.total_rounds == old(self).total_rounds,
                self.successful_games == old(self).successful_games,
                self.attempts == old(self).attempts,
                self.successful_games <= self.total_rounds,
                0 <= i <= s0.len(),
                forall|j: int| 0 <= j < i ==> s0[j].word@ != word@,
                distinct_words(s0),
                forall|j: int| 0 <= j < s0.len() ==> is_word(s0[j].word@),
                forall|j: int| 0 <= j < s0.len() ==> s0[j].count >= 1,
                is_word(word@),
                lookup(s0, word@) < u64::MAX,
            decreases s0.len() - i,
        {
            if bytes_eq(&self.used_words[i].word, word) {
                proof {
                    lemma_lookup_from_step(s0, word@, 0, i as int);
                    assert(lookup(s0, word@) == s0[i as int].count as int);
                }
                let e = self.used_words.remove(i);
                let c = e.count;
                let e2 = WordCount { word: e.word, count: c + 1 };
                self.used_words.insert(i, e2);
                proof {
                    assert(self.used_words@ =~= s0.update(i as int, e2));
                    lemma_lookup_update_at(s0, i as int, e2, 0);
                    assert forall|w2: Seq<u8>|
                        w2 != word@ implies lookup(self.used_words@, w2) == lookup(s0, w2) by {
                        lemma_lookup_update_other(s0, i as int, e2, w2, 0);
                    }
                }
                return;
            }
            i = i + 1;
        }
        let e = WordCount { word: copy_bytes(word), count: 1 };
        self.used_words.push(e);
        proof {
            lemma_lookup_push_absent(s0, e, word@, 0);
            lemma_lookup_from_step(s0, word@, 0, s0.len() as int);
            assert forall|w2: Seq<u8>|
                w2 != word@ implies lookup(self.used_words@, w2) == lookup(s0, w2) by {
                if exists|j: int| 0 <= j < s0.len() && s0[j].word@ == w2 {
                    lemma_lookup_push_found(s0, e, w2, 0);
                } else {
                    lemma_lookup_push_absent(s0, e, w2, 0);
                    lemma_lookup_from_step(s0, w2, 0, s0.len() as int);
                }
            }
        }
    }
}

/// Strict lexicographic order on byte sequences, decided from position `i` on.
pub open spec fn lex_lt_from(a: Seq<u8>, b: Seq<u8>, i: int) -> bool
    decreases b.len() - i,
{
    if i < 0 || i >= b.len() {
        false
    } else if i >= a.len() {
        true
    } else if a[i] < b[i] {
        true
    } else if a[i] > b[i] {
        false
    } else {
        lex_lt_from(a, b, i + 1)
    }
}

/// Strict lexicographic order on byte sequences.
pub open spec fn lex_lt(a: Seq<u8>, b: Seq<u8>) -> bool {
    lex_lt_from(a, b, 0)
}

/// Ranking order of the tally: higher count first; on equal counts the
/// alphabetically earlier word first.
pub open spec fn ranks_before(aw: Seq<u8>, ac: int, bw: Seq<u8>, bc: int) -> bool {
    ac > bc || (ac == bc && lex_lt(aw, bw))
}

/// The ranking order on two tally rows.
pub open spec fn row_ranks_before(a: WordCount, b: WordCount) -> bool {
    ranks_before(a.word@, a.count as int, b.word@, b.count as int)
}

/// A row of `a` and a row of `b` tally the same word with the same count.
pub open spec fn matches_row(a: WordCount, b: WordCount) -> bool {
    a.word@ == b.word@ && a.count == b.count
}

proof fn lemma_lex_trans(a: Seq<u8>, b: Seq<u8>, c: Seq<u8>, i: int)
    requires
        a.len() == b.len(),
        b.len() == c.len(),
        0 <= i,
        lex_lt_from(a, b, i),
        lex_lt_from(b, c, i),
    ensures
        lex_lt_from(a, c, i),
    decreases a.len() - i,
{
    if i < a.len() && a[i] == b[i] && b[i] == c[i] {
        lemma_lex_trans(a, b, c, i + 1);
    }
}

proof fn lemma_lex_from_total(a: Seq<u8>, b: Seq<u8>, i: int)
    requires
        a.len() == b.len(),
        0 <= i <= a.len(),
    ensures
        lex_lt_from(a, b, i) || lex_lt_from(b, a, i) || (forall|j: int|
            i <= j < a.len() ==> a[j] == b[j]),
    decreases a.len() - i,
{
    if i < a.len() {
        if a[i] == b[i] {
            lemma_lex_from_total(a, b, i + 1);
            if !lex_lt_from(a, b, i) && !lex_lt_from(b, a, i) {
                assert forall|j: int| i <= j < a.len() implies a[j] == b[j] by {
                    if j > i {
                        assert(forall|j2: int| i + 1 <= j2 < a.len() ==> a[j2] == b[j2]);
                    }
                }
            }
        }
    }
}

proof fn lemma_ranks_trans(a: WordCount, b: WordCount, c: WordCount)
    requires
        a.word@.len() == b.word@.len(),
        b.word@.len() == c.word@.len(),
        row_ranks_before(a, b),
        row_ranks_before(b, c),
    ensures
        row_ranks_before(a, c),
{
    if a.count == b.count && b.count == c.count {
        lemma_lex_trans(a.word@, b.word@, c.word@, 0);
    }
}

proof fn lemma_ranks_total(a: WordCount, b: WordCount)
    requires
        a.word@.len() == b.word@.len(),
        a.word@ != b.word@,
    ensures
        row_ranks_before(a, b) || row_ranks_before(b, a),
{
    if a.count == b.count {
        lemma_lex_from_total(a.word@, b.word@, 0);
        if !lex_lt(a.word@, b.word@) && !lex_lt(b.word@, a.word@) {
            assert(a.word@ =~= b.word@);
        }
    }
}

/// Strict lexicographic comparison of two byte vectors.
pub fn lex_lt_exec(a: &Vec<u8>, b: &Vec<u8>) -> (r: bool)
    ensures
        r == lex_lt(a@, b@),
{
    let mut i: usize = 0;
    while i < b.len()
        invariant
            0 <= i <= b@.len(),
            i <= a@.len(),
            lex_lt(a@, b@) == lex_lt_from(a@, b@, i as int),
        decreases b@.len() - i,
    {
        if i >= a.len() {
            return true;
        }
        if a[i] < b[i] {
            return true;
        }
        if a[i] > b[i] {
            return false;
        }
        i = i + 1;
    }
    false
}

/// Decide the ranking order between two tally rows.
pub fn ranks_before_exec(a: &WordCount, b: &WordCount) -> (r: bool)
    ensures
        r == row_ranks_before(*a, *b),
{
    if a.count > b.count {
        true
    } else if a.count == b.count {
        lex_lt_exec(&a.word, &b.word)
    } else {
        false
    }
}

/// Owned copies of the tally rows, views kept row for row.
fn clone_rows(rows: &Vec<WordCount>) -> (src: Vec<WordCount>)
    ensures
        src@.len() == rows@.len(),
        forall|j: int| 0 <= j < rows@.len() ==> matches_row(src@[j], rows@[j]),
{
    let n = rows.len();
    let mut src: Vec<WordCount> = Vec::new();
    let mut i: usize = 0;
    while i < n
        invariant
            0 <= i <= n,
            n == rows@.len(),
            src@.len() == i,
            forall|j: int| 0 <= j < i ==> matches_row(src@[j], rows@[j]),
        decreases n - i,
    {
        let e = WordCount { word: copy_bytes(&rows[i].word), count: rows[i].count };
        src.push(e);
        i = i + 1;
    }
    src
}

/// Index of the row that ranks before every other row of `src`.
fn min_rank_index(src: &Vec<WordCount>) -> (m: usize)
    requires
        src@.len() > 0,
        distinct_words(src@),
        forall|q: int| 0 <= q < src@.len() ==> is_word(src@[q].word@),
    ensures
        0 <= m < src@.len(),
        forall|t: int| 0 <= t < src@.len() && t != m ==> row_ranks_before(src@[m as int], src@[t]),
{
    let mut m: usize = 0;
    let mut j: usize = 1;
    while j < src.len()
        invariant
            src@.len() > 0,
            0 <= m < j <= src@.len(),
            distinct_words(src@),
            forall|q: int| 0 <= q < src@.len() ==> is_word(src@[q].word@),
            forall|t: int| 0 <= t < j && t != m ==> row_ranks_before(src@[m as int], src@[t]),
        decreases src@.len() - j,
    {
        if ranks_before_exec(&src[j], &src[m]) {
            proof {
                assert forall|t: int|
                    0 <= t < j + 1 && t != j implies row_ranks_before(src@[j as int], src@[t]) by {
                    if t != m {
                        lemma_ranks_trans(src@[j as int], src@[m as int], src@[t]);
                    }
                }
            }
            m = j;
        } else {
            proof {
                assert(src@[m as int].word@ != src@[j as int].word@);
                lemma_ranks_total(src@[m as int], src@[j as int]);
            }
        }
        j = j + 1;
    }
    m
}

/// A row of `s` is a genuine row of the tally `orig`: a proper word with
/// the count that lookup in `orig` returns.
pub open spec fn rows_of(s: Seq<WordCount>, orig: Seq<WordCount>) -> bool {
    forall|q: int|
        #![trigger s[q]]
        0 <= q < s.len() ==> is_word(s[q].word@) && s[q].count >= 1 && lookup(orig, s[q].word@)
            == s[q].count as int
}

/// Some row of `rows` carries the word `w`.
pub open spec fn word_in_rows(w: Seq<u8>, rows: Seq<WordCount>) -> bool {
    exists|p: int| 0 <= p < rows.len() && rows[p].word@ == w
}

/// Some row of `rows` carries the same word and count as `e`.
pub open spec fn has_row(rows: Seq<WordCount>, e: WordCount) -> bool {
    exists|q: int| 0 <= q < rows.len() && matches_row(rows[q], e)
}

/// Every row of `orig` is still accounted for: its word heads a row of
/// `out`, or a row of `src` carries the same word and count.
pub open spec fn covers(orig: Seq<WordCount>, out: Seq<WordCount>, src: Seq<WordCount>) -> bool {
    forall|j: int|
        #![trigger orig[j]]
        0 <= j < orig.len() ==> word_in_rows(orig[j].word@, out) || has_row(src, orig[j])
}

/// One selection step keeps every invariant of the ranking loop: the row
/// that ranks before all remaining rows moves from `src0` to the end of
/// `out0`.
proof fn lemma_select_step(
    orig: Seq<WordCount>,
    src0: Seq<WordCount>,
    out0: Seq<WordCount>,
    me: int,
)
    requires
        distinct_words(orig),
        0 <= me < src0.len(),
        distinct_words(src0),
        rows_of(src0, orig),
        rows_of(out0, orig),
        forall|p: int, q: int| 0 <= p < q < out0.len() ==> row_ranks_before(out0[p], out0[q]),
        distinct_words(out0),
        forall|p: int, q: int|
            0 <= p < out0.len() && 0 <= q < src0.len() ==> row_ranks_before(out0[p], src0[q]),
        forall|p: int, q: int|
            0 <= p < out0.len() && 0 <= q < src0.len() ==> out0[p].word@ != src0[q].word@,
        covers(orig, out0, src0),
        forall|t: int| 0 <= t < src0.len() && t != me ==> row_ranks_before(src0[me], src0[t]),
    ensures
        distinct_words(src0.remove(me)),
        rows_of(src0.remove(me), orig),
        rows_of(out0.push(src0[me]), orig),
        forall|p: int, q: int|
            0 <= p < q < out0.push(src0[me]).len() ==> row_ranks_before(
                out0.push(src0[me])[p],
                out0.push(src0[me])[q],
            ),
        distinct_words(out0.push(src0[me])),
        forall|p: int, q: int|
            0 <= p < out0.push(src0[me]).len() && 0 <= q < src0.remove(me).len()
                ==> row_ranks_before(out0.push(src0[me])[p], src0.remove(me)[q]),
        forall|p: int, q: int|
            0 <= p < out0.push(src0[me]).len() && 0 <= q < src0.remove(me).len() ==> out0.push(
                src0[me],
            )[p].word@ != src0.remove(me)[q].word@,
        covers(orig, out0.push(src0[me]), src0.remove(me)),
{
    let e = src0[me];
    let s1 = src0.remove(me);
    let o1 = out0.push(e);
    assert(s1.len() == src0.len() - 1);
    assert forall|q: int| 0 <= q < s1.len() implies s1[q] == (if q < me {
        src0[q]
    } else {
        src0[q + 1]
    }) by {}
    assert forall|p: int| 0 <= p < o1.len() implies o1[p] == (if p < out0.len() {
        out0[p]
    } else {
        e
    }) by {}
    assert forall|j2: int|
        #![trigger orig[j2]]
        0 <= j2 < orig.len() implies word_in_rows(orig[j2].word@, o1) || has_row(
        s1,
        orig[j2],
    ) by {
        if word_in_rows(orig[j2].word@, out0) {
            let p = choose|p: int| 0 <= p < out0.len() && out0[p].word@ == orig[j2].word@;
            assert(o1[p].word@ == orig[j2].word@);
            assert(word_in_rows(orig[j2].word@, o1));
        } else if has_row(src0, orig[j2]) {
            let q = choose|q: int| 0 <= q < src0.len() && matches_row(src0[q], orig[j2]);
            if q == me {
                assert(o1[out0.len() as int].word@ == orig[j2].word@);
                assert(word_in_rows(orig[j2].word@, o1));
            } else if q < me {
                assert(matches_row(s1[q], orig[j2]));
                assert(has_row(s1, orig[j2]));
            } else {
                assert(matches_row(s1[q - 1], orig[j2]));
                assert(has_row(s1, orig[j2]));
            }
        }
    }
}

impl GameState {
    /// The `k` most frequently guessed words, most frequent first and
    /// alphabetical among equally frequent ones; fewer if the tally is
    /// smaller. Every row returned carries its tally count, and every tallied
    /// word left out ranks after everything returned.
    pub fn top_words(&self, k: usize) -> (r: Vec<WordCount>)
        requires
            self.wf(),
        ensures
            k <= self.used_words@.len() ==> r@.len() == k,
            k > self.used_words@.len() ==> r@.len() == self.used_words@.len(),
            forall|p: int, q: int| 0 <= p < q < r@.len() ==> row_ranks_before(r@[p], r@[q]),
            rows_of(r@, self.used_words@),
            forall|p: int, q: int| 0 <= p < q < r@.len() ==> r@[p].word@ != r@[q].word@,
            forall|j: int|
                #![trigger self.used_words@[j]]
                0 <= j < self.used_words@.len() && !word_in_rows(
                    self.used_words@[j].word@,
                    r@,
                ) ==> (forall|p: int|
                    0 <= p < r@.len() ==> row_ranks_before(r@[p], self.used_words@[j])),
    {
        let ghost orig = self.used_words@;
        let mut src = clone_rows(&self.used_words);
        proof {
            assert forall|a: int, b: int|
                0 <= a < b < src@.len() implies src@[a].word@ != src@[b].word@ by {
                assert(matches_row(src@[a], orig[a]));
                assert(matches_row(src@[b], orig[b]));
            }
            assert forall|q: int| #![trigger src@[q]]
                0 <= q < src@.len() implies is_word(src@[q].word@) && src@[q].count >= 1 && lookup(
                orig,
                src@[q].word@,
            ) == src@[q].count as int by {
                assert(matches_row(src@[q], orig[q]));
                lemma_lookup_at_row(orig, q);
            }
        }
        let mut out: Vec<WordCount> = Vec::new();
        proof {
            assert forall|j: int| #![trigger orig[j]] 0 <= j < orig.len() implies word_in_rows(
                orig[j].word@,
                out@,
            ) || has_row(src@, orig[j]) by {
                assert(matches_row(src@[j], orig[j]));
                assert(has_row(src@, orig[j]));
            }
        }
        while out.len() < k && src.len() > 0
            invariant
                orig == self.used_words@,
                distinct_words(orig),
                out@.len() + src@.len() == orig.len(),
                out@.len() <= k,
                distinct_words(src@),
                rows_of(src@, orig),
                rows_of(out@, orig),
                forall|p: int, q: int| 0 <= p < q < out@.len() ==> row_ranks_before(out@[p], out@[q]),
                distinct_words(out@),
                forall|p: int, q: int|
                    0 <= p < out@.len() && 0 <= q < src@.len() ==> row_ranks_before(
                        out@[p],
                        src@[q],
                    ),
                forall|p: int, q: int|
                    0 <= p < out@.len() && 0 <= q < src@.len() ==> out@[p].word@ != src@[q].word@,
                covers(orig, out@, src@),
            decreases src@.len(),
        {
            let m = min_rank_index(&src);
            let ghost src_old = src@;
            let ghost out_old = out@;
            let e = src.remove(m);
            out.push(e);
            proof {
                lemma_select_step(orig, src_old, out_old, m as int);
                assert(src@ == src_old.remove(m as int));
                assert(out@ == out_old.push(src_old[m as int]));
            }
        }
        proof {
            assert forall|j: int|
                #![trigger orig[j]]
                0 <= j < orig.len() && !word_in_rows(orig[j].word@, out@) implies (forall|p: int|
                0 <= p < out@.len() ==> row_ranks_before(out@[p], orig[j])) by {
                assert(has_row(src@, orig[j]));
                let q = choose|q: int| 0 <= q < src@.len() && matches_row(src@[q], orig[j]);
                assert forall|p: int|
                    0 <= p < out@.len() implies row_ranks_before(out@[p], orig[j]) by {
                    assert(row_ranks_before(out@[p], src@[q]));
                }
            }
        }
        out
    }
}

} // verus!
