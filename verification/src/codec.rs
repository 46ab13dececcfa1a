//! The persisted form of the session statistics: a human-readable text
//! record of fixed-width decimal counters followed by one tally row per
//! line. Serialization is exact, parsing is strict: everything the parser
//! accepts is the canonical encoding of a well-formed record, and every
//! canonical encoding is accepted, so a saved record always loads back to
//! the same statistics, and anything else starts a fresh session.

use vstd::prelude::*;

verus! {

use vstd::arithmetic::div_mod::lemma_div_denominator;
use vstd::arithmetic::div_mod::lemma_div_multiples_vanish_fancy;
use vstd::arithmetic::div_mod::lemma_fundamental_div_mod;
use vstd::arithmetic::div_mod::lemma_mod_multiples_vanish;
use crate::WORD_LEN;
use crate::is_word;
use crate::stats::GameState;
use crate::stats::WordCount;
use crate::stats::distinct_words;
use crate::stats::matches_row;
use crate::stats::word_in_rows;

/// The width of every number in the record: enough digits for any `u64`.
pub const NUM_WIDTH: usize = 20;

/// The newline byte that ends every line of the record.
pub const NL: u8 = 10;

/// The space byte between a word and its count.
pub const SP: u8 = 32;

/// An ASCII decimal digit.
pub open spec fn is_digit(b: u8) -> bool {
    48 <= b && b <= 57
}

/// Ten to the `k`.
pub open spec fn pow10(k: nat) -> int
    decreases k,
{
    if k == 0 {
        1
    } else {
        10 * pow10((k - 1) as nat)
    }
}

/// The fixed-width decimal digits of `n`, most significant first, padded
/// with leading zeros.
pub open spec fn dec_digits(n: int, w: nat) -> Seq<u8> {
    Seq::new(w, |i: int| (48 + (n / pow10((w - 1 - i) as nat)) % 10) as u8)
}

/// The value of a digit sequence, most significant first.
pub open spec fn digits_val(s: Seq<u8>) -> int
    decreases s.len(),
{
    if s.len() == 0 {
        0
    } else {
        digits_val(s.drop_last()) * 10 + (s.last() - 48)
    }
}

proof fn lemma_pow10_pos(k: nat)
    ensures
        pow10(k) >= 1,
    decreases k,
{
    if k > 0 {
        lemma_pow10_pos((k - 1) as nat);
    }
}

proof fn lemma_pow10_u64()
    ensures
        pow10(20) == 100_000_000_000_000_000_000,
        pow10(19) == 10_000_000_000_000_000_000,
{
    reveal_with_fuel(pow10, 21);
}

proof fn lemma_dec_digits_are_digits(n: int, w: nat)
    requires
        0 <= n,
    ensures
        forall|i: int| 0 <= i < w ==> is_digit(dec_digits(n, w)[i]),
{
    assert forall|i: int| 0 <= i < w implies is_digit(dec_digits(n, w)[i]) by {
        lemma_pow10_pos((w - 1 - i) as nat);
        let p = pow10((w - 1 - i) as nat);
        assert(0 <= (n / p) % 10 < 10);
    }
}

proof fn lemma_digits_roundtrip(n: int, w: nat)
    requires
        0 <= n < pow10(w),
    ensures
        digits_val(dec_digits(n, w)) == n,
    decreases w,
{
    if w == 0 {
        assert(dec_digits(n, 0) =~= Seq::<u8>::empty());
    } else {
        lemma_pow10_pos((w - 1) as nat);
        lemma_fundamental_div_mod(n, 10);
        assert(n == 10 * (n / 10) + n % 10);
        assert(10 * (n / 10) <= n);
        assert(n < 10 * pow10((w - 1) as nat));
        assert(n / 10 < pow10((w - 1) as nat));
        assert forall|i: int|
            0 <= i < w - 1 implies dec_digits(n, w)[i] == dec_digits(n / 10, (w - 1) as nat)[i] by {
            let k = (w - 2 - i) as nat;
            lemma_pow10_pos(k);
            lemma_div_denominator(n, 10, pow10(k));
            assert((n / 10) / pow10(k) == n / (10 * pow10(k)));
            assert(pow10((w - 1 - i) as nat) == 10 * pow10(k));
        }
        assert(dec_digits(n, w).drop_last() =~= dec_digits(n / 10, (w - 1) as nat));
        lemma_digits_roundtrip(n / 10, (w - 1) as nat);
        assert(pow10(0) == 1);
        assert(n / 1 == n);
        assert(dec_digits(n, w).last() == (48 + n % 10) as u8);
        assert(digits_val(dec_digits(n, w)) == (n / 10) * 10 + n % 10);
    }
}

proof fn lemma_digits_canonical(s: Seq<u8>, w: nat)
    requires
        s.len() == w,
        forall|i: int| 0 <= i < w ==> is_digit(s[i]),
    ensures
        0 <= digits_val(s) < pow10(w),
        dec_digits(digits_val(s), w) =~= s,
    decreases w,
{
    if w == 0 {
    } else {
        let t = s.drop_last();
        lemma_digits_canonical(t, (w - 1) as nat);
        let d = s.last() - 48;
        let n = digits_val(s);
        let m = digits_val(t);
        assert(n == m * 10 + d);
        assert(0 <= d < 10);
        assert(m * 10 + d < pow10((w - 1) as nat) * 10) by {
            assert(m < pow10((w - 1) as nat));
            assert(m * 10 <= (pow10((w - 1) as nat) - 1) * 10) by (nonlinear_arith)
                requires
                    m <= pow10((w - 1) as nat) - 1,
            ;
        }
        assert(pow10(w) == 10 * pow10((w - 1) as nat));
        lemma_div_multiples_vanish_fancy(m, d, 10);
        assert((10 * m + d) / 10 == m);
        lemma_mod_multiples_vanish(m, d, 10);
        assert((10 * m + d) % 10 == d % 10);
        assert(n / 10 == m);
        assert(n % 10 == d);
        assert forall|i: int| 0 <= i < w implies dec_digits(n, w)[i] == s[i] by {
            if i < w - 1 {
                let k = (w - 2 - i) as nat;
                lemma_pow10_pos(k);
                lemma_div_denominator(n, 10, pow10(k));
                assert((n / 10) / pow10(k) == n / (10 * pow10(k)));
                assert(pow10((w - 1 - i) as nat) == 10 * pow10(k));
                assert(dec_digits(m, (w - 1) as nat)[i] == t[i]);
            } else {
                assert(pow10(0) == 1);
                assert(n / 1 == n);
            }
        }
    }
}

/// Append the fixed-width decimal digits of `n`.
fn push_number(out: &mut Vec<u8>, n: u64)
    ensures
        final(out)@ == old(out)@ + dec_digits(n as int, NUM_WIDTH as nat),
{
    proof {
        lemma_pow10_u64();
    }
    let mut p: u64 = 10_000_000_000_000_000_000;
    let mut i: usize = 0;
    while i < NUM_WIDTH
        invariant
            0 <= i <= NUM_WIDTH,
            i < NUM_WIDTH ==> p as int == pow10((NUM_WIDTH - 1 - i) as nat),
            out@ == old(out)@ + dec_digits(n as int, NUM_WIDTH as nat).take(i as int),
        decreases NUM_WIDTH - i,
    {
        proof {
            lemma_pow10_pos((NUM_WIDTH - 1 - i) as nat);
        }
        let d = ((n / p) % 10) as u8;
        out.push(48 + d);
        proof {
            assert(dec_digits(n as int, NUM_WIDTH as nat).take(i + 1) =~= dec_digits(
                n as int,
                NUM_WIDTH as nat,
            ).take(i as int).push((48 + d) as u8));
            assert(out@ =~= old(out)@ + dec_digits(n as int, NUM_WIDTH as nat).take(i + 1));
        }
        if i < NUM_WIDTH - 2 {
            p = p / 10;
            proof {
                let k = (NUM_WIDTH - 2 - i) as nat;
                assert(pow10((k + 1) as nat) == 10 * pow10(k));
                lemma_div_multiples_vanish_fancy(pow10(k), 0, 10);
            }
        } else if i == NUM_WIDTH - 2 {
            p = 1;
        }
        i = i + 1;
    }
    proof {
        assert(dec_digits(n as int, NUM_WIDTH as nat).take(NUM_WIDTH as int) =~= dec_digits(
            n as int,
            NUM_WIDTH as nat,
        ));
    }
}

/// Every byte of `s` in `[at, end)` is a decimal digit.
pub open spec fn all_digits(s: Seq<u8>, at: int, end: int) -> bool {
    forall|j: int| at <= j < end ==> is_digit(s[j])
}

/// Read the fixed-width number at `at`; `None` if the bytes there are not
/// digits or the value does not fit a `u64`.
fn parse_number(s: &Vec<u8>, at: usize) -> (r: Option<u64>)
    requires
        at + NUM_WIDTH <= s@.len(),
    ensures
        r is Some <==> (all_digits(s@, at as int, at + NUM_WIDTH) && digits_val(
            s@.subrange(at as int, at + NUM_WIDTH),
        ) <= u64::MAX as int),
        r matches Some(v) ==> v as int == digits_val(s@.subrange(at as int, at + NUM_WIDTH)),
{
    proof {
        lemma_pow10_u64();
    }
    let slen = s.len();
    let mut acc: u128 = 0;
    let mut k: usize = 0;
    while k < NUM_WIDTH
        invariant
            0 <= k <= NUM_WIDTH,
            at + NUM_WIDTH <= slen,
            slen == s@.len(),
            all_digits(s@, at as int, at + k),
            acc as int == digits_val(s@.subrange(at as int, at + k)),
            (acc as int) < pow10(k as nat),
            pow10(20) == 100_000_000_000_000_000_000,
        decreases NUM_WIDTH - k,
    {
        let b = s[at + k];
        if b < 48 || b > 57 {
            proof {
                assert(!is_digit(s@[at + k]));
                assert(!all_digits(s@, at as int, at + NUM_WIDTH));
            }
            return None;
        }
        proof {
            let sub1 = s@.subrange(at as int, at + k + 1);
            assert(sub1.drop_last() =~= s@.subrange(at as int, at + k));
            assert(sub1.last() == s@[at + k]);
            assert(pow10((k + 1) as nat) == 10 * pow10(k as nat));
            lemma_pow10_is_ordered(k as nat);
        }
        acc = acc * 10 + ((b - 48) as u128);
        k = k + 1;
    }
    proof {
        assert(s@.subrange(at as int, at + NUM_WIDTH) =~= s@.subrange(at as int, at + k));
    }
    if acc <= 0xFFFF_FFFF_FFFF_FFFF {
        Some(acc as u64)
    } else {
        None
    }
}

proof fn lemma_pow10_is_ordered(k: nat)
    requires
        k <= 19,
    ensures
        pow10(k) <= pow10(19nat),
    decreases 19nat - k,
{
    if k < 19 {
        lemma_pow10_is_ordered((k + 1) as nat);
        lemma_pow10_pos(k);
    }
}

/// Bytes of one record line for a tally row: word, space, count, newline.
pub open spec fn ser_entry(e: WordCount) -> Seq<u8> {
    e.word@ + seq![SP] + dec_digits(e.count as int, NUM_WIDTH as nat) + seq![NL]
}

/// Bytes of the record lines for all tally rows, in order.
pub open spec fn ser_entries(s: Seq<WordCount>) -> Seq<u8>
    decreases s.len(),
{
    if s.len() == 0 {
        Seq::empty()
    } else {
        ser_entry(s[0]) + ser_entries(s.drop_first())
    }
}

/// Bytes of the three counter lines.
pub open spec fn header_bytes(total: u64, succ: u64, att: u64) -> Seq<u8> {
    dec_digits(total as int, NUM_WIDTH as nat) + seq![NL] + dec_digits(
        succ as int,
        NUM_WIDTH as nat,
    ) + seq![NL] + dec_digits(att as int, NUM_WIDTH as nat) + seq![NL]
}

/// The canonical record of the statistics `g`.
pub open spec fn ser_spec(g: GameState) -> Seq<u8> {
    header_bytes(g.total_rounds, g.successful_games, g.attempts) + ser_entries(g.used_words@)
}

/// Whether `bytes` is the canonical record of some well-formed statistics.
pub open spec fn is_saved_state(bytes: Seq<u8>) -> bool {
    exists|g: GameState| (#[trigger] ser_spec(g)) == bytes && g.wf()
}

/// One byte more than three counter lines take.
pub const HEADER_BYTES: usize = 63;

/// Bytes of one tally line: five letters, a space, the count, a newline.
pub const ENTRY_BYTES: usize = 27;

proof fn lemma_ser_entries_push(s: Seq<WordCount>, e: WordCount)
    ensures
        ser_entries(s.push(e)) =~= ser_entries(s) + ser_entry(e),
    decreases s.len(),
{
    let whole = s.push(e);
    if s.len() == 0 {
        assert(whole[0] == e);
        assert(whole.drop_first() =~= Seq::<WordCount>::empty());
        assert(ser_entries(Seq::<WordCount>::empty()) =~= Seq::<u8>::empty());
        assert(ser_entries(whole) =~= ser_entry(e) + Seq::<u8>::empty());
        assert(ser_entry(e) + Seq::<u8>::empty() =~= Seq::<u8>::empty() + ser_entry(e));
    } else {
        assert(whole[0] == s[0]);
        assert(whole.drop_first() =~= s.drop_first().push(e));
        lemma_ser_entries_push(s.drop_first(), e);
        assert(ser_entry(s[0]) + (ser_entries(s.drop_first()) + ser_entry(e)) =~= (ser_entry(s[0])
            + ser_entries(s.drop_first())) + ser_entry(e));
    }
}

proof fn lemma_ser_entries_len(s: Seq<WordCount>)
    requires
        forall|t: int| 0 <= t < s.len() ==> s[t].word@.len() == WORD_LEN,
    ensures
        ser_entries(s).len() == ENTRY_BYTES * s.len(),
    decreases s.len(),
{
    if s.len() > 0 {
        assert(forall|t: int|
            0 <= t < s.drop_first().len() ==> s.drop_first()[t].word@.len() == WORD_LEN);
        lemma_ser_entries_len(s.drop_first());
        assert(ser_entry(s[0]).len() == ENTRY_BYTES);
    }
}

proof fn lemma_ser_entries_skip(s: Seq<WordCount>, t: int)
    requires
        0 <= t <= s.len(),
        forall|j: int| 0 <= j < s.len() ==> s[j].word@.len() == WORD_LEN,
    ensures
        ser_entries(s).len() == ENTRY_BYTES * s.len(),
        ser_entries(s).subrange(ENTRY_BYTES * t, ser_entries(s).len() as int) =~= ser_entries(
            s.skip(t),
        ),
    decreases t,
{
    lemma_ser_entries_len(s);
    if t == 0 {
        assert(s.skip(0) =~= s);
        assert(ser_entries(s).subrange(0, ser_entries(s).len() as int) =~= ser_entries(s));
    } else {
        let d = s.drop_first();
        assert(forall|j: int| 0 <= j < d.len() ==> d[j].word@.len() == WORD_LEN);
        lemma_ser_entries_skip(d, t - 1);
        assert(d.skip(t - 1) =~= s.skip(t));
        assert(ser_entry(s[0]).len() == ENTRY_BYTES);
        assert(ser_entries(s).subrange(ENTRY_BYTES * t, ser_entries(s).len() as int)
            =~= ser_entries(d).subrange(ENTRY_BYTES * (t - 1), ser_entries(d).len() as int));
    }
}

/// The shape of a canonical record: its length, its counter lines and its
/// separators.
proof fn lemma_canonical_shape(g: GameState)
    requires
        g.wf(),
    ensures
        ser_spec(g).len() == HEADER_BYTES + ENTRY_BYTES * g.used_words@.len(),
        ser_spec(g).subrange(0, NUM_WIDTH as int) =~= dec_digits(
            g.total_rounds as int,
            NUM_WIDTH as nat,
        ),
        ser_spec(g)[NUM_WIDTH as int] == NL,
        ser_spec(g).subrange(21, 41) =~= dec_digits(g.successful_games as int, NUM_WIDTH as nat),
        ser_spec(g)[41] == NL,
        ser_spec(g).subrange(42, 62) =~= dec_digits(g.attempts as int, NUM_WIDTH as nat),
        ser_spec(g)[62] == NL,
{
    assert(forall|t: int|
        0 <= t < g.used_words@.len() ==> g.used_words@[t].word@.len() == WORD_LEN);
    lemma_ser_entries_len(g.used_words@);
}

/// The bytes a canonical record holds for its tally row `t`.
proof fn lemma_canonical_entry(g: GameState, t: int)
    requires
        g.wf(),
        0 <= t < g.used_words@.len(),
    ensures
        ser_spec(g).len() == HEADER_BYTES + ENTRY_BYTES * g.used_words@.len(),
        ser_spec(g).subrange(
            HEADER_BYTES + ENTRY_BYTES * t,
            HEADER_BYTES + ENTRY_BYTES * t + WORD_LEN,
        ) =~= g.used_words@[t].word@,
        ser_spec(g)[HEADER_BYTES + ENTRY_BYTES * t + WORD_LEN] == SP,
        ser_spec(g).subrange(
            HEADER_BYTES + ENTRY_BYTES * t + WORD_LEN + 1,
            HEADER_BYTES + ENTRY_BYTES * t + WORD_LEN + 1 + NUM_WIDTH,
        ) =~= dec_digits(g.used_words@[t].count as int, NUM_WIDTH as nat),
        ser_spec(g)[HEADER_BYTES + ENTRY_BYTES * t + ENTRY_BYTES - 1] == NL,
{
    let s = g.used_words@;
    assert(forall|j: int| 0 <= j < s.len() ==> s[j].word@.len() == WORD_LEN);
    lemma_ser_entries_skip(s, t);
    let rest = s.skip(t);
    assert(rest[0] == s[t]);
    assert(rest.drop_first() =~= s.skip(t + 1));
    assert(ser_entries(rest) == ser_entry(s[t]) + ser_entries(rest.drop_first()));
    let base = HEADER_BYTES + ENTRY_BYTES * t;
    assert forall|i: int| 0 <= i < ENTRY_BYTES implies ser_spec(g)[base + i] == ser_entry(s[t])[i]
        by {
        assert(ser_entries(s)[ENTRY_BYTES * t + i] == ser_entries(s).subrange(
            ENTRY_BYTES * t,
            ser_entries(s).len() as int,
        )[i]);
    }
    assert forall|i: int|
        0 <= i < WORD_LEN implies ser_spec(g).subrange(base, base + WORD_LEN)[i]
        == s[t].word@[i] by {
        assert(ser_spec(g)[base + i] == ser_entry(s[t])[i]);
        assert(ser_entry(s[t])[i] == s[t].word@[i]);
    }
    assert(ser_spec(g).subrange(base, base + WORD_LEN) =~= s[t].word@);
    assert forall|i: int|
        0 <= i < NUM_WIDTH implies ser_spec(g).subrange(
        base + WORD_LEN + 1,
        base + WORD_LEN + 1 + NUM_WIDTH,
    )[i] == dec_digits(s[t].count as int, NUM_WIDTH as nat)[i] by {
        assert(ser_spec(g)[base + WORD_LEN + 1 + i] == ser_entry(s[t])[WORD_LEN + 1 + i]);
        assert(ser_entry(s[t])[WORD_LEN + 1 + i] == dec_digits(
            s[t].count as int,
            NUM_WIDTH as nat,
        )[i]);
    }
    assert(ser_spec(g).subrange(base + WORD_LEN + 1, base + WORD_LEN + 1 + NUM_WIDTH)
        =~= dec_digits(s[t].count as int, NUM_WIDTH as nat));
    assert(ser_spec(g)[base + WORD_LEN] == ser_entry(s[t])[WORD_LEN as int]);
    assert(ser_entry(s[t])[WORD_LEN as int] == SP);
    assert(ser_spec(g)[base + ENTRY_BYTES - 1] == ser_entry(s[t])[ENTRY_BYTES - 1]);
    assert(ser_entry(s[t])[ENTRY_BYTES - 1] == NL);
}

/// Append all bytes of `v`.
fn push_bytes(out: &mut Vec<u8>, v: &Vec<u8>)
    ensures
        final(out)@ == old(out)@ + v@,
{
    let mut i: usize = 0;
    while i < v.len()
        invariant
            0 <= i <= v@.len(),
            out@ =~= old(out)@ + v@.take(i as int),
        decreases v@.len() - i,
    {
        out.push(v[i]);
        proof {
            assert(out@ =~= old(out)@ + v@.take(i + 1));
        }
        i = i + 1;
    }
    proof {
        assert(v@.take(v@.len() as int) =~= v@);
    }
}

/// Write the statistics as their canonical text record.
pub fn serialize_state(g: &GameState) -> (out: Vec<u8>)
    requires
        g.wf(),
    ensures
        out@ == ser_spec(*g),
{
    let mut out: Vec<u8> = Vec::new();
    push_number(&mut out, g.total_rounds);
    out.push(NL);
    push_number(&mut out, g.successful_games);
    out.push(NL);
    push_number(&mut out, g.attempts);
    out.push(NL);
    proof {
        assert(out@ =~= header_bytes(g.total_rounds, g.successful_games, g.attempts));
    }
    let ghost hdr = out@;
    let mut t: usize = 0;
    while t < g.used_words.len()
        invariant
            g.wf(),
            0 <= t <= g.used_words@.len(),
            hdr == header_bytes(g.total_rounds, g.successful_games, g.attempts),
            out@ == hdr + ser_entries(g.used_words@.take(t as int)),
        decreases g.used_words@.len() - t,
    {
        let ghost pre = out@;
        push_bytes(&mut out, &g.used_words[t].word);
        out.push(SP);
        push_number(&mut out, g.used_words[t].count);
        out.push(NL);
        proof {
            let e = g.used_words@[t as int];
            assert(out@ =~= pre + ser_entry(e));
            lemma_ser_entries_push(g.used_words@.take(t as int), e);
            assert(g.used_words@.take(t + 1) =~= g.used_words@.take(t as int).push(e));
            assert(out@ =~= hdr + ser_entries(g.used_words@.take(t + 1)));
        }
        t = t + 1;
    }
    proof {
        assert(g.used_words@.take(g.used_words@.len() as int) =~= g.used_words@);
    }
    out
}

/// Read the five-letter word at `at`; `None` unless the bytes there are a
/// proper word.
fn read_word(bytes: &Vec<u8>, at: usize) -> (r: Option<Vec<u8>>)
    requires
        at + WORD_LEN <= bytes@.len(),
    ensures
        r is Some <==> is_word(bytes@.subrange(at as int, at + WORD_LEN)),
        r matches Some(w) ==> w@ == bytes@.subrange(at as int, at + WORD_LEN),
{
    let blen = bytes.len();
    let mut w: Vec<u8> = Vec::new();
    let mut i: usize = 0;
    while i < WORD_LEN
        invariant
            0 <= i <= WORD_LEN,
            at + WORD_LEN <= blen,
            blen == bytes@.len(),
            w@ =~= bytes@.subrange(at as int, at + i),
            forall|j: int| 0 <= j < i ==> crate::is_letter(w@[j]),
        decreases WORD_LEN - i,
    {
        let b = bytes[at + i];
        if b < crate::LETTER_A || b > crate::LETTER_Z {
            proof {
                assert(!crate::is_letter(bytes@.subrange(at as int, at + WORD_LEN)[i as int]));
            }
            return None;
        }
        w.push(b);
        proof {
            assert(w@ =~= bytes@.subrange(at as int, at + i + 1));
        }
        i = i + 1;
    }
    proof {
        assert(w@ == bytes@.subrange(at as int, at + WORD_LEN));
        assert(is_word(w@));
    }
    Some(w)
}

/// Whether some already-parsed row carries the word `w`.
fn word_seen(entries: &Vec<WordCount>, w: &Vec<u8>) -> (r: bool)
    ensures
        r == word_in_rows(w@, entries@),
{
    let mut p: usize = 0;
    while p < entries.len()
        invariant
            0 <= p <= entries@.len(),
            forall|j: int| 0 <= j < p ==> entries@[j].word@ != w@,
        decreases entries@.len() - p,
    {
        if crate::bytes_eq(&entries[p].word, w) {
            assert(word_in_rows(w@, entries@));
            return true;
        }
        p = p + 1;
    }
    assert(!word_in_rows(w@, entries@));
    false
}

/// Read a record back. Everything accepted is the canonical record of the
/// well-formed statistics returned; every canonical record of well-formed
/// statistics is accepted and decodes to those statistics.
pub fn parse_state(bytes: &Vec<u8>) -> (r: Option<GameState>)
    ensures
        r matches Some(gr) ==> gr.wf() && bytes@ == ser_spec(gr),
        forall|g2: GameState|
            #![trigger ser_spec(g2)]
            g2.wf() && bytes@ == ser_spec(g2) ==> (r matches Some(gr) && gr.total_rounds
                == g2.total_rounds && gr.successful_games == g2.successful_games && gr.attempts
                == g2.attempts && gr.used_words@.len() == g2.used_words@.len() && (forall|t: int|
                0 <= t < gr.used_words@.len() ==> matches_row(
                    gr.used_words@[t],
                    g2.used_words@[t],
                ))),
{
    let n = bytes.len();
    proof {
        lemma_pow10_u64();
    }
    if n < HEADER_BYTES {
        proof {
            assert forall|g2: GameState| g2.wf() && bytes@ == ser_spec(g2) implies false by {
                lemma_canonical_shape(g2);
            }
        }
        return None;
    }
    let total = match parse_number(bytes, 0) {
        Some(v) => v,
        None => {
            proof {
                assert forall|g2: GameState| g2.wf() && bytes@ == ser_spec(g2) implies false by {
                    lemma_canonical_shape(g2);
                    lemma_dec_digits_are_digits(g2.total_rounds as int, NUM_WIDTH as nat);
                    lemma_digits_roundtrip(g2.total_rounds as int, NUM_WIDTH as nat);
                }
            }
            return None;
        },
    };
    let succ = match parse_number(bytes, 21) {
        Some(v) => v,
        None => {
            proof {
                assert forall|g2: GameState| g2.wf() && bytes@ == ser_spec(g2) implies false by {
                    lemma_canonical_shape(g2);
                    lemma_dec_digits_are_digits(g2.successful_games as int, NUM_WIDTH as nat);
                    lemma_digits_roundtrip(g2.successful_games as int, NUM_WIDTH as nat);
                }
            }
            return None;
        },
    };
    let att = match parse_number(bytes, 42) {
        Some(v) => v,
        None => {
            proof {
                assert forall|g2: GameState| g2.wf() && bytes@ == ser_spec(g2) implies false by {
                    lemma_canonical_shape(g2);
                    lemma_dec_digits_are_digits(g2.attempts as int, NUM_WIDTH as nat);
                    lemma_digits_roundtrip(g2.attempts as int, NUM_WIDTH as nat);
                }
            }
            return None;
        },
    };
    proof {
        assert forall|g2: GameState|
            #![trigger ser_spec(g2)]
            g2.wf() && bytes@ == ser_spec(g2) implies g2.total_rounds == total
            && g2.successful_games == succ && g2.attempts == att by {
            lemma_canonical_shape(g2);
            lemma_digits_roundtrip(g2.total_rounds as int, NUM_WIDTH as nat);
            lemma_digits_roundtrip(g2.successful_games as int, NUM_WIDTH as nat);
            lemma_digits_roundtrip(g2.attempts as int, NUM_WIDTH as nat);
        }
    }
    if bytes[NUM_WIDTH] != NL || bytes[41] != NL || bytes[62] != NL {
        proof {
            assert forall|g2: GameState| g2.wf() && bytes@ == ser_spec(g2) implies false by {
                lemma_canonical_shape(g2);
            }
        }
        return None;
    }
    if succ > total {
        proof {
            assert forall|g2: GameState| g2.wf() && bytes@ == ser_spec(g2) implies false by {
                lemma_canonical_shape(g2);
            }
        }
        return None;
    }
    if (n - HEADER_BYTES) % ENTRY_BYTES != 0 {
        proof {
            assert forall|g2: GameState| g2.wf() && bytes@ == ser_spec(g2) implies false by {
                lemma_canonical_shape(g2);
                let m = g2.used_words@.len() as int;
                vstd::arithmetic::div_mod::lemma_mod_multiples_basic(m, ENTRY_BYTES as int);
                assert((m * (ENTRY_BYTES as int)) % (ENTRY_BYTES as int) == 0);
                assert((ENTRY_BYTES as int) * m == m * (ENTRY_BYTES as int));
            }
        }
        return None;
    }
    let k = (n - HEADER_BYTES) / ENTRY_BYTES;
    proof {
        lemma_fundamental_div_mod(n - HEADER_BYTES, ENTRY_BYTES as int);
        assert(n - HEADER_BYTES == (ENTRY_BYTES as int) * (k as int));
    }
    let mut entries: Vec<WordCount> = Vec::new();
    proof {
        let hb = header_bytes(total, succ, att);
        lemma_digits_canonical(bytes@.subrange(0, NUM_WIDTH as int), NUM_WIDTH as nat);
        lemma_digits_canonical(bytes@.subrange(21, 41), NUM_WIDTH as nat);
        lemma_digits_canonical(bytes@.subrange(42, 62), NUM_WIDTH as nat);
        assert(dec_digits(total as int, NUM_WIDTH as nat) =~= bytes@.subrange(0, NUM_WIDTH as int));
        assert(dec_digits(succ as int, NUM_WIDTH as nat) =~= bytes@.subrange(21, 41));
        assert(dec_digits(att as int, NUM_WIDTH as nat) =~= bytes@.subrange(42, 62));
        assert forall|i: int|
            0 <= i < HEADER_BYTES implies bytes@.subrange(0, HEADER_BYTES as int)[i] == hb[i] by {
            if i < 20 {
                assert(hb[i] == dec_digits(total as int, NUM_WIDTH as nat)[i]);
                assert(bytes@.subrange(0, NUM_WIDTH as int)[i] == bytes@[i]);
            } else if i == 20 {
            } else if i < 41 {
                assert(hb[i] == dec_digits(succ as int, NUM_WIDTH as nat)[i - 21]);
                assert(bytes@.subrange(21, 41)[i - 21] == bytes@[i]);
            } else if i == 41 {
            } else if i < 62 {
                assert(hb[i] == dec_digits(att as int, NUM_WIDTH as nat)[i - 42]);
                assert(bytes@.subrange(42, 62)[i - 42] == bytes@[i]);
            } else {
            }
        }
        assert(ser_entries(Seq::<WordCount>::empty()) =~= Seq::<u8>::empty());
        assert(bytes@.subrange(0, HEADER_BYTES as int) =~= hb + Seq::<u8>::empty());
        assert forall|g2: GameState|
            #![trigger ser_spec(g2)]
            g2.wf() && bytes@ == ser_spec(g2) implies g2.used_words@.len() == k by {
            lemma_canonical_shape(g2);
        }
    }
    let mut t: usize = 0;
    while t < k
        invariant
            0 <= t <= k,
            n == bytes@.len(),
            n as int - HEADER_BYTES as int == (ENTRY_BYTES as int) * (k as int),
            HEADER_BYTES + ENTRY_BYTES * k <= n,
            entries@.len() == t,
            succ <= total,
            pow10(NUM_WIDTH as nat) == 100_000_000_000_000_000_000,
            forall|j: int| 0 <= j < t ==> is_word(entries@[j].word@),
            forall|j: int| 0 <= j < t ==> entries@[j].count >= 1,
            distinct_words(entries@),
            bytes@.subrange(0, HEADER_BYTES + ENTRY_BYTES * (t as int)) =~= header_bytes(
                total,
                succ,
                att,
            ) + ser_entries(entries@),
            forall|g2: GameState|
                #![trigger ser_spec(g2)]
                g2.wf() && bytes@ == ser_spec(g2) ==> (g2.used_words@.len() == k
                    && g2.total_rounds == total && g2.successful_games == succ && g2.attempts == att
                    && (forall|j: int|
                    0 <= j < t ==> matches_row(entries@[j], g2.used_words@[j]))),
        decreases k - t,
    {
        let pos = HEADER_BYTES + t * ENTRY_BYTES;
        let w = match read_word(bytes, pos) {
            Some(w) => w,
            None => {
                proof {
                    assert forall|g2: GameState| g2.wf() && bytes@ == ser_spec(g2) implies false by {
                        lemma_canonical_entry(g2, t as int);
                        assert(is_word(
                            bytes@.subrange(pos as int, pos + WORD_LEN),
                        ));
                    }
                }
                return None;
            },
        };
        if bytes[pos + WORD_LEN] != SP {
            proof {
                assert forall|g2: GameState| g2.wf() && bytes@ == ser_spec(g2) implies false by {
                    lemma_canonical_entry(g2, t as int);
                }
            }
            return None;
        }
        let c = match parse_number(bytes, pos + WORD_LEN + 1) {
            Some(v) => v,
            None => {
                proof {
                    let at = pos + WORD_LEN + 1;
                    assert forall|g2: GameState| g2.wf() && bytes@ == ser_spec(g2) implies false by {
                        lemma_canonical_entry(g2, t as int);
                        let cv = g2.used_words@[t as int].count;
                        lemma_dec_digits_are_digits(cv as int, NUM_WIDTH as nat);
                        lemma_digits_roundtrip(cv as int, NUM_WIDTH as nat);
                        assert(bytes@.subrange(at as int, at + NUM_WIDTH) =~= dec_digits(
                            cv as int,
                            NUM_WIDTH as nat,
                        ));
                        assert forall|j: int| at <= j < at + NUM_WIDTH implies is_digit(
                            bytes@[j],
                        ) by {
                            assert(bytes@[j] == bytes@.subrange(at as int, at + NUM_WIDTH)[j
                                - at]);
                        }
                        assert(all_digits(bytes@, at as int, at + NUM_WIDTH));
                        assert(digits_val(bytes@.subrange(at as int, at + NUM_WIDTH)) == cv);
                    }
                }
                return None;
            },
        };
        if c == 0 {
            proof {
                let at = pos + WORD_LEN + 1;
                assert forall|g2: GameState| g2.wf() && bytes@ == ser_spec(g2) implies false by {
                    lemma_canonical_entry(g2, t as int);
                    let cv = g2.used_words@[t as int].count;
                    lemma_digits_roundtrip(cv as int, NUM_WIDTH as nat);
                    assert(bytes@.subrange(at as int, at + NUM_WIDTH) =~= dec_digits(
                        cv as int,
                        NUM_WIDTH as nat,
                    ));
                    assert(digits_val(bytes@.subrange(at as int, at + NUM_WIDTH)) == cv);
                    assert(cv >= 1);
                }
            }
            return None;
        }
        if bytes[pos + ENTRY_BYTES - 1] != NL {
            proof {
                assert forall|g2: GameState| g2.wf() && bytes@ == ser_spec(g2) implies false by {
                    lemma_canonical_entry(g2, t as int);
                }
            }
            return None;
        }
        if word_seen(&entries, &w) {
            proof {
                assert forall|g2: GameState| g2.wf() && bytes@ == ser_spec(g2) implies false by {
                    lemma_canonical_entry(g2, t as int);
                    let p = choose|p: int|
                        0 <= p < entries@.len() && entries@[p].word@ == w@;
                    assert(matches_row(entries@[p], g2.used_words@[p]));
                    assert(g2.used_words@[p].word@ == g2.used_words@[t as int].word@);
                }
            }
            return None;
        }
        let ghost entries_old = entries@;
        let ghost wv = w@;
        entries.push(WordCount { word: w, count: c });
        proof {
            let ti = t as int;
            let e = entries@[ti];
            assert(e.word@ == wv && e.count == c);
            assert forall|a: int, b: int|
                0 <= a < b < entries@.len() implies entries@[a].word@ != entries@[b].word@ by {
                if b < ti {
                    assert(entries_old[a].word@ != entries_old[b].word@);
                } else {
                    assert(!word_in_rows(wv, entries_old));
                    if entries@[a].word@ == wv {
                        assert(entries_old[a].word@ == wv);
                        assert(word_in_rows(wv, entries_old));
                    }
                }
            }
            let digits = bytes@.subrange(
                pos + WORD_LEN + 1,
                pos + WORD_LEN + 1 + NUM_WIDTH,
            );
            lemma_digits_canonical(digits, NUM_WIDTH as nat);
            assert(dec_digits(c as int, NUM_WIDTH as nat) =~= digits);
            assert forall|i: int|
                0 <= i < ENTRY_BYTES implies bytes@.subrange(pos as int, pos + ENTRY_BYTES)[i]
                == ser_entry(e)[i] by {
                if i < WORD_LEN {
                    assert(ser_entry(e)[i] == wv[i]);
                    assert(bytes@[pos + i] == wv[i]);
                } else if i == WORD_LEN {
                    assert(ser_entry(e)[i] == SP);
                } else if i < ENTRY_BYTES - 1 {
                    assert(ser_entry(e)[i] == dec_digits(c as int, NUM_WIDTH as nat)[i - WORD_LEN
                        - 1]);
                    assert(bytes@[pos + i] == digits[i - WORD_LEN - 1]);
                } else {
                    assert(ser_entry(e)[i] == NL);
                }
            }
            assert(bytes@.subrange(pos as int, pos + ENTRY_BYTES) =~= ser_entry(e));
            lemma_ser_entries_push(entries_old, e);
            assert(entries@ =~= entries_old.push(e));
            assert(bytes@.subrange(0, HEADER_BYTES + ENTRY_BYTES * (ti + 1)) =~= bytes@.subrange(
                0,
                HEADER_BYTES + ENTRY_BYTES * ti,
            ) + bytes@.subrange(pos as int, pos + ENTRY_BYTES));
            assert(bytes@.subrange(0, HEADER_BYTES + ENTRY_BYTES * (ti + 1)) =~= header_bytes(
                total,
                succ,
                att,
            ) + ser_entries(entries@));
            assert forall|g2: GameState|
                #![trigger ser_spec(g2)]
                g2.wf() && bytes@ == ser_spec(g2) implies (forall|j: int|
                0 <= j < ti + 1 ==> matches_row(entries@[j], g2.used_words@[j])) by {
                lemma_canonical_entry(g2, ti);
                lemma_digits_roundtrip(g2.used_words@[ti].count as int, NUM_WIDTH as nat);
                assert(g2.used_words@[ti].word@ == wv);
                assert(g2.used_words@[ti].count == c);
                assert forall|j: int|
                    0 <= j < ti + 1 implies matches_row(entries@[j], g2.used_words@[j]) by {
                    if j < ti {
                        assert(matches_row(entries_old[j], g2.used_words@[j]));
                    }
                }
            }
        }
        t = t + 1;
    }
    let gr = GameState { total_rounds: total, successful_games: succ, attempts: att, used_words: entries };
    proof {
        assert(bytes@.subrange(0, n as int) =~= bytes@);
        assert(bytes@ == header_bytes(total, succ, att) + ser_entries(gr.used_words@));
        assert(bytes@ == ser_spec(gr));
        assert(gr.wf());
    }
    Some(gr)
}

/// Load statistics from a record's bytes: a canonical record loads back,
/// anything else begins a fresh session with all counters zero.
pub fn load_state(bytes: &Vec<u8>) -> (r: GameState)
    ensures
        r.wf(),
        is_saved_state(bytes@) ==> bytes@ == ser_spec(r),
        !is_saved_state(bytes@) ==> r.total_rounds == 0 && r.successful_games == 0 && r.attempts
            == 0 && r.used_words@.len() == 0,
{
    match parse_state(bytes) {
        Some(g) => g,
        None => {
            proof {
                if is_saved_state(bytes@) {
                    let g2 = choose|g2: GameState| ser_spec(g2) == bytes@ && g2.wf();
                    assert(g2.wf() && bytes@ == ser_spec(g2));
                }
            }
            GameState::new()
        },
    }
}

/// Two well-formed statistics with the same record are the same statistics:
/// saving and then loading reproduces every counter and every tally row.
pub proof fn lemma_record_determines_stats(g1: GameState, g2: GameState)
    requires
        g1.wf(),
        g2.wf(),
        ser_spec(g1) == ser_spec(g2),
    ensures
        g1.total_rounds == g2.total_rounds,
        g1.successful_games == g2.successful_games,
        g1.attempts == g2.attempts,
        g1.used_words@.len() == g2.used_words@.len(),
        forall|t: int|
            0 <= t < g1.used_words@.len() ==> matches_row(g1.used_words@[t], g2.used_words@[t]),
{
    lemma_pow10_u64();
    lemma_canonical_shape(g1);
    lemma_canonical_shape(g2);
    lemma_digits_roundtrip(g1.total_rounds as int, NUM_WIDTH as nat);
    lemma_digits_roundtrip(g2.total_rounds as int, NUM_WIDTH as nat);
    lemma_digits_roundtrip(g1.successful_games as int, NUM_WIDTH as nat);
    lemma_digits_roundtrip(g2.successful_games as int, NUM_WIDTH as nat);
    lemma_digits_roundtrip(g1.attempts as int, NUM_WIDTH as nat);
    lemma_digits_roundtrip(g2.attempts as int, NUM_WIDTH as nat);
    assert forall|t: int|
        0 <= t < g1.used_words@.len() implies matches_row(
        g1.used_words@[t],
        g2.used_words@[t],
    ) by {
        lemma_canonical_entry(g1, t);
        lemma_canonical_entry(g2, t);
        lemma_digits_roundtrip(g1.used_words@[t].count as int, NUM_WIDTH as nat);
        lemma_digits_roundtrip(g2.used_words@[t].count as int, NUM_WIDTH as nat);
    }
}

} // verus!
