//! The transition engine: one step of the scanner on a buffer that is
//! rewritten in place.

use crate::lemmas::{lemma_digits_value_grows, lemma_digits_value_push, lemma_literal_lengths};
use crate::model::{
    absorb, all_digits, digits_value, is_digit, literal_text, next_mode, oversized, start_mode,
    zero_padded, Literal, BACKSLASH, DIGIT_NINE, DIGIT_ZERO, DOT, LOWER_A, LOWER_E, LOWER_F,
    LOWER_I, LOWER_N, LOWER_T, LOWER_Y, QUOTE, SPACE, UPPER_E, UPPER_I, UPPER_N,
};
use crate::state::State;
use vstd::prelude::*;

verus! {

/// Whether the digits of `bytes` from `start` up to `end` denote a number
/// above `u64::MAX`.
pub fn exceeds_u64(bytes: &[u8], start: usize, end: usize) -> (r: bool)
    requires
        start <= end <= bytes@.len(),
        all_digits(bytes@.subrange(start as int, end as int)),
    ensures
        r == oversized(bytes@.subrange(start as int, end as int)),
{
    let ghost run = bytes@.subrange(start as int, end as int);
    let mut value: u64 = 0;
    let mut k: usize = start;
    while k < end
        invariant
            start <= k <= end <= bytes@.len(),
            run == bytes@.subrange(start as int, end as int),
            all_digits(run),
            value == digits_value(run.take(k - start)),
        decreases end - k,
    {
        let c: u8 = bytes[k];
        proof {
            assert(run[k - start] == c);
            assert(is_digit(c));
            assert(run.take(k - start + 1) =~= run.take(k - start).push(c));
            lemma_digits_value_push(run.take(k - start), c);
        }
        let digit: u64 = (c - DIGIT_ZERO) as u64;
        let next: Option<u64> = match value.checked_mul(10) {
            Some(tenfold) => tenfold.checked_add(digit),
            None => None,
        };
        match next {
            Some(v) => {
                value = v;
            },
            None => {
                proof {
                    lemma_digits_value_grows(run, k - start + 1);
                }
                return true;
            },
        }
        k += 1;
    }
    proof {
        assert(run.take(end - start) =~= run);
    }
    false
}

/// Overwrites the bytes from `from` up to `to` with `0` followed by spaces.
pub fn zero_fill(bytes: &mut [u8], from: usize, to: usize)
    requires
        from < to <= old(bytes)@.len(),
    ensures
        final(bytes)@ == old(bytes)@.take(from as int) + zero_padded((to - from) as nat) + old(
            bytes,
        )@.skip(to as int),
{
    bytes[from] = DIGIT_ZERO;
    let mut j: usize = from + 1;
    while j < to
        invariant
            from < j <= to <= bytes@.len(),
            bytes@.len() == old(bytes)@.len(),
            bytes@ == old(bytes)@.take(from as int) + zero_padded((j - from) as nat) + old(
                bytes,
            )@.skip(j as int),
        decreases to - j,
    {
        bytes[j] = SPACE;
        j += 1;
    }
}

/// Whether `c` is an ASCII decimal digit.
pub fn is_ascii_digit(c: u8) -> (r: bool)
    ensures
        r == is_digit(c),
{
    DIGIT_ZERO <= c && c <= DIGIT_NINE
}

/// The number of bytes of a literal.
pub fn literal_len(kind: Literal) -> (n: usize)
    ensures
        n == literal_text(kind).len(),
{
    match kind {
        Literal::NaN => 3,
        Literal::Infinity => 8,
    }
}

/// The byte of a literal at offset `at`.
pub fn literal_byte(kind: Literal, at: usize) -> (c: u8)
    requires
        at < literal_text(kind).len(),
    ensures
        c == literal_text(kind)[at as int],
{
    match kind {
        Literal::NaN => if at == 1 {
            LOWER_A
        } else {
            UPPER_N
        },
        Literal::Infinity => if at == 0 {
            UPPER_I
        } else if at == 1 || at == 4 {
            LOWER_N
        } else if at == 2 {
            LOWER_F
        } else if at == 3 || at == 5 {
            LOWER_I
        } else if at == 6 {
            LOWER_T
        } else {
            LOWER_Y
        },
    }
}

/// The state that the byte `c` at offset `i` leads to when it is read outside
/// of any token.
pub fn start_state(i: usize, c: u8) -> (state: State)
    ensures
        state.mode(i + 1) == start_mode(c),
        state matches State::InNumber { start } ==> start == i && is_digit(c),
{
    if c == UPPER_N {
        State::MatchingLiteral { kind: Literal::NaN, progress: 1 }
    } else if c == UPPER_I {
        State::MatchingLiteral { kind: Literal::Infinity, progress: 1 }
    } else if c == QUOTE {
        State::Quoted
    } else if is_ascii_digit(c) {
        State::InNumber { start: i }
    } else {
        State::Initial
    }
}

/// One step of the scanner.
///
/// `state` is the scanner's state in front of offset `i` of `bytes`, and `c` is
/// the byte at that offset, or the byte that stands for the end of the input
/// where `i` is the length of `bytes`.  The result is the state behind that
/// byte and the byte to store at offset `i`.  Where `c` completes a token that
/// has to go, the token's bytes in front of `i` are overwritten; no other byte
/// of `bytes` changes.
pub fn transition(bytes: &mut [u8], state: State, i: usize, c: u8) -> (r: (State, u8))
    requires
        state.fits(old(bytes)@, i as int),
        i < old(bytes)@.len() ==> old(bytes)@[i as int] == c,
    ensures
        final(bytes)@.len() == old(bytes)@.len(),
        final(bytes)@.take(i as int) == absorb(
            old(bytes)@.take(i as int),
            state.mode(i as int),
            c,
        ).drop_last(),
        final(bytes)@.skip(i as int) == old(bytes)@.skip(i as int),
        r.1 == absorb(old(bytes)@.take(i as int), state.mode(i as int), c).last(),
        r.0.mode(i + 1) == next_mode(state.mode(i as int), c),
        r.0.fits(absorb(old(bytes)@.take(i as int), state.mode(i as int), c), i + 1),
{
    let ghost out = bytes@.take(i as int);
    let ghost m = state.mode(i as int);
    proof {
        lemma_literal_lengths();
    }
    let r = match state {
        State::Initial => {
            let next = start_state(i, c);
            proof {
                lemma_fits_fresh(out, next, c);
            }
            (next, c)
        },
        State::Quoted => if c == BACKSLASH {
            (State::QuotedEscape, c)
        } else if c == QUOTE {
            (State::Initial, c)
        } else {
            (State::Quoted, c)
        },
        State::QuotedEscape => (State::Quoted, c),
        State::MatchingLiteral { kind, progress } => {
            if c == literal_byte(kind, progress) {
                if progress + 1 == literal_len(kind) {
                    zero_fill(bytes, i - progress, i);
                    proof {
                        let head = out.take(i - progress);
                        assert(bytes@.take(i as int) =~= head + zero_padded(progress as nat));
                        assert(out.push(c).take(i - progress) =~= head);
                        assert(bytes@.take(i as int).push(SPACE) =~= head + zero_padded(
                            (progress + 1) as nat,
                        ));
                    }
                    (State::Initial, SPACE)
                } else {
                    (State::MatchingLiteral { kind, progress: progress + 1 }, c)
                }
            } else {
                let next = start_state(i, c);
                proof {
                    lemma_fits_fresh(out, next, c);
                }
                (next, c)
            }
        },
        State::InNumber { start } => {
            if is_ascii_digit(c) {
                proof {
                    let longer = out.push(c);
                    assert forall|j: int| 0 <= j < i + 1 - start implies is_digit(
                        #[trigger] longer.subrange(start as int, i + 1)[j],
                    ) by {
                        if j < i - start {
                            assert(longer.subrange(start as int, i + 1)[j] == old(bytes)@.subrange(
                                start as int,
                                i as int,
                            )[j]);
                        }
                    }
                }
                (state, c)
            } else {
                proof {
                    assert(out.skip(out.len() - (i - start)) =~= bytes@.subrange(
                        start as int,
                        i as int,
                    ));
                }
                if c != DOT && c != UPPER_E && c != LOWER_E && exceeds_u64(bytes, start, i) {
                    zero_fill(bytes, start, i);
                    proof {
                        assert(bytes@.take(i as int) =~= out.take(start as int) + zero_padded(
                            (i - start) as nat,
                        ));
                    }
                }
                (State::Initial, c)
            }
        },
    };
    proof {
        let stepped = absorb(out, m, c);
        assert(bytes@.take(i as int).push(r.1) == stepped);
        assert(stepped.drop_last() =~= bytes@.take(i as int));
    }
    r
}

/// A state that begins with the byte `c` fits a buffer that ends with `c`.
proof fn lemma_fits_fresh(out: Seq<u8>, next: State, c: u8)
    requires
        next.mode(out.len() as int + 1) == start_mode(c),
        next matches State::InNumber { start } ==> start == out.len() && is_digit(c),
    ensures
        next.fits(out.push(c), out.len() as int + 1),
{
    lemma_literal_lengths();
    if let State::InNumber { start } = next {
        assert(out.push(c).subrange(start as int, out.len() as int + 1) =~= seq![c]);
    }
}

} // verus!
