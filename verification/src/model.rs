//! The mathematical model of the rewriter.
//!
//! The scanner reads its input one byte at a time.  Between two bytes it is in
//! a [`Mode`], which says what kind of token it is inside and how many of the
//! most recent bytes belong to that token.  Those bytes are *pending*: the
//! scanner has passed them on unchanged, and it may still replace them once
//! the token is complete.  Everything before them is settled for good.
//!
//! [`translated`] is the result of the whole rewrite, defined by folding
//! [`absorb`] over the input and then closing whatever token is still open.

use vstd::prelude::*;

verus! {

/// `"`
pub const QUOTE: u8 = 0x22;

/// `\`
pub const BACKSLASH: u8 = 0x5c;

/// `.`
pub const DOT: u8 = 0x2e;

/// `0`
pub const DIGIT_ZERO: u8 = 0x30;

/// `9`
pub const DIGIT_NINE: u8 = 0x39;

/// A single space, the filler that keeps a rewritten token at its length.
pub const SPACE: u8 = 0x20;

/// `E`
pub const UPPER_E: u8 = 0x45;

/// `I`
pub const UPPER_I: u8 = 0x49;

/// `N`
pub const UPPER_N: u8 = 0x4e;

/// `a`
pub const LOWER_A: u8 = 0x61;

/// `e`
pub const LOWER_E: u8 = 0x65;

/// `f`
pub const LOWER_F: u8 = 0x66;

/// `i`
pub const LOWER_I: u8 = 0x69;

/// `n`
pub const LOWER_N: u8 = 0x6e;

/// `t`
pub const LOWER_T: u8 = 0x74;

/// `y`
pub const LOWER_Y: u8 = 0x79;

/// The byte that stands for the end of the input.  It begins no token and
/// continues none, so it closes whatever token is open.
pub const TERMINATOR: u8 = 0;

/// The bare identifiers that the scanner recognises outside of strings.
#[derive(Clone, Copy, Debug, PartialEq, Eq, Structural)]
pub enum Literal {
    NaN,
    Infinity,
}

/// What the scanner remembers between two bytes.
pub enum Mode {
    /// Outside of any token.
    Initial,
    /// Inside a string literal.
    Quoted,
    /// Inside a string literal, directly behind a backslash.
    QuotedEscape,
    /// The last `matched` bytes are the first `matched` bytes of `kind`.
    Matching { kind: Literal, matched: nat },
    /// The last `digits` bytes are a run of decimal digits.
    Number { digits: nat },
}

/// The bytes of a literal.
pub open spec fn literal_text(kind: Literal) -> Seq<u8> {
    match kind {
        Literal::NaN => seq![UPPER_N, LOWER_A, UPPER_N],
        Literal::Infinity => seq![
            UPPER_I,
            LOWER_N,
            LOWER_F,
            LOWER_I,
            LOWER_N,
            LOWER_I,
            LOWER_T,
            LOWER_Y,
        ],
    }
}

/// Whether `c` is an ASCII decimal digit.
pub open spec fn is_digit(c: u8) -> bool {
    DIGIT_ZERO <= c <= DIGIT_NINE
}

/// Whether `c`, coming directly behind a run of digits, leaves that run an
/// integer literal.  A digit continues the run; `.`, `E` and `e` make it part
/// of a number with a fraction or an exponent.
pub open spec fn ends_integer(c: u8) -> bool {
    !is_digit(c) && c != DOT && c != UPPER_E && c != LOWER_E
}

/// The number that a run of decimal digits denotes.
pub open spec fn digits_value(run: Seq<u8>) -> nat
    decreases run.len(),
{
    if run.len() == 0 {
        0
    } else {
        digits_value(run.drop_last()) * 10 + (run.last() - DIGIT_ZERO) as nat
    }
}

/// Whether a run of decimal digits denotes a number that no 64-bit integer
/// type holds.  A run of digits carries no sign, so the widest type that could
/// hold it is the unsigned one.
pub open spec fn oversized(run: Seq<u8>) -> bool {
    digits_value(run) > u64::MAX
}

/// Whether every byte of `run` is a decimal digit.
pub open spec fn all_digits(run: Seq<u8>) -> bool {
    forall|j: int| 0 <= j < run.len() ==> is_digit(#[trigger] run[j])
}

/// The mode that `c` leads to when it is read outside of any token.
pub open spec fn start_mode(c: u8) -> Mode {
    if c == UPPER_N {
        Mode::Matching { kind: Literal::NaN, matched: 1 }
    } else if c == UPPER_I {
        Mode::Matching { kind: Literal::Infinity, matched: 1 }
    } else if c == QUOTE {
        Mode::Quoted
    } else if is_digit(c) {
        Mode::Number { digits: 1 }
    } else {
        Mode::Initial
    }
}

/// Whether `c` is the last byte of the literal that `m` is matching.
pub open spec fn completes(m: Mode, c: u8) -> bool {
    m matches Mode::Matching { kind, matched } && matched + 1 == literal_text(kind).len() && c
        == literal_text(kind)[matched as int]
}

/// The mode after reading `c` in mode `m`.
///
/// A byte that breaks off a literal is read as if no literal had been begun.
/// A byte that ends a run of digits is consumed by doing so: it begins no
/// token of its own.
pub open spec fn next_mode(m: Mode, c: u8) -> Mode {
    match m {
        Mode::Initial => start_mode(c),
        Mode::Quoted => if c == BACKSLASH {
            Mode::QuotedEscape
        } else if c == QUOTE {
            Mode::Initial
        } else {
            Mode::Quoted
        },
        Mode::QuotedEscape => Mode::Quoted,
        Mode::Matching { kind, matched } => if c == literal_text(kind)[matched as int] {
            if matched + 1 == literal_text(kind).len() {
                Mode::Initial
            } else {
                Mode::Matching { kind, matched: matched + 1 }
            }
        } else {
            start_mode(c)
        },
        Mode::Number { digits } => if is_digit(c) {
            Mode::Number { digits: digits + 1 }
        } else {
            Mode::Initial
        },
    }
}

/// How many of the most recent bytes are pending in mode `m`.
pub open spec fn pending(m: Mode) -> nat {
    match m {
        Mode::Matching { matched, .. } => matched,
        Mode::Number { digits } => digits,
        _ => 0,
    }
}

/// The modes that the scanner can be in: a literal is matched by at least one
/// byte and never to its end, and a run of digits is never empty.
pub open spec fn mode_wf(m: Mode) -> bool {
    match m {
        Mode::Matching { kind, matched } => 1 <= matched < literal_text(kind).len(),
        Mode::Number { digits } => 1 <= digits,
        _ => true,
    }
}

/// What replaces a token of `n` bytes: `0`, then spaces up to the token's
/// length.
pub open spec fn zero_padded(n: nat) -> Seq<u8> {
    Seq::new(
        n,
        |j: int|
            if j == 0 {
                DIGIT_ZERO
            } else {
                SPACE
            },
    )
}

/// `out` with its last `n` bytes replaced by [`zero_padded`].
pub open spec fn with_tail_zeroed(out: Seq<u8>, n: nat) -> Seq<u8> {
    out.take(out.len() - n) + zero_padded(n)
}

/// The output `out` once the token that is pending in mode `m` is closed as it
/// stands: a pending run of digits is an integer literal, and is replaced if it
/// is oversized.  An unfinished literal stays as it is.
pub open spec fn settle(out: Seq<u8>, m: Mode) -> Seq<u8> {
    match m {
        Mode::Number { digits } => if oversized(out.skip(out.len() - digits)) {
            with_tail_zeroed(out, digits)
        } else {
            out
        },
        _ => out,
    }
}

/// The output after reading `c` in mode `m`, where `out` is the output before.
///
/// The byte that completes a literal is replaced together with the literal's
/// pending bytes.  A byte that ends an integer literal settles it and is then
/// passed on.  Every other byte is passed on, leaving `out` as it is.
pub open spec fn absorb(out: Seq<u8>, m: Mode, c: u8) -> Seq<u8> {
    if completes(m, c) {
        with_tail_zeroed(out.push(c), pending(m) + 1)
    } else if m is Number && ends_integer(c) {
        settle(out, m).push(c)
    } else {
        out.push(c)
    }
}

/// The mode after reading all of `input`, beginning in mode `m`.
pub open spec fn mode_from(m: Mode, input: Seq<u8>) -> Mode
    decreases input.len(),
{
    if input.len() == 0 {
        m
    } else {
        next_mode(mode_from(m, input.drop_last()), input.last())
    }
}

/// The output after reading all of `input`, beginning in mode `m` with the
/// output `out`.
pub open spec fn absorb_all(out: Seq<u8>, m: Mode, input: Seq<u8>) -> Seq<u8>
    decreases input.len(),
{
    if input.len() == 0 {
        out
    } else {
        absorb(
            absorb_all(out, m, input.drop_last()),
            mode_from(m, input.drop_last()),
            input.last(),
        )
    }
}

/// The mode of a scanner that has read `s` from its beginning.
pub open spec fn mode_after(s: Seq<u8>) -> Mode {
    mode_from(Mode::Initial, s)
}

/// The output of a scanner that has read `s` from its beginning and has not
/// been told that `s` is complete.
pub open spec fn scanned(s: Seq<u8>) -> Seq<u8> {
    absorb_all(Seq::empty(), Mode::Initial, s)
}

/// The rewrite of the complete input `s`.
pub open spec fn translated(s: Seq<u8>) -> Seq<u8> {
    settle(scanned(s), mode_after(s))
}

} // verus!
