//! The scanner's state as the executable code holds it.

use crate::model::{all_digits, mode_wf, pending, Literal, Mode};
use vstd::prelude::*;

verus! {

/// What the scanner carries from one byte of a buffer to the next.
///
/// Offsets are offsets into the buffer that is being rewritten.
#[derive(Clone, Copy, Debug, PartialEq, Eq, Structural)]
pub enum State {
    /// Outside of any token.
    Initial,
    /// Inside a string literal.
    Quoted,
    /// Inside a string literal, directly behind a backslash.
    QuotedEscape,
    /// The `progress` bytes before the current one are the first `progress`
    /// bytes of `kind`.
    MatchingLiteral { kind: Literal, progress: usize },
    /// The bytes from `start` up to the current one are a run of digits.
    InNumber { start: usize },
}

impl State {
    /// The mode that this state stands for when the next byte to read is at
    /// offset `i`.
    pub open spec fn mode(self, i: int) -> Mode {
        match self {
            State::Initial => Mode::Initial,
            State::Quoted => Mode::Quoted,
            State::QuotedEscape => Mode::QuotedEscape,
            State::MatchingLiteral { kind, progress } => Mode::Matching {
                kind,
                matched: progress as nat,
            },
            State::InNumber { start } => Mode::Number { digits: (i - start) as nat },
        }
    }

    /// Whether this state can be the scanner's state in front of offset `i` of
    /// the buffer `buf`: the pending token lies in `buf` and ends at `i`, and a
    /// pending run of digits consists of digits.
    pub open spec fn fits(self, buf: Seq<u8>, i: int) -> bool {
        &&& 0 <= i <= buf.len()
        &&& mode_wf(self.mode(i))
        &&& pending(self.mode(i)) <= i
        &&& self matches State::InNumber { start } ==> start < i && all_digits(
            buf.subrange(start as int, i),
        )
    }
}

} // verus!
