//! The streaming driver: the scanner fed with the input in chunks.
//!
//! A chunk may end in the middle of a token.  Whether such a token has to be
//! replaced is known only when it is complete, so its bytes are held back and
//! handed out with a later chunk, or at the end of the input.  Every byte that
//! is handed out is final.

use crate::buffer::{finish_slice, translate_slice_impl};
use crate::lemmas::lemma_mode_from_wf;
use crate::model::{absorb_all, mode_from, pending, settle, Mode};
use crate::state::State;
use vstd::prelude::*;

verus! {

/// What a stream in mode `m` that holds back `held` hands out when it is fed
/// `chunk`: the output for `held` and `chunk` up to the token that is pending
/// behind `chunk`.
pub open spec fn fed_output(m: Mode, held: Seq<u8>, chunk: Seq<u8>) -> Seq<u8> {
    let work = absorb_all(held, m, chunk);
    work.take(work.len() - pending(mode_from(m, chunk)))
}

/// What a stream in mode `m` that holds back `held` holds back once it has
/// been fed `chunk`: the bytes of the token that is pending behind `chunk`.
pub open spec fn fed_held(m: Mode, held: Seq<u8>, chunk: Seq<u8>) -> Seq<u8> {
    let work = absorb_all(held, m, chunk);
    work.skip(work.len() - pending(mode_from(m, chunk)))
}

/// A scanner that takes its input in chunks and hands out the rewritten bytes
/// as soon as they are final.
pub struct StreamTranslator {
    /// The scanner's state behind the last byte of `held`.
    state: State,
    /// The bytes of the pending token.
    held: Vec<u8>,
}

impl StreamTranslator {
    #[verifier::type_invariant]
    spec fn inv(self) -> bool {
        &&& self.state.fits(self.held@, self.held@.len() as int)
        &&& pending(self.state.mode(self.held@.len() as int)) == self.held@.len()
    }

    /// The scanner's mode behind the input that was fed so far.
    pub closed spec fn mode(&self) -> Mode {
        self.state.mode(self.held@.len() as int)
    }

    /// The bytes that were fed and not yet handed out.
    pub closed spec fn held(&self) -> Seq<u8> {
        self.held@
    }

    /// A stream at the beginning of its input.
    pub fn new() -> (stream: Self)
        ensures
            stream.mode() == Mode::Initial,
            stream.held() == Seq::<u8>::empty(),
    {
        StreamTranslator { state: State::Initial, held: Vec::new() }
    }

    /// Takes the next chunk of the input and returns the bytes that are final
    /// now.  Over the whole input as many bytes are handed out as were fed; a
    /// single call may return fewer bytes than it was given, or more.
    pub fn feed(&mut self, chunk: &[u8]) -> (out: Vec<u8>)
        ensures
            out@ == fed_output(old(self).mode(), old(self).held(), chunk@),
            final(self).held() == fed_held(old(self).mode(), old(self).held(), chunk@),
            final(self).mode() == mode_from(old(self).mode(), chunk@),
            final(self).held().len() == pending(final(self).mode()),
    {
        proof {
            use_type_invariant(&*self);
        }
        let from: usize = self.held.len();
        let mut work: Vec<u8> = self.held.clone();
        work.extend_from_slice(chunk);
        proof {
            assert(work@.take(from as int) =~= self.held@);
            assert(work@.skip(from as int) =~= chunk@);
            if let State::InNumber { start } = self.state {
                assert(work@.subrange(start as int, from as int) =~= self.held@.subrange(
                    start as int,
                    from as int,
                ));
            }
            lemma_mode_from_wf(self.state.mode(from as int), chunk@);
        }
        let n: usize = work.len();
        let end = translate_slice_impl(work.as_mut_slice(), self.state, from);
        let keep: usize = match end {
            State::MatchingLiteral { progress, .. } => progress,
            State::InNumber { start } => n - start,
            _ => 0,
        };
        let held = work.split_off(n - keep);
        let state = match end {
            State::InNumber { start } => State::InNumber { start: 0 },
            _ => end,
        };
        proof {
            if let State::InNumber { start } = end {
                assert(held@.subrange(0, keep as int) =~= held@);
            }
        }
        *self = StreamTranslator { state, held };
        work
    }

    /// Tells the stream that its input is complete and returns the bytes that
    /// it still held back, the pending token closed.  The stream is then at the
    /// beginning of a new input.
    pub fn finish(&mut self) -> (out: Vec<u8>)
        ensures
            out@ == settle(old(self).held(), old(self).mode()),
            final(self).mode() == Mode::Initial,
            final(self).held() == Seq::<u8>::empty(),
    {
        proof {
            use_type_invariant(&*self);
        }
        let mut work: Vec<u8> = self.held.clone();
        finish_slice(work.as_mut_slice(), self.state);
        *self = StreamTranslator { state: State::Initial, held: Vec::new() };
        work
    }
}

} // verus!
