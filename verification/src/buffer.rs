//! The whole-buffer driver: the scanner run over a byte slice in place.

use crate::engine::transition;
use crate::lemmas::lemma_absorb_terminator;
use crate::model::{absorb, absorb_all, mode_from, settle, translated, TERMINATOR};
use crate::state::State;
use vstd::prelude::*;

verus! {

/// Runs the scanner over `bytes` from offset `from` to the end, in place.
///
/// `state` is the scanner's state in front of offset `from`; the bytes before
/// `from` are what was read before, the pending token among them.  The result
/// is the state behind the last byte.  The token that is pending there stays
/// open: more input may follow in a longer buffer that begins with these
/// bytes, or [`finish_slice`] closes it.
pub fn translate_slice_impl(bytes: &mut [u8], state: State, from: usize) -> (end: State)
    requires
        state.fits(old(bytes)@, from as int),
    ensures
        final(bytes)@.len() == old(bytes)@.len(),
        final(bytes)@ == absorb_all(
            old(bytes)@.take(from as int),
            state.mode(from as int),
            old(bytes)@.skip(from as int),
        ),
        end.mode(old(bytes)@.len() as int) == mode_from(
            state.mode(from as int),
            old(bytes)@.skip(from as int),
        ),
        end.fits(final(bytes)@, old(bytes)@.len() as int),
{
    let ghost input = bytes@.skip(from as int);
    let ghost kept = bytes@.take(from as int);
    let ghost first = state.mode(from as int);
    let n: usize = bytes.len();
    let mut state: State = state;
    let mut i: usize = from;
    proof {
        assert(input.take(0) =~= Seq::<u8>::empty());
    }
    while i < n
        invariant
            from <= i <= n,
            n == bytes@.len(),
            n == old(bytes)@.len(),
            input == old(bytes)@.skip(from as int),
            bytes@.take(i as int) == absorb_all(kept, first, input.take(i - from)),
            bytes@.skip(i as int) == old(bytes)@.skip(i as int),
            state.mode(i as int) == mode_from(first, input.take(i - from)),
            state.fits(bytes@, i as int),
        decreases n - i,
    {
        let c: u8 = bytes[i];
        let ghost before = bytes@;
        proof {
            assert(c == bytes@.skip(i as int)[0]);
            assert(c == input[i - from]);
            assert(input.take(i - from + 1).drop_last() =~= input.take(i - from));
        }
        let (next, emitted) = transition(bytes, state, i, c);
        let ghost stepped = bytes@;
        bytes[i] = emitted;
        proof {
            let grown = absorb(before.take(i as int), state.mode(i as int), c);
            assert(grown =~= grown.drop_last().push(grown.last()));
            assert(bytes@.take(i + 1) =~= grown);
            assert(bytes@.skip(i + 1) =~= old(bytes)@.skip(i + 1)) by {
                let rest = stepped.skip(i as int);
                assert(rest == old(bytes)@.skip(i as int));
                assert forall|j: int| i < j < n implies bytes@[j] == old(bytes)@[j] by {
                    assert(rest[j - i] == stepped[j]);
                    assert(rest[j - i] == old(bytes)@[j]);
                }
            }
            if let State::InNumber { start } = next {
                assert(bytes@.subrange(start as int, i + 1) =~= grown.subrange(
                    start as int,
                    i + 1,
                ));
            }
        }
        state = next;
        i += 1;
    }
    proof {
        assert(input.take(n - from) =~= input);
        assert(bytes@.take(n as int) =~= bytes@);
    }
    state
}

/// Closes the token that is pending behind the last byte of `bytes`, where
/// `state` is the scanner's state there: the input is complete.
pub fn finish_slice(bytes: &mut [u8], state: State)
    requires
        state.fits(old(bytes)@, old(bytes)@.len() as int),
    ensures
        final(bytes)@ == settle(old(bytes)@, state.mode(old(bytes)@.len() as int)),
{
    let n: usize = bytes.len();
    let ghost out = bytes@;
    let ghost m = state.mode(n as int);
    transition(bytes, state, n, TERMINATOR);
    proof {
        assert(out.take(n as int) =~= out);
        assert(bytes@.take(n as int) =~= bytes@);
        lemma_absorb_terminator(out, m);
        assert(settle(out, m).push(TERMINATOR).drop_last() =~= settle(out, m));
    }
}

/// Rewrites `bytes` in place: every `NaN` and `Infinity` outside of a string,
/// and every integer literal above `u64::MAX`, becomes `0` followed by spaces
/// up to the token's length.  No other byte changes, and none moves.
pub fn translate_slice(bytes: &mut [u8])
    ensures
        final(bytes)@.len() == old(bytes)@.len(),
        final(bytes)@ == translated(old(bytes)@),
{
    proof {
        assert(bytes@.take(0) =~= Seq::<u8>::empty());
        assert(bytes@.skip(0) =~= bytes@);
    }
    let end = translate_slice_impl(bytes, State::Initial, 0);
    finish_slice(bytes, end);
}

} // verus!
