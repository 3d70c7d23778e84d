//! Facts about the model that the drivers and the laws rest on.

use crate::model::{
    absorb, absorb_all, all_digits, completes, digits_value, ends_integer, is_digit, literal_text,
    mode_from, mode_wf, next_mode, pending, settle, with_tail_zeroed, Literal, Mode, DIGIT_ZERO,
    TERMINATOR,
};
use vstd::prelude::*;

verus! {

/// Appending one digit to a run multiplies its value by ten and adds the digit.
pub proof fn lemma_digits_value_push(run: Seq<u8>, c: u8)
    ensures
        digits_value(run.push(c)) == digits_value(run) * 10 + (c - DIGIT_ZERO) as nat,
{
    assert(run.push(c).drop_last() =~= run);
}

/// A run of digits denotes at least what any of its beginnings denotes.
pub proof fn lemma_digits_value_grows(run: Seq<u8>, k: int)
    requires
        all_digits(run),
        0 <= k <= run.len(),
    ensures
        digits_value(run.take(k)) <= digits_value(run),
    decreases run.len() - k,
{
    if k < run.len() {
        lemma_digits_value_grows(run, k + 1);
        assert(run.take(k + 1).drop_last() =~= run.take(k));
        assert(is_digit(run[k]));
        assert(run.take(k + 1).last() == run[k]);
    } else {
        assert(run.take(k) =~= run);
    }
}

/// `NaN` has three bytes and `Infinity` eight.
pub proof fn lemma_literal_lengths()
    ensures
        literal_text(Literal::NaN).len() == 3,
        literal_text(Literal::Infinity).len() == 8,
{
}

/// One byte keeps the scanner in a mode that it can be in, and adds at most
/// itself to the pending bytes.
pub proof fn lemma_next_mode_wf(m: Mode, c: u8)
    requires
        mode_wf(m),
    ensures
        mode_wf(next_mode(m, c)),
        pending(next_mode(m, c)) <= pending(m) + 1,
{
    lemma_literal_lengths();
}

/// Any input keeps the scanner in a mode that it can be in, and adds at most
/// its length to the pending bytes.
pub proof fn lemma_mode_from_wf(m: Mode, input: Seq<u8>)
    requires
        mode_wf(m),
    ensures
        mode_wf(mode_from(m, input)),
        pending(mode_from(m, input)) <= pending(m) + input.len(),
    decreases input.len(),
{
    if input.len() > 0 {
        lemma_mode_from_wf(m, input.drop_last());
        lemma_next_mode_wf(mode_from(m, input.drop_last()), input.last());
    }
}

/// Settling the pending token keeps the length of the output.
pub proof fn lemma_settle_len(out: Seq<u8>, m: Mode)
    requires
        pending(m) <= out.len(),
    ensures
        settle(out, m).len() == out.len(),
{
}

/// One byte of input makes one byte of output.
pub proof fn lemma_absorb_len(out: Seq<u8>, m: Mode, c: u8)
    requires
        pending(m) <= out.len(),
    ensures
        absorb(out, m, c).len() == out.len() + 1,
{
}

/// The output grows by the length of the input.
pub proof fn lemma_absorb_all_len(out: Seq<u8>, m: Mode, input: Seq<u8>)
    requires
        mode_wf(m),
        pending(m) <= out.len(),
    ensures
        absorb_all(out, m, input).len() == out.len() + input.len(),
    decreases input.len(),
{
    if input.len() > 0 {
        lemma_absorb_all_len(out, m, input.drop_last());
        lemma_mode_from_wf(m, input.drop_last());
        lemma_absorb_len(
            absorb_all(out, m, input.drop_last()),
            mode_from(m, input.drop_last()),
            input.last(),
        );
    }
}

/// The byte that stands for the end of the input settles the pending token and
/// does nothing else.
pub proof fn lemma_absorb_terminator(out: Seq<u8>, m: Mode)
    ensures
        absorb(out, m, TERMINATOR) == settle(out, m).push(TERMINATOR),
{
    lemma_literal_lengths();
}

/// Settling reaches no further back than the pending bytes.
pub proof fn lemma_settle_local(prefix: Seq<u8>, tail: Seq<u8>, m: Mode)
    requires
        pending(m) <= tail.len(),
    ensures
        settle(prefix + tail, m) == prefix + settle(tail, m),
{
    let out = prefix + tail;
    let p = pending(m);
    assert(out.skip(out.len() - p) =~= tail.skip(tail.len() - p));
    assert(with_tail_zeroed(out, p) =~= prefix + with_tail_zeroed(tail, p));
}

/// One step of the scanner reaches no further back than the pending bytes.
pub proof fn lemma_absorb_local(prefix: Seq<u8>, tail: Seq<u8>, m: Mode, c: u8)
    requires
        pending(m) <= tail.len(),
    ensures
        absorb(prefix + tail, m, c) == prefix + absorb(tail, m, c),
{
    let out = prefix + tail;
    let p = pending(m);
    if completes(m, c) {
        assert(out.push(c) =~= prefix + tail.push(c));
        assert(with_tail_zeroed(out.push(c), p + 1) =~= prefix + with_tail_zeroed(
            tail.push(c),
            p + 1,
        ));
    } else if m is Number && ends_integer(c) {
        lemma_settle_local(prefix, tail, m);
        assert((prefix + settle(tail, m)).push(c) =~= prefix + settle(tail, m).push(c));
    } else {
        assert(out.push(c) =~= prefix + tail.push(c));
    }
}

/// The scanner reaches no further back than the bytes that were pending when
/// it began: what lies before them is settled.
pub proof fn lemma_absorb_all_local(prefix: Seq<u8>, tail: Seq<u8>, m: Mode, input: Seq<u8>)
    requires
        mode_wf(m),
        pending(m) <= tail.len(),
    ensures
        absorb_all(prefix + tail, m, input) == prefix + absorb_all(tail, m, input),
    decreases input.len(),
{
    if input.len() > 0 {
        let shorter = input.drop_last();
        lemma_absorb_all_local(prefix, tail, m, shorter);
        lemma_absorb_all_len(tail, m, shorter);
        lemma_mode_from_wf(m, shorter);
        lemma_absorb_local(prefix, absorb_all(tail, m, shorter), mode_from(m, shorter), input.last());
    }
}

/// Reading `a` and then `b` leads to the mode that reading `a + b` leads to.
pub proof fn lemma_mode_from_concat(m: Mode, a: Seq<u8>, b: Seq<u8>)
    ensures
        mode_from(m, a + b) == mode_from(mode_from(m, a), b),
    decreases b.len(),
{
    if b.len() == 0 {
        assert(a + b =~= a);
    } else {
        assert((a + b).drop_last() =~= a + b.drop_last());
        lemma_mode_from_concat(m, a, b.drop_last());
    }
}

/// Reading `a` and then `b` gives the output that reading `a + b` gives.
pub proof fn lemma_absorb_all_concat(out: Seq<u8>, m: Mode, a: Seq<u8>, b: Seq<u8>)
    ensures
        absorb_all(out, m, a + b) == absorb_all(absorb_all(out, m, a), mode_from(m, a), b),
    decreases b.len(),
{
    if b.len() == 0 {
        assert(a + b =~= a);
    } else {
        assert((a + b).drop_last() =~= a + b.drop_last());
        lemma_absorb_all_concat(out, m, a, b.drop_last());
        lemma_mode_from_concat(m, a, b.drop_last());
    }
}

} // verus!
