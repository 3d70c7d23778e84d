//! What holds of the rewrite for every input.

use crate::lemmas::{
    lemma_absorb_all_concat, lemma_absorb_all_len, lemma_absorb_all_local, lemma_literal_lengths,
    lemma_mode_from_concat, lemma_mode_from_wf, lemma_settle_len, lemma_settle_local,
};
use crate::model::{
    absorb_all, all_digits, ends_integer, is_digit, literal_text, mode_after, mode_from, mode_wf,
    oversized, pending, scanned, settle, translated, zero_padded, Literal, Mode, BACKSLASH, QUOTE,
};
use crate::stream::{fed_held, fed_output};
use vstd::prelude::*;

verus! {

/// The rewrite keeps the length of its input.
pub proof fn law_length_preserved(s: Seq<u8>)
    ensures
        translated(s).len() == s.len(),
{
    lemma_absorb_all_len(Seq::empty(), Mode::Initial, s);
    lemma_mode_from_wf(Mode::Initial, s);
    lemma_settle_len(scanned(s), mode_after(s));
}

/// The mode of a stream that was fed `chunks` in turn.
pub open spec fn stream_mode(chunks: Seq<Seq<u8>>) -> Mode
    decreases chunks.len(),
{
    if chunks.len() == 0 {
        Mode::Initial
    } else {
        mode_from(stream_mode(chunks.drop_last()), chunks.last())
    }
}

/// What a stream that was fed `chunks` in turn holds back.
pub open spec fn stream_held(chunks: Seq<Seq<u8>>) -> Seq<u8>
    decreases chunks.len(),
{
    if chunks.len() == 0 {
        Seq::empty()
    } else {
        fed_held(
            stream_mode(chunks.drop_last()),
            stream_held(chunks.drop_last()),
            chunks.last(),
        )
    }
}

/// What a stream that was fed `chunks` in turn has handed out, chunk after
/// chunk.
pub open spec fn stream_output(chunks: Seq<Seq<u8>>) -> Seq<u8>
    decreases chunks.len(),
{
    if chunks.len() == 0 {
        Seq::empty()
    } else {
        stream_output(chunks.drop_last()) + fed_output(
            stream_mode(chunks.drop_last()),
            stream_held(chunks.drop_last()),
            chunks.last(),
        )
    }
}

/// Everything that a stream hands out when it is fed `chunks` in turn and then
/// finished.
pub open spec fn streamed(chunks: Seq<Seq<u8>>) -> Seq<u8> {
    stream_output(chunks) + settle(stream_held(chunks), stream_mode(chunks))
}

/// A stream that was fed `chunks` is where a scanner is that has read them in
/// one piece: in the same mode, and what it handed out and what it holds back
/// are together that scanner's output.
proof fn lemma_stream_follows_scanner(chunks: Seq<Seq<u8>>)
    ensures
        stream_mode(chunks) == mode_after(chunks.flatten()),
        stream_output(chunks) + stream_held(chunks) == scanned(chunks.flatten()),
        stream_held(chunks).len() == pending(stream_mode(chunks)),
        mode_wf(stream_mode(chunks)),
    decreases chunks.len(),
{
    chunks.lemma_flatten_and_flatten_alt_are_equivalent();
    if chunks.len() == 0 {
        assert(stream_output(chunks) + stream_held(chunks) =~= Seq::<u8>::empty());
    } else {
        let earlier = chunks.drop_last();
        let chunk = chunks.last();
        lemma_stream_follows_scanner(earlier);
        earlier.lemma_flatten_and_flatten_alt_are_equivalent();
        let whole = earlier.flatten();
        let m = stream_mode(earlier);
        let held = stream_held(earlier);
        let out = stream_output(earlier);
        assert(chunks.flatten() == whole + chunk);
        lemma_mode_from_concat(Mode::Initial, whole, chunk);
        lemma_absorb_all_concat(Seq::empty(), Mode::Initial, whole, chunk);
        lemma_absorb_all_local(out, held, m, chunk);
        lemma_absorb_all_len(held, m, chunk);
        lemma_mode_from_wf(m, chunk);
        let work = absorb_all(held, m, chunk);
        let cut = work.len() - pending(mode_from(m, chunk));
        assert(work =~= work.take(cut) + work.skip(cut));
        assert(stream_output(chunks) + stream_held(chunks) =~= out + work);
    }
}

/// However the input is cut into chunks, a stream that is fed the chunks in
/// turn and then finished hands out the rewrite of the whole input, a token
/// that lies across the end of a chunk included.  So it hands out as many
/// bytes as it was fed.
pub proof fn law_stream_equals_whole(chunks: Seq<Seq<u8>>)
    ensures
        streamed(chunks) == translated(chunks.flatten()),
        streamed(chunks).len() == chunks.flatten().len(),
{
    lemma_stream_follows_scanner(chunks);
    lemma_settle_local(stream_output(chunks), stream_held(chunks), stream_mode(chunks));
    law_length_preserved(chunks.flatten());
}

/// Whether the bytes of `text` stand in `s` at offset `at`.
pub open spec fn occurs_at(s: Seq<u8>, at: int, text: Seq<u8>) -> bool {
    &&& 0 <= at
    &&& at + text.len() <= s.len()
    &&& s.subrange(at, at + text.len()) == text
}

/// Whether the bytes of `s` from `from` up to `to` are an integer literal that
/// no 64-bit integer type holds: a run of digits with no digit before it,
/// followed by the end of `s` or by a byte that leaves it an integer, and
/// oversized.
pub open spec fn oversized_integer_at(s: Seq<u8>, from: int, to: int) -> bool {
    &&& 0 <= from < to <= s.len()
    &&& all_digits(s.subrange(from, to))
    &&& (from == 0 || !is_digit(s[from - 1]))
    &&& (to == s.len() || ends_integer(s[to]))
    &&& oversized(s.subrange(from, to))
}

/// Whether offset `at` of `s` lies inside a string literal, as the scanner
/// sees it that has read `s` up to there.
pub open spec fn in_string_at(s: Seq<u8>, at: int) -> bool {
    mode_after(s.take(at)) is Quoted || mode_after(s.take(at)) is QuotedEscape
}

/// What the scanner's mode behind the first `n` bytes of `s` says of those
/// bytes: the pending bytes are the token that the mode names, that token
/// begins outside of any string, and a token begins behind no digit.
pub open spec fn pending_token(s: Seq<u8>, n: int) -> bool {
    match mode_after(s.take(n)) {
        Mode::Initial => n == 0 || !is_digit(s[n - 1]),
        Mode::Matching { kind, matched } => {
            &&& 1 <= matched < literal_text(kind).len()
            &&& matched <= n
            &&& s.subrange(n - matched, n) == literal_text(kind).take(matched as int)
            &&& !in_string_at(s, n - matched)
            &&& !is_digit(s[n - 1])
        },
        Mode::Number { digits } => {
            &&& 1 <= digits <= n
            &&& all_digits(s.subrange(n - digits, n))
            &&& (n - digits == 0 || !is_digit(s[n - digits - 1]))
            &&& !in_string_at(s, n - digits)
        },
        _ => true,
    }
}

/// The scanner's mode always names the token that its pending bytes are.
pub proof fn lemma_pending_token(s: Seq<u8>, n: int)
    requires
        0 <= n <= s.len(),
    ensures
        pending_token(s, n),
    decreases n,
{
    lemma_literal_lengths();
    if n == 0 {
        assert(s.take(0) =~= Seq::<u8>::empty());
    } else {
        lemma_pending_token(s, n - 1);
        let c = s[n - 1];
        let before = mode_after(s.take(n - 1));
        assert(s.take(n).drop_last() =~= s.take(n - 1));
        assert(s.take(n).last() == c);
        match mode_after(s.take(n)) {
            Mode::Matching { kind, matched } => {
                if matched == 1 {
                    assert(s.subrange(n - 1, n) =~= literal_text(kind).take(1));
                } else {
                    assert(s.subrange(n - matched, n) =~= s.subrange(n - matched, n - 1).push(c));
                    assert(literal_text(kind).take(matched as int) =~= literal_text(kind).take(
                        matched - 1,
                    ).push(c));
                }
            },
            Mode::Number { digits } => {
                if digits == 1 {
                    assert(s.subrange(n - 1, n) =~= seq![c]);
                } else {
                    assert(s.subrange(n - digits, n) =~= s.subrange(n - digits, n - 1).push(c));
                }
            },
            _ => {},
        }
    }
}

/// A string literal is opaque: an input in which `NaN`, `Infinity` and
/// oversized integer literals stand only inside of strings is left as it is.
pub proof fn law_strings_are_opaque(s: Seq<u8>)
    requires
        forall|at: int| #[trigger]
            occurs_at(s, at, literal_text(Literal::NaN)) ==> in_string_at(s, at),
        forall|at: int| #[trigger]
            occurs_at(s, at, literal_text(Literal::Infinity)) ==> in_string_at(s, at),
        forall|from: int, to: int| #[trigger]
            oversized_integer_at(s, from, to) ==> in_string_at(s, from),
    ensures
        translated(s) == s,
{
    lemma_scanned_unchanged(s, s.len() as int);
    lemma_pending_token(s, s.len() as int);
    assert(s.take(s.len() as int) =~= s);
    if let Mode::Number { digits } = mode_after(s) {
        assert(s.skip(s.len() - digits) =~= s.subrange(s.len() - digits, s.len() as int));
        assert(!oversized_integer_at(s, s.len() - digits, s.len() as int));
    }
}

/// Under the conditions of [`law_strings_are_opaque`] the scanner changes no
/// byte while it reads.
proof fn lemma_scanned_unchanged(s: Seq<u8>, n: int)
    requires
        0 <= n <= s.len(),
        forall|at: int| #[trigger]
            occurs_at(s, at, literal_text(Literal::NaN)) ==> in_string_at(s, at),
        forall|at: int| #[trigger]
            occurs_at(s, at, literal_text(Literal::Infinity)) ==> in_string_at(s, at),
        forall|from: int, to: int| #[trigger]
            oversized_integer_at(s, from, to) ==> in_string_at(s, from),
    ensures
        scanned(s.take(n)) == s.take(n),
    decreases n,
{
    lemma_literal_lengths();
    if n == 0 {
        assert(s.take(0) =~= Seq::<u8>::empty());
    } else {
        lemma_scanned_unchanged(s, n - 1);
        lemma_pending_token(s, n - 1);
        let c = s[n - 1];
        let out = s.take(n - 1);
        assert(s.take(n).drop_last() =~= out);
        assert(s.take(n).last() == c);
        assert(out.push(c) =~= s.take(n));
        match mode_after(out) {
            Mode::Matching { kind, matched } => {
                let last = literal_text(kind)[matched as int];
                if matched + 1 == literal_text(kind).len() && c == last {
                    let at = n - 1 - matched;
                    assert(s.subrange(at, n) =~= s.subrange(at, n - 1).push(c));
                    assert(literal_text(kind) =~= literal_text(kind).take(matched as int).push(c));
                    assert(occurs_at(s, at, literal_text(kind)));
                }
            },
            Mode::Number { digits } => {
                if ends_integer(c) {
                    let from = n - 1 - digits;
                    assert(out.skip(out.len() - digits) =~= s.subrange(from, n - 1));
                    assert(!oversized_integer_at(s, from, n - 1));
                }
            },
            _ => {},
        }
    }
}

/// Where a reader is that knows of nothing but strings: a quote opens a
/// string, a backslash in a string takes the next byte with it, and any other
/// quote in a string closes it.
pub enum Quoting {
    Outside,
    Inside,
    Escaped,
}

/// Where the reader of strings is after the byte `c`.
pub open spec fn next_quoting(q: Quoting, c: u8) -> Quoting {
    match q {
        Quoting::Outside => if c == QUOTE {
            Quoting::Inside
        } else {
            Quoting::Outside
        },
        Quoting::Inside => if c == BACKSLASH {
            Quoting::Escaped
        } else if c == QUOTE {
            Quoting::Outside
        } else {
            Quoting::Inside
        },
        Quoting::Escaped => Quoting::Inside,
    }
}

/// Where the reader of strings is after all of `s`.
pub open spec fn quoting_after(s: Seq<u8>) -> Quoting
    decreases s.len(),
{
    if s.len() == 0 {
        Quoting::Outside
    } else {
        next_quoting(quoting_after(s.drop_last()), s.last())
    }
}

/// Whether offset `at` of `s` lies inside a string literal, going by quotes
/// and backslashes alone.
pub open spec fn quoted_at(s: Seq<u8>, at: int) -> bool {
    !(quoting_after(s.take(at)) is Outside)
}

/// Whether no quote of `s` stands directly behind a digit, unless both stand
/// inside a string.  The scanner reads the byte behind a run of digits as the
/// end of the run and as nothing else, so it would take such a quote for no
/// quote.  In JSON a number is never followed by a quote.
pub open spec fn quotes_stand_off_digits(s: Seq<u8>) -> bool {
    forall|at: int|
        0 < at < s.len() && s[at] == QUOTE && is_digit(s[at - 1]) ==> #[trigger] quoted_at(s, at)
}

/// Whether the scanner's mode `m` and the reader of strings at `q` are at one
/// about being inside a string.
pub open spec fn same_quoting(m: Mode, q: Quoting) -> bool {
    match q {
        Quoting::Outside => !(m is Quoted) && !(m is QuotedEscape),
        Quoting::Inside => m is Quoted,
        Quoting::Escaped => m is QuotedEscape,
    }
}

/// Where no quote stands directly behind a digit outside of a string, the
/// scanner sees the strings that quotes and backslashes alone make.
pub proof fn lemma_scanner_sees_strings(s: Seq<u8>, n: int)
    requires
        0 <= n <= s.len(),
        quotes_stand_off_digits(s),
    ensures
        same_quoting(mode_after(s.take(n)), quoting_after(s.take(n))),
    decreases n,
{
    lemma_literal_lengths();
    if n == 0 {
        assert(s.take(0) =~= Seq::<u8>::empty());
    } else {
        lemma_scanner_sees_strings(s, n - 1);
        lemma_pending_token(s, n - 1);
        assert(s.take(n).drop_last() =~= s.take(n - 1));
        assert(s.take(n).last() == s[n - 1]);
        if let Mode::Number { digits } = mode_after(s.take(n - 1)) {
            assert(s.subrange(n - 1 - digits, n - 1)[digits - 1] == s[n - 2]);
            assert(s[n - 1] == QUOTE ==> quoted_at(s, n - 1));
        }
    }
}

/// An input in which `NaN`, `Infinity` and oversized integer literals stand
/// only inside of strings, as quotes and backslashes alone make them, and in
/// which no quote stands directly behind a digit outside of a string, is left
/// as it is.
pub proof fn law_quoted_tokens_kept(s: Seq<u8>)
    requires
        quotes_stand_off_digits(s),
        forall|at: int| #[trigger]
            occurs_at(s, at, literal_text(Literal::NaN)) ==> quoted_at(s, at),
        forall|at: int| #[trigger]
            occurs_at(s, at, literal_text(Literal::Infinity)) ==> quoted_at(s, at),
        forall|from: int, to: int| #[trigger]
            oversized_integer_at(s, from, to) ==> quoted_at(s, from),
    ensures
        translated(s) == s,
{
    assert forall|at: int| 0 <= at <= s.len() && quoted_at(s, at) implies in_string_at(s, at) by {
        lemma_scanner_sees_strings(s, at);
    }
    law_strings_are_opaque(s);
}

/// An input that holds no `NaN`, no `Infinity` and no oversized integer
/// literal is left as it is.
pub proof fn law_clean_input_unchanged(s: Seq<u8>)
    requires
        forall|at: int| !#[trigger] occurs_at(s, at, literal_text(Literal::NaN)),
        forall|at: int| !#[trigger] occurs_at(s, at, literal_text(Literal::Infinity)),
        forall|from: int, to: int| !#[trigger] oversized_integer_at(s, from, to),
    ensures
        translated(s) == s,
{
    law_strings_are_opaque(s);
}

/// The scanner passes the beginning of a literal on and remembers how much
/// of the literal it has read.
proof fn lemma_literal_begun(kind: Literal, k: int)
    requires
        1 <= k < literal_text(kind).len(),
    ensures
        mode_from(Mode::Initial, literal_text(kind).take(k)) == (Mode::Matching {
            kind,
            matched: k as nat,
        }),
        absorb_all(Seq::empty(), Mode::Initial, literal_text(kind).take(k)) == literal_text(
            kind,
        ).take(k),
    decreases k,
{
    lemma_literal_lengths();
    let text = literal_text(kind);
    assert(text.take(k).drop_last() =~= text.take(k - 1));
    assert(text.take(k).last() == text[k - 1]);
    if k == 1 {
        assert(text.take(0) =~= Seq::<u8>::empty());
        assert(mode_from(Mode::Initial, text.take(0)) == Mode::Initial);
        assert(absorb_all(Seq::empty(), Mode::Initial, text.take(0)) == Seq::<u8>::empty());
        assert(text.take(1) =~= Seq::<u8>::empty().push(text[0]));
    } else {
        lemma_literal_begun(kind, k - 1);
        assert(text.take(k) =~= text.take(k - 1).push(text[k - 1]));
    }
}

/// A literal that begins outside of any token is replaced as a whole by `0`
/// and spaces, whatever stands before it, and leaves the scanner outside of
/// any token.
pub proof fn law_literal_replaced(before: Seq<u8>, kind: Literal)
    requires
        mode_after(before) is Initial,
    ensures
        scanned(before + literal_text(kind)) == scanned(before) + zero_padded(
            literal_text(kind).len(),
        ),
        mode_after(before + literal_text(kind)) is Initial,
{
    lemma_literal_lengths();
    let text = literal_text(kind);
    let k = text.len() - 1;
    lemma_literal_begun(kind, k);
    assert(text.drop_last() =~= text.take(k));
    assert(text.take(k).push(text[k]).take(0) =~= Seq::<u8>::empty());
    assert(absorb_all(Seq::empty(), Mode::Initial, text) =~= zero_padded(text.len()));
    lemma_mode_from_concat(Mode::Initial, before, text);
    lemma_absorb_all_concat(Seq::empty(), Mode::Initial, before, text);
    lemma_absorb_all_local(scanned(before), Seq::empty(), Mode::Initial, text);
    assert(scanned(before) + Seq::<u8>::empty() =~= scanned(before));
}

/// The scanner passes a run of digits on and remembers its length.
proof fn lemma_digits_begun(run: Seq<u8>, k: int)
    requires
        all_digits(run),
        1 <= k <= run.len(),
    ensures
        mode_from(Mode::Initial, run.take(k)) == (Mode::Number { digits: k as nat }),
        absorb_all(Seq::empty(), Mode::Initial, run.take(k)) == run.take(k),
    decreases k,
{
    assert(run.take(k).drop_last() =~= run.take(k - 1));
    assert(run.take(k).last() == run[k - 1]);
    assert(is_digit(run[k - 1]));
    if k == 1 {
        assert(run.take(0) =~= Seq::<u8>::empty());
        assert(mode_from(Mode::Initial, run.take(0)) == Mode::Initial);
        assert(absorb_all(Seq::empty(), Mode::Initial, run.take(0)) == Seq::<u8>::empty());
        assert(run.take(1) =~= Seq::<u8>::empty().push(run[0]));
    } else {
        lemma_digits_begun(run, k - 1);
        assert(run.take(k) =~= run.take(k - 1).push(run[k - 1]));
    }
}

/// What becomes of a run of digits that is read as an integer literal: `0` and
/// spaces if it is oversized, else the run itself.
pub open spec fn integer_settled(run: Seq<u8>) -> Seq<u8> {
    if oversized(run) {
        zero_padded(run.len())
    } else {
        run
    }
}

/// A run of digits that begins outside of any token and is followed by the
/// byte `next`, which is no digit: if `next` leaves the run an integer literal
/// and the run is oversized, the run is replaced by `0` and spaces; else it is
/// kept.  Either way `next` is passed on and begins no token.
pub proof fn law_integer_followed(before: Seq<u8>, run: Seq<u8>, next: u8)
    requires
        mode_after(before) is Initial,
        run.len() >= 1,
        all_digits(run),
        !is_digit(next),
    ensures
        scanned(before + run.push(next)) == scanned(before) + (if ends_integer(next) {
            integer_settled(run)
        } else {
            run
        }).push(next),
        mode_after(before + run.push(next)) is Initial,
{
    let input = run.push(next);
    lemma_digits_begun(run, run.len() as int);
    assert(run.take(run.len() as int) =~= run);
    assert(input.drop_last() =~= run);
    assert(run.skip(0) =~= run);
    assert(run.take(0) + zero_padded(run.len()) =~= zero_padded(run.len()));
    lemma_mode_from_concat(Mode::Initial, before, input);
    lemma_absorb_all_concat(Seq::empty(), Mode::Initial, before, input);
    lemma_absorb_all_local(scanned(before), Seq::empty(), Mode::Initial, input);
    assert(scanned(before) + Seq::<u8>::empty() =~= scanned(before));
}

/// A run of digits that begins outside of any token and ends the input is an
/// integer literal: it is replaced by `0` and spaces if it is oversized, and
/// kept else.
pub proof fn law_integer_at_end(before: Seq<u8>, run: Seq<u8>)
    requires
        mode_after(before) is Initial,
        run.len() >= 1,
        all_digits(run),
    ensures
        translated(before + run) == translated(before) + integer_settled(run),
{
    lemma_digits_begun(run, run.len() as int);
    assert(run.take(run.len() as int) =~= run);
    lemma_mode_from_concat(Mode::Initial, before, run);
    lemma_absorb_all_concat(Seq::empty(), Mode::Initial, before, run);
    lemma_absorb_all_local(scanned(before), Seq::empty(), Mode::Initial, run);
    assert(scanned(before) + Seq::<u8>::empty() =~= scanned(before));
    lemma_settle_local(scanned(before), run, Mode::Number { digits: run.len() });
    assert(run.skip(0) =~= run);
    assert(run.take(0) + zero_padded(run.len()) =~= zero_padded(run.len()));
}

} // verus!
