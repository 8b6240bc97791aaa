//! What holds of the encoder and the decoder together.

use crate::compress::{cache_byte, distance_byte, encode, encode_from, lemma_encode_cache,
    lemma_encode_run, lemma_match_length, lemma_run_scan, lookahead, match_length, run_length,
    state_after_cache, state_after_run, EncoderState};
use crate::decompress::{copy_length, decode, decode_from, prepend, well_framed};
use crate::window::{lemma_copy_reproduces, lemma_find_from_matches, lemma_write_all_refined,
    lemma_write_all_wf, wrap, Window};
use vstd::prelude::*;

verus! {

/// Decoding does not look back: what comes before the position it starts at
/// does not change what it yields.
pub proof fn lemma_decode_skips_head(head: Seq<u8>, stream: Seq<u8>, pos: int, w: Window)
    requires
        0 <= pos,
    ensures
        decode_from(head + stream, head.len() + pos, w) == decode_from(stream, pos, w),
    decreases stream.len() - pos,
{
    let whole = head + stream;
    let at = head.len() + pos;
    if pos < stream.len() {
        let c = stream[pos];
        assert(whole[at] == c);
        if c == 0 {
        } else if c < 0x80 {
            let end = pos + 1 + c;
            if end <= stream.len() {
                let literals = stream.subrange(pos + 1, end);
                assert(whole.subrange(at + 1, at + 1 + c) =~= literals);
                lemma_decode_skips_head(head, stream, end, w.write_all(literals));
            }
        } else {
            if pos + 1 < stream.len() {
                assert(whole[at + 1] == stream[pos + 1]);
                let start = wrap(w.cursor - stream[pos + 1] - 1);
                let copy = w.copied(start, copy_length(c) as nat);
                lemma_decode_skips_head(head, stream, pos + 2, w.write_all(copy));
            }
        }
    }
}

/// Every run that the encoder emits carries 1 to 127 literals, and its
/// command byte is their number. Where a back-reference follows the run, one
/// can start there.
pub proof fn lemma_run_command_range(input: Seq<u8>, pos: int, w: Window)
    requires
        0 <= pos < input.len(),
    ensures
        0x01 <= run_length(input, pos, w) as u8 <= 0x7F,
        run_length(input, pos, w) as u8 == run_length(input, pos, w),
        pos + run_length(input, pos, w) <= input.len(),
        state_after_run(input, pos, run_length(input, pos, w)) is Cache ==> lookahead(
            w.write_all(input.subrange(pos, pos + run_length(input, pos, w))),
            input,
            pos + run_length(input, pos, w),
        ),
{
    reveal(run_length);
    lemma_run_scan(input, pos, w, 1);
}

/// Every back-reference that the encoder emits has a command byte with the
/// high bit set, and the length that the decoder reads from it is the number
/// of bytes that the encoder matched, which is 3 to 130.
pub proof fn lemma_cache_command_range(input: Seq<u8>, pos: int, w: Window)
    requires
        0 <= pos,
        lookahead(w, input, pos),
    ensures
        cache_byte(match_length(input, pos, w)) >= 0x80,
        copy_length(cache_byte(match_length(input, pos, w))) == match_length(input, pos, w),
        3 <= match_length(input, pos, w) <= 0x82,
        pos + match_length(input, pos, w) <= input.len(),
        w.find(input.subrange(pos, pos + match_length(input, pos, w))) is Some,
{
    lemma_match_length(input, pos, w);
    lemma_cache_byte_length(match_length(input, pos, w));
}

/// A stream that begins with a run decodes to the literals of the run,
/// followed by what the rest decodes to once the literals are in the ring.
pub proof fn lemma_decode_run(n: int, literals: Seq<u8>, rest: Seq<u8>, w: Window)
    requires
        1 <= n <= 0x7F,
        literals.len() == n,
    ensures
        decode_from((seq![n as u8] + literals) + rest, 0, w) == prepend(
            literals,
            decode_from(rest, 0, w.write_all(literals)),
        ),
{
    let head = seq![n as u8] + literals;
    let stream = head + rest;
    assert(stream[0] == n as u8);
    assert(stream.subrange(1, 1 + n) =~= literals);
    lemma_decode_skips_head(head, rest, 0, w.write_all(literals));
}

/// A stream that begins with a back-reference decodes to the bytes copied
/// out of the ring, followed by what the rest decodes to once those bytes are
/// in the ring.
pub proof fn lemma_decode_cache(c: u8, d: u8, rest: Seq<u8>, w: Window)
    requires
        c >= 0x80,
    ensures
        ({
            let copy = w.copied(wrap(w.cursor - d - 1), copy_length(c) as nat);
            decode_from(seq![c, d] + rest, 0, w) == prepend(
                copy,
                decode_from(rest, 0, w.write_all(copy)),
            )
        }),
{
    let head = seq![c, d];
    let stream = head + rest;
    let copy = w.copied(wrap(w.cursor - d - 1), copy_length(c) as nat);
    assert(stream[0] == c);
    assert(stream[1] == d);
    lemma_decode_skips_head(head, rest, 0, w.write_all(copy));
}

/// The distance byte names the start cell: going back by it from the cursor
/// leads to the cell that the distance was computed for.
pub proof fn lemma_distance_leads_back(cursor: int, start: int)
    requires
        0 <= cursor < 256,
        0 <= start < 256,
    ensures
        wrap(cursor - distance_byte(cursor, start) - 1) == start,
{
    reveal(distance_byte);
    let d = wrap(cursor - start - 1);
    assert(0 <= d < 256);
    assert(d == cursor - start - 1 || d == cursor - start - 1 + 256);
}

/// A back-reference of 3 to 130 bytes has a command byte from `0x80` on, from
/// which the decoder reads the same length.
pub proof fn lemma_cache_byte_length(n: int)
    requires
        3 <= n <= 130,
    ensures
        cache_byte(n) >= 0x80,
        copy_length(cache_byte(n)) == n,
{
}

/// The decoder's copy for a back-reference that the encoder emitted yields
/// the bytes that the encoder found.
pub proof fn lemma_copy_of_match(enc: Window, dec: Window, candidate: Seq<u8>)
    requires
        enc.wf(),
        dec.wf(),
        enc.refined_by(dec),
        3 <= candidate.len() <= 130,
        enc.find(candidate) is Some,
    ensures
        ({
            let c = cache_byte(candidate.len() as int);
            let d = distance_byte(enc.cursor, enc.find(candidate).unwrap());
            &&& c >= 0x80
            &&& dec.copied(wrap(dec.cursor - d - 1), copy_length(c) as nat) == candidate
        }),
{
    let start = enc.find(candidate).unwrap();
    lemma_find_from_matches(enc, candidate, 0);
    lemma_write_all_refined(enc, dec, Seq::empty());
    lemma_copy_reproduces(enc, dec, start, candidate, candidate.len());
    assert(candidate.take(candidate.len() as int) =~= candidate);
    lemma_distance_leads_back(enc.cursor, start);
    lemma_cache_byte_length(candidate.len() as int);
}

/// From any point of the encoding on, the decoder yields the rest of the
/// input, provided its ring holds what the encoder's ring holds.
pub proof fn lemma_round_trip_from(
    input: Seq<u8>,
    pos: int,
    enc: Window,
    dec: Window,
    state: EncoderState,
)
    requires
        0 <= pos <= input.len(),
        enc.wf(),
        dec.wf(),
        enc.refined_by(dec),
        state is Cache ==> lookahead(enc, input, pos),
    ensures
        decode_from(encode_from(input, pos, enc, state), 0, dec) == Some(
            input.subrange(pos, input.len() as int),
        ),
    decreases input.len() - pos,
{
    let end = input.len() as int;
    if pos >= input.len() {
        assert(input.subrange(pos, end) =~= Seq::<u8>::empty());
    } else {
        match state {
            EncoderState::Run => {
                let n = run_length(input, pos, enc);
                let literals = input.subrange(pos, pos + n);
                let next = state_after_run(input, pos, n);
                let rest = encode_from(input, pos + n, enc.write_all(literals), next);
                lemma_run_command_range(input, pos, enc);
                lemma_encode_run(input, pos, enc);
                lemma_write_all_wf(enc, literals);
                lemma_write_all_wf(dec, literals);
                lemma_write_all_refined(enc, dec, literals);
                lemma_round_trip_from(
                    input,
                    pos + n,
                    enc.write_all(literals),
                    dec.write_all(literals),
                    next,
                );
                lemma_decode_run(n, literals, rest, dec);
                assert(literals + input.subrange(pos + n, end) =~= input.subrange(pos, end));
            },
            EncoderState::Cache => {
                let n = match_length(input, pos, enc);
                let candidate = input.subrange(pos, pos + n);
                let after = enc.write_all(candidate);
                let next = state_after_cache(after, input, pos + n);
                let rest = encode_from(input, pos + n, after, next);
                lemma_cache_command_range(input, pos, enc);
                lemma_encode_cache(input, pos, enc);
                lemma_copy_of_match(enc, dec, candidate);
                lemma_write_all_wf(enc, candidate);
                lemma_write_all_wf(dec, candidate);
                lemma_write_all_refined(enc, dec, candidate);
                lemma_round_trip_from(input, pos + n, after, dec.write_all(candidate), next);
                lemma_decode_cache(
                    cache_byte(n),
                    distance_byte(enc.cursor, enc.find(candidate).unwrap()),
                    rest,
                    dec,
                );
                assert(candidate + input.subrange(pos + n, end) =~= input.subrange(pos, end));
            },
        }
    }
}

/// Decoding what the encoder emits gives back the input, whatever the input.
pub proof fn lemma_round_trip(input: Seq<u8>)
    ensures
        decode(encode(input)) == Some(input),
{
    assert(Window::empty().refined_by(Window::zeroed())) by {
        reveal(Window::refined_by);
    }
    lemma_round_trip_from(input, 0, Window::empty(), Window::zeroed(), EncoderState::Run);
    assert(input.subrange(0, input.len() as int) =~= input);
}

/// Framing does not look back: what comes before the position it starts at
/// does not change it.
pub proof fn lemma_framing_skips_head(head: Seq<u8>, stream: Seq<u8>, pos: int)
    requires
        0 <= pos,
    ensures
        well_framed(head + stream, head.len() + pos) == well_framed(stream, pos),
    decreases stream.len() - pos,
{
    let whole = head + stream;
    let at = head.len() + pos;
    if pos < stream.len() {
        let c = stream[pos];
        assert(whole[at] == c);
        if c == 0 {
        } else if c < 0x80 {
            if pos + 1 + c < stream.len() {
                lemma_framing_skips_head(head, stream, pos + 1 + c);
            }
        } else {
            if pos + 2 < stream.len() {
                lemma_framing_skips_head(head, stream, pos + 2);
            }
        }
    }
}

/// From any point of the encoding on, the emitted commands follow each other
/// up to the terminator, which is the last byte.
pub proof fn lemma_well_framed_from(input: Seq<u8>, pos: int, w: Window, state: EncoderState)
    requires
        0 <= pos <= input.len(),
        state is Cache ==> lookahead(w, input, pos),
    ensures
        well_framed(encode_from(input, pos, w, state), 0),
    decreases input.len() - pos,
{
    if pos < input.len() {
        match state {
            EncoderState::Run => {
                let n = run_length(input, pos, w);
                let literals = input.subrange(pos, pos + n);
                let next = state_after_run(input, pos, n);
                let head = seq![n as u8] + literals;
                let rest = encode_from(input, pos + n, w.write_all(literals), next);
                lemma_run_command_range(input, pos, w);
                lemma_encode_run(input, pos, w);
                lemma_well_framed_from(input, pos + n, w.write_all(literals), next);
                lemma_framing_skips_head(head, rest, 0);
                assert((head + rest)[0] == n as u8);
            },
            EncoderState::Cache => {
                let n = match_length(input, pos, w);
                let candidate = input.subrange(pos, pos + n);
                let after = w.write_all(candidate);
                let next = state_after_cache(after, input, pos + n);
                let head = seq![
                    cache_byte(n),
                    distance_byte(w.cursor, w.find(candidate).unwrap()),
                ];
                let rest = encode_from(input, pos + n, after, next);
                lemma_cache_command_range(input, pos, w);
                lemma_encode_cache(input, pos, w);
                lemma_well_framed_from(input, pos + n, after, next);
                lemma_framing_skips_head(head, rest, 0);
                assert((head + rest)[0] == cache_byte(n));
            },
        }
    }
}

/// In what the encoder emits, the terminator is the last byte and no command
/// before it is one: walking the stream command by command ends exactly
/// there.
pub proof fn lemma_terminator_is_last(input: Seq<u8>)
    ensures
        well_framed(encode(input), 0),
{
    lemma_well_framed_from(input, 0, Window::empty(), EncoderState::Run);
}

} // verus!
