//! The encoder: splits the input into literal runs and back-references.

use crate::decompress::{decode, well_framed};
use crate::round_trip::{lemma_round_trip, lemma_terminator_is_last};
use crate::window::{lemma_find_from_matches, lemma_find_from_prefix, lemma_write_all_concat,
    lemma_write_all_push, lemma_write_all_wf, wrap, wrap_index, Window, WindowBuffer};
use vstd::prelude::*;

verus! {

/// Longest literal run that one command carries.
pub const MAX_RUN: usize = 0x7F;

/// Shortest back-reference worth a command.
pub const MIN_MATCH: usize = 3;

/// Longest back-reference that one command carries.
pub const MAX_MATCH: usize = 0x82;

/// What the encoder emits next.
#[derive(Clone, Copy, Debug, PartialEq, Eq)]
pub enum EncoderState {
    /// A run of literal bytes.
    Run,
    /// A back-reference into the ring.
    Cache,
}

/// Whether a back-reference can start at `pos`: the byte there is in the ring,
/// two more bytes follow it, and the three together are found as well.
#[verifier::opaque]
pub open spec fn lookahead(w: Window, input: Seq<u8>, pos: int) -> bool {
    &&& w.find(input.subrange(pos, pos + 1)) is Some
    &&& pos + 2 < input.len()
    &&& w.find(input.subrange(pos, pos + 3)) is Some
}

/// Whether a run that began at `pos` with the ring in state `w` ends after
/// `n` bytes: the input is used up, the run is full, or a back-reference can
/// start at the next byte.
pub open spec fn run_stops(input: Seq<u8>, pos: int, w: Window, n: int) -> bool {
    ||| pos + n >= input.len()
    ||| n >= MAX_RUN
    ||| lookahead(w.write_all(input.subrange(pos, pos + n)), input, pos + n)
}

/// The first length from `n` on at which the run ends.
pub open spec fn run_scan(input: Seq<u8>, pos: int, w: Window, n: int) -> int
    decreases input.len() - pos - n,
{
    if run_stops(input, pos, w, n) {
        n
    } else {
        run_scan(input, pos, w, n + 1)
    }
}

/// Length of the run that begins at `pos`: a run takes at least one byte.
#[verifier::opaque]
pub open spec fn run_length(input: Seq<u8>, pos: int, w: Window) -> int {
    run_scan(input, pos, w, 1)
}

/// A run that ended before it was full and before the input did, ended for a
/// back-reference.
pub open spec fn state_after_run(input: Seq<u8>, pos: int, n: int) -> EncoderState {
    if pos + n < input.len() && n < MAX_RUN {
        EncoderState::Cache
    } else {
        EncoderState::Run
    }
}

/// Whether a back-reference for the `n` bytes from `pos` on cannot grow: the
/// input is used up, the reference is full, or one more byte is not found.
pub open spec fn match_stops(input: Seq<u8>, pos: int, w: Window, n: int) -> bool {
    ||| pos + n >= input.len()
    ||| n >= MAX_MATCH
    ||| w.find(input.subrange(pos, pos + n + 1)) is None
}

/// The first length from `n` on at which the back-reference cannot grow.
pub open spec fn match_scan(input: Seq<u8>, pos: int, w: Window, n: int) -> int
    decreases input.len() - pos - n,
{
    if match_stops(input, pos, w, n) {
        n
    } else {
        match_scan(input, pos, w, n + 1)
    }
}

/// Length of the back-reference that begins at `pos`.
#[verifier::opaque]
pub open spec fn match_length(input: Seq<u8>, pos: int, w: Window) -> int {
    match_scan(input, pos, w, 1)
}

/// After a back-reference the next command is another one where one can
/// start, else a run.
pub open spec fn state_after_cache(w: Window, input: Seq<u8>, pos: int) -> EncoderState {
    if pos < input.len() && lookahead(w, input, pos) {
        EncoderState::Cache
    } else {
        EncoderState::Run
    }
}

/// The command byte of a back-reference of `n` bytes.
pub open spec fn cache_byte(n: int) -> u8 {
    (0x80 + n - MIN_MATCH) as u8
}

/// The distance byte for a copy that starts at cell `start` while the cursor
/// is at `cursor`.
#[verifier::opaque]
pub open spec fn distance_byte(cursor: int, start: int) -> u8 {
    wrap(cursor - start - 1) as u8
}

/// The distance byte counts the cells between the start of the copy and the
/// cursor, the start cell left out: 255 where the copy starts under the
/// cursor, 0 where it starts at the cell written last.
pub proof fn lemma_distance_byte(cursor: int, start: int)
    requires
        0 <= cursor < 256,
        0 <= start < 256,
    ensures
        distance_byte(cursor, start) == wrap(cursor + 255 - start),
{
    reveal(distance_byte);
    assert(wrap(cursor - start - 1) == wrap(cursor + 255 - start));
}

/// Neither scan goes back or leaves the input: a command covers at least
/// the length it was scanned from, and no more than the input holds.
pub proof fn lemma_scan_advances(input: Seq<u8>, pos: int, w: Window, n: int)
    requires
        pos + n <= input.len(),
    ensures
        n <= run_scan(input, pos, w, n),
        pos + run_scan(input, pos, w, n) <= input.len(),
        n <= match_scan(input, pos, w, n),
        pos + match_scan(input, pos, w, n) <= input.len(),
    decreases input.len() - pos - n,
{
    if pos + n < input.len() {
        lemma_scan_advances(input, pos, w, n + 1);
    }
}

/// A run ends after 1 to 127 bytes and inside the input, at the first length
/// at which it stops.
pub proof fn lemma_run_scan(input: Seq<u8>, pos: int, w: Window, n: int)
    requires
        0 <= pos,
        1 <= n <= MAX_RUN,
        pos + n <= input.len(),
    ensures
        n <= run_scan(input, pos, w, n) <= MAX_RUN,
        pos + run_scan(input, pos, w, n) <= input.len(),
        run_stops(input, pos, w, run_scan(input, pos, w, n)),
        forall|m: int| n <= m < run_scan(input, pos, w, n) ==> !run_stops(input, pos, w, m),
    decreases input.len() - pos - n,
{
    if !run_stops(input, pos, w, n) {
        lemma_run_scan(input, pos, w, n + 1);
    }
}

/// A back-reference that is found at length `n` is found at the length at
/// which it stops growing, which is at most 130 and inside the input.
pub proof fn lemma_match_scan(input: Seq<u8>, pos: int, w: Window, n: int)
    requires
        0 <= pos,
        1 <= n <= MAX_MATCH,
        pos + n <= input.len(),
        w.find(input.subrange(pos, pos + n)) is Some,
    ensures
        n <= match_scan(input, pos, w, n) <= MAX_MATCH,
        pos + match_scan(input, pos, w, n) <= input.len(),
        match_stops(input, pos, w, match_scan(input, pos, w, n)),
        forall|m: int| n <= m < match_scan(input, pos, w, n) ==> !match_stops(input, pos, w, m),
        w.find(input.subrange(pos, pos + match_scan(input, pos, w, n))) is Some,
    decreases input.len() - pos - n,
{
    if !match_stops(input, pos, w, n) {
        lemma_match_scan(input, pos, w, n + 1);
    }
}

/// Where a back-reference can start, its first byte and its first two bytes
/// are found too.
pub proof fn lemma_lookahead_prefixes(w: Window, input: Seq<u8>, pos: int)
    requires
        0 <= pos,
        lookahead(w, input, pos),
    ensures
        w.find(input.subrange(pos, pos + 1)) is Some,
        w.find(input.subrange(pos, pos + 2)) is Some,
        w.find(input.subrange(pos, pos + 3)) is Some,
{
    reveal(lookahead);
    let three = input.subrange(pos, pos + 3);
    lemma_find_from_prefix(w, three, 2, 0);
    assert(three.take(2) =~= input.subrange(pos, pos + 2));
}

/// A back-reference that starts where the look-ahead allows one covers 3 to
/// 130 bytes of the input, and those bytes are found in the ring.
pub proof fn lemma_match_length(input: Seq<u8>, pos: int, w: Window)
    requires
        0 <= pos,
        lookahead(w, input, pos),
    ensures
        MIN_MATCH <= match_length(input, pos, w) <= MAX_MATCH,
        pos + match_length(input, pos, w) <= input.len(),
        w.find(input.subrange(pos, pos + match_length(input, pos, w))) is Some,
{
    reveal(lookahead);
    reveal(match_length);
    lemma_lookahead_prefixes(w, input, pos);
    assert(match_scan(input, pos, w, 1) == match_scan(input, pos, w, 2));
    assert(match_scan(input, pos, w, 2) == match_scan(input, pos, w, 3));
    lemma_match_scan(input, pos, w, 3);
}

/// The stream that the encoder emits for the input from `pos` on, with the
/// ring in state `w` and `state` saying which command comes next.
///
/// A run is its length byte and its literal bytes. A back-reference is its
/// command byte and its distance byte. Either command writes the bytes it
/// stands for to the ring. After the last input byte comes the terminator.
pub open spec fn encode_from(input: Seq<u8>, pos: int, w: Window, state: EncoderState) -> Seq<u8>
    decreases input.len() - pos,
{
    if pos < 0 || pos >= input.len() {
        seq![0u8]
    } else {
        match state {
            EncoderState::Run => {
                let n = run_length(input, pos, w);
                let literals = input.subrange(pos, pos + n);
                proof {
                    reveal(run_length);
                    lemma_scan_advances(input, pos, w, 1);
                }
                seq![n as u8] + literals + encode_from(
                    input,
                    pos + n,
                    w.write_all(literals),
                    state_after_run(input, pos, n),
                )
            },
            EncoderState::Cache => {
                let n = match_length(input, pos, w);
                let candidate = input.subrange(pos, pos + n);
                let after = w.write_all(candidate);
                proof {
                    reveal(match_length);
                    lemma_scan_advances(input, pos, w, 1);
                }
                seq![cache_byte(n), distance_byte(w.cursor, w.find(candidate).unwrap())]
                    + encode_from(input, pos + n, after, state_after_cache(after, input, pos + n))
            },
        }
    }
}

/// The stream from a run on is the run command followed by the stream from
/// the byte after the run on.
pub proof fn lemma_encode_run(input: Seq<u8>, pos: int, w: Window)
    requires
        0 <= pos < input.len(),
    ensures
        ({
            let n = run_length(input, pos, w);
            let literals = input.subrange(pos, pos + n);
            encode_from(input, pos, w, EncoderState::Run) == (seq![n as u8] + literals)
                + encode_from(
                input,
                pos + n,
                w.write_all(literals),
                state_after_run(input, pos, n),
            )
        }),
{
}

/// The stream from a back-reference on is its two bytes followed by the
/// stream from the byte after the copied ones on.
pub proof fn lemma_encode_cache(input: Seq<u8>, pos: int, w: Window)
    requires
        0 <= pos < input.len(),
    ensures
        ({
            let n = match_length(input, pos, w);
            let candidate = input.subrange(pos, pos + n);
            let after = w.write_all(candidate);
            encode_from(input, pos, w, EncoderState::Cache) == seq![
                cache_byte(n),
                distance_byte(w.cursor, w.find(candidate).unwrap()),
            ] + encode_from(input, pos + n, after, state_after_cache(after, input, pos + n))
        }),
{
}

/// The stream that the encoder emits for `input`.
pub open spec fn encode(input: Seq<u8>) -> Seq<u8> {
    encode_from(input, 0, Window::empty(), EncoderState::Run)
}

/// One encoding of one input.
pub struct CompressInstance {
    init_data: Vec<u8>,
    init_ind: usize,
    window: WindowBuffer,
    out_buf: Vec<u8>,
}

impl CompressInstance {
    /// The bytes to encode.
    pub closed spec fn input(&self) -> Seq<u8> {
        self.init_data@
    }

    /// Number of input bytes taken so far.
    pub closed spec fn position(&self) -> int {
        self.init_ind as int
    }

    /// The ring of bytes that the commands emitted so far stand for.
    pub closed spec fn ring(&self) -> Window {
        self.window@
    }

    /// The stream emitted so far.
    pub closed spec fn output(&self) -> Seq<u8> {
        self.out_buf@
    }

    /// An encoder for the bytes `data`: nothing is taken, the ring is empty,
    /// nothing is emitted.
    pub fn new(data: Vec<u8>) -> (inst: Self)
        ensures
            inst.input() == data@,
            inst.position() == 0,
            inst.ring() == Window::empty(),
            inst.output() == Seq::<u8>::empty(),
    {
        CompressInstance {
            init_data: data,
            init_ind: 0,
            window: WindowBuffer::new(),
            out_buf: Vec::new(),
        }
    }

    /// Takes the next byte of the input.
    fn read_init(&mut self) -> (b: u8)
        requires
            old(self).init_ind < old(self).init_data.len(),
        ensures
            b == old(self).init_data@[old(self).init_ind as int],
            final(self).init_ind == old(self).init_ind + 1,
            final(self).init_data == old(self).init_data,
            final(self).window == old(self).window,
            final(self).out_buf == old(self).out_buf,
    {
        let b: u8 = self.init_data[self.init_ind];
        self.init_ind = self.init_ind + 1;
        b
    }

    /// Appends one byte to the stream.
    fn write_out(&mut self, val: u8)
        ensures
            final(self).out_buf@ == old(self).out_buf@.push(val),
            final(self).init_ind == old(self).init_ind,
            final(self).init_data == old(self).init_data,
            final(self).window == old(self).window,
    {
        self.out_buf.push(val);
    }

    /// Decides, before the next input byte is taken, whether a back-reference
    /// starts there.
    fn determine_next_command(&self) -> (next: EncoderState)
        requires
            self.init_ind < self.init_data.len(),
        ensures
            next is Cache <==> lookahead(self.window@, self.init_data@, self.init_ind as int),
    {
        let ghost pos = self.init_ind as int;
        proof {
            reveal(lookahead);
        }
        let mut probe: Vec<u8> = Vec::new();
        probe.push(self.init_data[self.init_ind]);
        assert(probe@ =~= self.init_data@.subrange(pos, pos + 1));
        if self.window.find(&probe).is_none() {
            return EncoderState::Run;
        }
        if self.init_data.len() - self.init_ind <= 2 {
            return EncoderState::Run;
        }
        probe.push(self.init_data[self.init_ind + 1]);
        probe.push(self.init_data[self.init_ind + 2]);
        assert(probe@ =~= self.init_data@.subrange(pos, pos + 3));
        if self.window.find(&probe).is_some() {
            EncoderState::Cache
        } else {
            EncoderState::Run
        }
    }

    /// Emits one run: takes input bytes until the run ends, then writes its
    /// length and the bytes.
    fn run_command(&mut self) -> (next: EncoderState)
        requires
            old(self).init_ind < old(self).init_data.len(),
            old(self).window@.wf(),
        ensures
            final(self).init_data == old(self).init_data,
            final(self).window@.wf(),
            old(self).init_ind < final(self).init_ind <= final(self).init_data.len(),
            next is Cache ==> lookahead(
                final(self).window@,
                final(self).init_data@,
                final(self).init_ind as int,
            ),
            ({
                let input = old(self).init_data@;
                let pos = old(self).init_ind as int;
                let n = run_length(input, pos, old(self).window@);
                let literals = input.subrange(pos, pos + n);
                &&& final(self).init_ind == pos + n
                &&& final(self).window@ == old(self).window@.write_all(literals)
                &&& final(self).out_buf@ == old(self).out_buf@ + (seq![n as u8] + literals)
                &&& next == state_after_run(input, pos, n)
            }),
    {
        let ghost input = self.init_data@;
        let ghost pos = self.init_ind as int;
        let ghost w0 = self.window@;
        let mut v: Vec<u8> = Vec::new();
        let mut next = EncoderState::Run;
        proof {
            reveal(run_length);
            assert(v@ =~= input.subrange(pos, pos));
        }
        loop
            invariant_except_break
                self.init_ind < self.init_data.len(),
                v.len() < MAX_RUN,
                next is Run,
                run_length(input, pos, w0) == run_scan(input, pos, w0, v.len() + 1),
            invariant
                self.init_data == old(self).init_data,
                self.out_buf == old(self).out_buf,
                input == self.init_data@,
                pos == old(self).init_ind,
                self.init_ind == pos + v.len(),
                self.init_ind <= self.init_data.len(),
                v@ == input.subrange(pos, self.init_ind as int),
                w0.wf(),
                self.window@ == w0.write_all(v@),
            ensures
                1 <= v.len() <= MAX_RUN,
                v.len() == run_length(input, pos, w0),
                next == state_after_run(input, pos, v.len() as int),
                next is Cache ==> lookahead(self.window@, input, self.init_ind as int),
            decreases self.init_data.len() - self.init_ind,
        {
            let b: u8 = self.read_init();
            proof {
                lemma_write_all_push(w0, v@, b);
                assert(input.subrange(pos, pos + v.len() + 1) =~= v@.push(b));
            }
            v.push(b);
            self.window.write(b);
            if self.init_ind >= self.init_data.len() {
                break;
            }
            if v.len() == MAX_RUN {
                break;
            }
            next = self.determine_next_command();
            if let EncoderState::Cache = next {
                break;
            }
        }
        proof {
            lemma_write_all_wf(w0, v@);
        }
        self.write_out(v.len() as u8);
        let ghost head = old(self).out_buf@.push(v.len() as u8);
        let mut i: usize = 0;
        while i < v.len()
            invariant
                0 <= i <= v.len(),
                self.init_data == old(self).init_data,
                self.init_ind == pos + v.len(),
                self.window@ == w0.write_all(v@),
                self.out_buf@ == head + v@.take(i as int),
            decreases v.len() - i,
        {
            self.write_out(v[i]);
            assert(v@.take(i + 1) =~= v@.take(i as int).push(v@[i as int]));
            i = i + 1;
        }
        assert(v@.take(v.len() as int) =~= v@);
        assert(head + v@ =~= old(self).out_buf@ + (seq![v.len() as u8] + v@));
        next
    }

    /// Emits one back-reference: grows the candidate while it is found in the
    /// ring, writes the command and the distance, then writes the candidate
    /// to the ring.
    fn cache_command(&mut self) -> (next: EncoderState)
        requires
            old(self).init_ind < old(self).init_data.len(),
            old(self).window@.wf(),
            lookahead(old(self).window@, old(self).init_data@, old(self).init_ind as int),
        ensures
            final(self).init_data == old(self).init_data,
            final(self).window@.wf(),
            old(self).init_ind < final(self).init_ind <= final(self).init_data.len(),
            next is Cache ==> lookahead(
                final(self).window@,
                final(self).init_data@,
                final(self).init_ind as int,
            ),
            ({
                let input = old(self).init_data@;
                let pos = old(self).init_ind as int;
                let w = old(self).window@;
                let n = match_length(input, pos, w);
                let candidate = input.subrange(pos, pos + n);
                &&& final(self).init_ind == pos + n
                &&& final(self).window@ == w.write_all(candidate)
                &&& final(self).out_buf@ == old(self).out_buf@ + seq![
                    cache_byte(n),
                    distance_byte(w.cursor, w.find(candidate).unwrap()),
                ]
                &&& next == state_after_cache(final(self).window@, input, pos + n)
            }),
    {
        let ghost input = self.init_data@;
        let ghost pos = self.init_ind as int;
        let ghost w0 = self.window@;
        proof {
            reveal(match_length);
            lemma_lookahead_prefixes(w0, input, pos);
            lemma_match_length(input, pos, w0);
        }
        let mut v: Vec<u8> = Vec::new();
        let first: u8 = self.read_init();
        v.push(first);
        assert(v@ =~= input.subrange(pos, pos + 1));
        loop
            invariant_except_break
                v.len() < MAX_MATCH,
                match_length(input, pos, w0) == match_scan(input, pos, w0, v.len() as int),
            invariant
                self.init_data == old(self).init_data,
                self.out_buf == old(self).out_buf,
                self.window == old(self).window,
                input == self.init_data@,
                w0 == self.window@,
                pos == old(self).init_ind,
                1 <= v.len(),
                self.init_ind == pos + v.len(),
                self.init_ind <= self.init_data.len(),
                v@ == input.subrange(pos, self.init_ind as int),
                w0.find(v@) is Some,
            ensures
                v.len() == match_length(input, pos, w0),
            decreases self.init_data.len() - self.init_ind,
        {
            if self.init_ind >= self.init_data.len() {
                break;
            }
            let ghost shorter = v@;
            let b: u8 = self.read_init();
            v.push(b);
            assert(v@ =~= input.subrange(pos, pos + shorter.len() + 1));
            if self.window.find(&v).is_none() {
                v.pop();
                self.init_ind = self.init_ind - 1;
                assert(v@ =~= shorter);
                break;
            }
            assert(match_scan(input, pos, w0, shorter.len() as int) == match_scan(
                input,
                pos,
                w0,
                v.len() as int,
            ));
            if self.init_ind >= self.init_data.len() {
                break;
            }
            if v.len() >= MAX_MATCH {
                break;
            }
        }
        let start: usize = self.window.find(&v).unwrap();
        proof {
            lemma_find_from_matches(w0, v@, 0);
        }
        let cursor: usize = self.window.cursor();
        let extra: u8 = (v.len() - MIN_MATCH) as u8;
        assert(0x80u8 | extra == 0x80 + extra) by (bit_vector)
            requires
                extra < 0x80,
        ;
        self.write_out(0x80u8 | extra);
        proof {
            lemma_distance_byte(cursor as int, start as int);
        }
        self.write_out(wrap_index(cursor + 255 - start) as u8);
        assert(self.out_buf@ =~= old(self).out_buf@ + seq![
            cache_byte(v.len() as int),
            distance_byte(w0.cursor, w0.find(v@).unwrap()),
        ]);
        let mut i: usize = 0;
        while i < v.len()
            invariant
                0 <= i <= v.len(),
                self.init_data == old(self).init_data,
                self.init_ind == pos + v.len(),
                self.out_buf@ == old(self).out_buf@ + seq![
                    cache_byte(v.len() as int),
                    distance_byte(w0.cursor, w0.find(v@).unwrap()),
                ],
                self.window@ == w0.write_all(v@.take(i as int)),
            decreases v.len() - i,
        {
            proof {
                lemma_write_all_push(w0, v@.take(i as int), v@[i as int]);
                assert(v@.take(i + 1) =~= v@.take(i as int).push(v@[i as int]));
            }
            self.window.write(v[i]);
            i = i + 1;
        }
        proof {
            assert(v@.take(v.len() as int) =~= v@);
            lemma_write_all_wf(w0, v@);
        }
        if self.init_ind >= self.init_data.len() {
            return EncoderState::Run;
        }
        self.determine_next_command()
    }

    /// Encodes the input from its first byte, with an empty ring, and ends
    /// the stream with its terminator. Whatever an earlier call left behind
    /// is cleared first; afterwards the whole input is taken, the ring holds
    /// what was written to it byte by byte, and the output is the stream.
    pub fn compress(&mut self) -> (out: Vec<u8>)
        ensures
            final(self).input() == old(self).input(),
            out@ == encode(old(self).input()),
            well_framed(out@, 0),
            decode(out@) == Some(old(self).input()),
            final(self).position() == old(self).input().len(),
            final(self).ring() == Window::empty().write_all(old(self).input()),
            final(self).output() == out@,
    {
        proof {
            lemma_terminator_is_last(self.init_data@);
            lemma_round_trip(self.init_data@);
        }
        self.init_ind = 0;
        self.window = WindowBuffer::new();
        self.out_buf = Vec::new();
        let mut state = EncoderState::Run;
        assert(self.out_buf@ + encode(self.init_data@) =~= encode(self.init_data@));
        assert(self.init_data@.subrange(0, 0) =~= Seq::<u8>::empty());
        while self.init_ind < self.init_data.len()
            invariant
                self.init_data == old(self).init_data,
                self.init_ind <= self.init_data.len(),
                self.window@.wf(),
                self.window@ == Window::empty().write_all(
                    self.init_data@.subrange(0, self.init_ind as int),
                ),
                state is Cache ==> lookahead(self.window@, self.init_data@, self.init_ind as int),
                encode(self.init_data@) == self.out_buf@ + encode_from(
                    self.init_data@,
                    self.init_ind as int,
                    self.window@,
                    state,
                ),
            decreases self.init_data.len() - self.init_ind,
        {
            let ghost out = self.out_buf@;
            let ghost pos = self.init_ind as int;
            let ghost w = self.window@;
            match state {
                EncoderState::Run => {
                    state = self.run_command();
                    proof {
                        lemma_encode_run(self.init_data@, pos, w);
                    }
                },
                EncoderState::Cache => {
                    state = self.cache_command();
                    proof {
                        lemma_encode_cache(self.init_data@, pos, w);
                    }
                },
            }
            proof {
                let taken = self.init_data@.subrange(0, pos);
                let covered = self.init_data@.subrange(pos, self.init_ind as int);
                lemma_write_all_concat(Window::empty(), taken, covered);
                assert(taken + covered =~= self.init_data@.subrange(0, self.init_ind as int));
                let command = self.out_buf@.subrange(out.len() as int, self.out_buf@.len() as int);
                let tail = encode_from(
                    self.init_data@,
                    self.init_ind as int,
                    self.window@,
                    state,
                );
                assert(self.out_buf@ =~= out + command);
                assert(out + (command + tail) =~= (out + command) + tail);
            }
        }
        let ghost commands = self.out_buf@;
        self.write_out(0);
        assert(self.out_buf@ =~= commands + seq![0u8]);
        assert(self.init_data@.subrange(0, self.init_ind as int) =~= self.init_data@);
        let out = self.out_buf.clone();
        assert(out@ =~= self.out_buf@);
        out
    }
}

} // verus!
