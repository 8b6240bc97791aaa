//! The decoder: reads commands in order and rebuilds the bytes they stand for.

use crate::window::{lemma_write_all_concat, lemma_write_all_push, lemma_write_all_wf, wrap,
    wrap_index, DecodeWindow, Window};
use vstd::prelude::*;

verus! {

/// Why a stream cannot be decoded.
#[derive(Clone, Copy, Debug, PartialEq, Eq)]
pub enum DecodeError {
    /// A command asks for more bytes than the stream still holds, or the
    /// stream ends where a command should begin.
    TruncatedStream,
}

/// Number of bytes that the back-reference command `c` copies.
pub open spec fn copy_length(c: u8) -> int {
    c - 0x80 + 3
}

/// `head` followed by what the rest of the stream decodes to, if it decodes.
pub open spec fn prepend(head: Seq<u8>, rest: Option<Seq<u8>>) -> Option<Seq<u8>> {
    match rest {
        Some(tail) => Some(head + tail),
        None => None,
    }
}

/// What the commands from `pos` on decode to, with the ring in state `w`;
/// `None` where the stream breaks off before its terminator.
///
/// A zero byte ends the stream. A byte `n` in `1..=0x7F` is followed by `n`
/// literal bytes. A byte `c` from `0x80` on is followed by one distance byte
/// `d` and copies `c - 0x80 + 3` bytes out of the ring, starting `d + 1`
/// cells behind the cursor.
pub open spec fn decode_from(stream: Seq<u8>, pos: int, w: Window) -> Option<Seq<u8>>
    decreases stream.len() - pos,
{
    if pos < 0 || pos >= stream.len() {
        None
    } else {
        let c = stream[pos];
        if c == 0 {
            Some(Seq::empty())
        } else if c < 0x80 {
            let end = pos + 1 + c;
            if end > stream.len() {
                None
            } else {
                let literals = stream.subrange(pos + 1, end);
                prepend(literals, decode_from(stream, end, w.write_all(literals)))
            }
        } else {
            if pos + 1 >= stream.len() {
                None
            } else {
                let start = wrap(w.cursor - stream[pos + 1] - 1);
                let copy = w.copied(start, copy_length(c) as nat);
                prepend(copy, decode_from(stream, pos + 2, w.write_all(copy)))
            }
        }
    }
}

/// Where the terminator stands that the commands from `pos` on lead to;
/// `None` where a command asks for more bytes than the stream still holds, or
/// the stream ends where a command should begin.
pub open spec fn terminator_index(stream: Seq<u8>, pos: int) -> Option<int>
    decreases stream.len() - pos,
{
    if pos < 0 || pos >= stream.len() {
        None
    } else {
        let c = stream[pos];
        if c == 0 {
            Some(pos)
        } else if c < 0x80 {
            if pos + 1 + c > stream.len() {
                None
            } else {
                terminator_index(stream, pos + 1 + c)
            }
        } else {
            if pos + 1 >= stream.len() {
                None
            } else {
                terminator_index(stream, pos + 2)
            }
        }
    }
}

/// A stream decodes exactly where its commands lead to a terminator,
/// whatever the ring holds.
pub proof fn lemma_decodes_iff_terminated(stream: Seq<u8>, pos: int, w: Window)
    ensures
        decode_from(stream, pos, w) is Some <==> terminator_index(stream, pos) is Some,
    decreases stream.len() - pos,
{
    if 0 <= pos < stream.len() {
        let c = stream[pos];
        if c == 0 {
        } else if c < 0x80 {
            let end = pos + 1 + c;
            if end <= stream.len() {
                lemma_decodes_iff_terminated(
                    stream,
                    end,
                    w.write_all(stream.subrange(pos + 1, end)),
                );
            }
        } else {
            if pos + 1 < stream.len() {
                let start = wrap(w.cursor - stream[pos + 1] - 1);
                let copy = w.copied(start, copy_length(c) as nat);
                lemma_decodes_iff_terminated(stream, pos + 2, w.write_all(copy));
            }
        }
    }
}

/// A command that the stream does not hold in full makes the stream
/// truncated, whatever the ring holds: a back-reference without its distance
/// byte, a run with fewer literals than it announces, or no command at all.
pub proof fn lemma_incomplete_command_is_truncated(stream: Seq<u8>, pos: int, w: Window)
    requires
        0 <= pos,
        pos < stream.len() ==> {
            ||| stream[pos] >= 0x80 && pos + 1 >= stream.len()
            ||| 0 < stream[pos] < 0x80 && pos + 1 + stream[pos] > stream.len()
        },
    ensures
        decode_from(stream, pos, w) is None,
        terminator_index(stream, pos) is None,
{
}

/// Whether the commands from `pos` on follow each other without a gap up to
/// a terminator that is the last byte of the stream: a run has all its 1 to
/// 127 literals, a back-reference of 3 to 130 bytes has its distance byte.
pub open spec fn well_framed(stream: Seq<u8>, pos: int) -> bool
    decreases stream.len() - pos,
{
    &&& 0 <= pos < stream.len()
    &&& {
        let c = stream[pos];
        if c == 0 {
            pos + 1 == stream.len()
        } else if c <= 0x7F {
            pos + 1 + c < stream.len() && well_framed(stream, pos + 1 + c)
        } else {
            3 <= copy_length(c) <= 0x82 && pos + 2 < stream.len() && well_framed(stream, pos + 2)
        }
    }
}

/// Prepending in two steps is prepending both parts at once.
pub proof fn lemma_prepend_twice(a: Seq<u8>, b: Seq<u8>, rest: Option<Seq<u8>>)
    ensures
        prepend(a, prepend(b, rest)) == prepend(a + b, rest),
{
    if let Some(tail) = rest {
        assert(a + (b + tail) =~= (a + b) + tail);
    }
}

/// What a whole stream decodes to.
pub open spec fn decode(stream: Seq<u8>) -> Option<Seq<u8>> {
    decode_from(stream, 0, Window::zeroed())
}

/// One decoding of one stream.
pub struct DecompressInstance {
    init_data: Vec<u8>,
    final_data: Vec<u8>,
    window: DecodeWindow,
    init_ptr: usize,
}

impl DecompressInstance {
    /// The stream to decode.
    pub closed spec fn input(&self) -> Seq<u8> {
        self.init_data@
    }

    /// Number of stream bytes read so far.
    pub closed spec fn position(&self) -> int {
        self.init_ptr as int
    }

    /// The ring of bytes decoded last.
    pub closed spec fn ring(&self) -> Window {
        self.window@
    }

    /// The bytes decoded so far.
    pub closed spec fn output(&self) -> Seq<u8> {
        self.final_data@
    }

    /// A decoder for the stream `data`: nothing is read, the ring is all
    /// zeros, nothing is decoded.
    pub fn new(data: Vec<u8>) -> (inst: Self)
        ensures
            inst.input() == data@,
            inst.position() == 0,
            inst.ring() == Window::zeroed(),
            inst.output() == Seq::<u8>::empty(),
    {
        DecompressInstance {
            init_data: data,
            final_data: Vec::new(),
            window: DecodeWindow::new(),
            init_ptr: 0,
        }
    }

    /// Takes the literal bytes of the run command `cmd` from the stream.
    fn cmd_run(&mut self, cmd: u8) -> (r: Result<(), DecodeError>)
        requires
            0 < cmd < 0x80,
            old(self).init_ptr <= old(self).init_data.len(),
            old(self).window@.wf(),
        ensures
            final(self).init_data == old(self).init_data,
            r is Err <==> old(self).init_ptr + cmd > old(self).init_data.len(),
            r is Ok ==> {
                let literals = old(self).init_data@.subrange(
                    old(self).init_ptr as int,
                    old(self).init_ptr + cmd,
                );
                &&& final(self).init_ptr == old(self).init_ptr + cmd
                &&& final(self).final_data@ == old(self).final_data@ + literals
                &&& final(self).window@ == old(self).window@.write_all(literals)
                &&& final(self).window@.wf()
            },
    {
        let length: usize = cmd as usize;
        if self.init_data.len() - self.init_ptr < length {
            return Err(DecodeError::TruncatedStream);
        }
        let ghost first = self.init_ptr as int;
        let ghost w0 = self.window@;
        let ghost out0 = self.final_data@;
        let mut done: usize = 0;
        while done < length
            invariant
                self.init_data == old(self).init_data,
                first == old(self).init_ptr,
                first + length <= self.init_data.len(),
                0 <= done <= length,
                self.init_ptr == first + done,
                w0.wf(),
                self.window@ == w0.write_all(self.init_data@.subrange(first, first + done)),
                self.final_data@ == out0 + self.init_data@.subrange(first, first + done),
            decreases length - done,
        {
            let data: u8 = self.init_data[self.init_ptr];
            proof {
                let before = self.init_data@.subrange(first, first + done);
                assert(self.init_data@.subrange(first, first + done + 1) =~= before.push(data));
                lemma_write_all_push(w0, before, data);
            }
            self.init_ptr = self.init_ptr + 1;
            self.final_data.push(data);
            self.window.write(data);
            done = done + 1;
        }
        proof {
            let literals = self.init_data@.subrange(first, first + length);
            lemma_write_all_wf(w0, literals);
        }
        Ok(())
    }

    /// Reads the distance byte of the back-reference command `cmd` and copies
    /// out of the ring.
    fn cmd_cache(&mut self, cmd: u8) -> (r: Result<(), DecodeError>)
        requires
            cmd >= 0x80,
            old(self).init_ptr <= old(self).init_data.len(),
            old(self).window@.wf(),
        ensures
            final(self).init_data == old(self).init_data,
            r is Err <==> old(self).init_ptr >= old(self).init_data.len(),
            r is Ok ==> {
                let w = old(self).window@;
                let start = wrap(w.cursor - old(self).init_data@[old(self).init_ptr as int] - 1);
                let copy = w.copied(start, copy_length(cmd) as nat);
                &&& final(self).init_ptr == old(self).init_ptr + 1
                &&& final(self).final_data@ == old(self).final_data@ + copy
                &&& final(self).window@ == w.write_all(copy)
                &&& final(self).window@.wf()
            },
    {
        if self.init_ptr >= self.init_data.len() {
            return Err(DecodeError::TruncatedStream);
        }
        let length: usize = (cmd & 0x7F) as usize + 3;
        assert(cmd & 0x7F == cmd - 0x80) by (bit_vector)
            requires
                cmd >= 0x80,
        ;
        let distance: usize = self.init_data[self.init_ptr] as usize;
        self.init_ptr = self.init_ptr + 1;
        let start: usize = wrap_index(self.window.cursor() + 255 - distance);
        let ghost w0 = self.window@;
        let ghost out0 = self.final_data@;
        let mut src: usize = start;
        let mut done: usize = 0;
        while done < length
            invariant
                self.init_data == old(self).init_data,
                self.init_ptr == old(self).init_ptr + 1,
                0 <= done <= length,
                w0.wf(),
                src == wrap(start + done),
                self.window@ == w0.write_all(w0.copied(start as int, done as nat)),
                self.final_data@ == out0 + w0.copied(start as int, done as nat),
            decreases length - done,
        {
            let data: u8 = self.window.read(src);
            proof {
                lemma_write_all_push(w0, w0.copied(start as int, done as nat), data);
                assert(w0.copied(start as int, (done + 1) as nat) == w0.copied(
                    start as int,
                    done as nat,
                ).push(data));
            }
            self.final_data.push(data);
            self.window.write(data);
            src = wrap_index(src + 1);
            done = done + 1;
        }
        proof {
            let copy = w0.copied(start as int, length as nat);
            lemma_write_all_wf(w0, copy);
        }
        Ok(())
    }

    /// Decodes the stream from its first byte, up to its terminator. Whatever
    /// an earlier call left behind is cleared first. The stream is truncated
    /// exactly where its commands do not lead to a terminator; where they do,
    /// the bytes up to and with the terminator are read, and the ring holds
    /// what was decoded, written byte by byte.
    pub fn decompress(&mut self) -> (r: Result<&Vec<u8>, DecodeError>)
        ensures
            final(self).input() == old(self).input(),
            r is Ok <==> terminator_index(old(self).input(), 0) is Some,
            match r {
                Ok(out) => {
                    &&& decode(old(self).input()) == Some(out@)
                    &&& final(self).output() == out@
                    &&& final(self).ring() == Window::zeroed().write_all(out@)
                    &&& final(self).position() == terminator_index(old(self).input(), 0).unwrap()
                        + 1
                },
                Err(e) => e == DecodeError::TruncatedStream && decode(old(self).input()) is None,
            },
    {
        proof {
            lemma_decodes_iff_terminated(self.init_data@, 0, Window::zeroed());
        }
        self.init_ptr = 0;
        self.final_data = Vec::new();
        self.window = DecodeWindow::new();
        loop
            invariant_except_break
                decode(self.init_data@) == prepend(
                    self.final_data@,
                    decode_from(self.init_data@, self.init_ptr as int, self.window@),
                ),
                terminator_index(self.init_data@, 0) == terminator_index(
                    self.init_data@,
                    self.init_ptr as int,
                ),
            invariant
                self.init_data == old(self).init_data,
                self.init_ptr <= self.init_data.len(),
                self.window@.wf(),
                self.window@ == Window::zeroed().write_all(self.final_data@),
            ensures
                self.init_data == old(self).init_data,
                decode(self.init_data@) == Some(self.final_data@),
                self.window@ == Window::zeroed().write_all(self.final_data@),
                terminator_index(self.init_data@, 0) == Some(self.init_ptr - 1),
            decreases self.init_data.len() - self.init_ptr,
        {
            if self.init_ptr >= self.init_data.len() {
                return Err(DecodeError::TruncatedStream);
            }
            let cmd: u8 = self.init_data[self.init_ptr];
            self.init_ptr = self.init_ptr + 1;
            let ghost at = self.init_ptr - 1;
            let ghost w = self.window@;
            let ghost out = self.final_data@;
            if cmd >= 0x80 {
                match self.cmd_cache(cmd) {
                    Ok(()) => {},
                    Err(e) => {
                        return Err(e);
                    },
                }
                proof {
                    let start = wrap(w.cursor - self.init_data@[at + 1] - 1);
                    let copy = w.copied(start, copy_length(cmd) as nat);
                    lemma_prepend_twice(
                        out,
                        copy,
                        decode_from(self.init_data@, at + 2, w.write_all(copy)),
                    );
                    lemma_write_all_concat(Window::zeroed(), out, copy);
                }
            } else if cmd != 0 {
                match self.cmd_run(cmd) {
                    Ok(()) => {},
                    Err(e) => {
                        return Err(e);
                    },
                }
                proof {
                    let literals = self.init_data@.subrange(at + 1, at + 1 + cmd);
                    lemma_prepend_twice(
                        out,
                        literals,
                        decode_from(self.init_data@, at + 1 + cmd, w.write_all(literals)),
                    );
                    lemma_write_all_concat(Window::zeroed(), out, literals);
                }
            } else {
                assert(out + Seq::<u8>::empty() =~= out);
                break;
            }
        }
        Ok(&self.final_data)
    }
}

} // verus!
