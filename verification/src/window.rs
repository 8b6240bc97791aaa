//! The 256-cell ring of recently produced bytes, and the search for a
//! back-reference in it.

use vstd::prelude::*;

verus! {

/// Number of cells in the ring.
pub const WINDOW_SIZE: usize = 256;

/// The cell that an arbitrary offset falls on.
pub open spec fn wrap(i: int) -> int {
    i % 256
}

/// Reduces an offset to a cell index.
pub fn wrap_index(i: usize) -> (r: usize)
    ensures
        r == wrap(i as int),
        r < WINDOW_SIZE,
{
    i % WINDOW_SIZE
}

/// Mathematical model of a ring: its cells, and the cell the next byte goes to.
/// A cell that was never written holds `None`.
pub struct Window {
    pub cells: Seq<Option<u8>>,
    pub cursor: int,
}

impl Window {
    /// There are 256 cells, and the cursor is on one of them.
    pub open spec fn wf(self) -> bool {
        &&& self.cells.len() == 256
        &&& 0 <= self.cursor < 256
    }

    /// The ring in which nothing has been written.
    pub open spec fn empty() -> Window {
        Window { cells: Seq::new(256, |i: int| None::<u8>), cursor: 0 }
    }

    /// The ring in which every cell holds zero.
    pub open spec fn zeroed() -> Window {
        Window { cells: Seq::new(256, |i: int| Some(0u8)), cursor: 0 }
    }

    /// What the cell at `offset` holds, the offset taken around the ring.
    pub open spec fn read(self, offset: int) -> Option<u8> {
        self.cells[wrap(offset)]
    }

    /// The ring after `b` went to the cell under the cursor and the cursor
    /// moved on by one cell, around the ring.
    pub open spec fn write(self, b: u8) -> Window {
        Window { cells: self.cells.update(self.cursor, Some(b)), cursor: wrap(self.cursor + 1) }
    }

    /// The ring after the bytes of `s` have been written in order.
    pub open spec fn write_all(self, s: Seq<u8>) -> Window
        decreases s.len(),
    {
        if s.len() == 0 {
            self
        } else {
            self.write_all(s.drop_last()).write(s.last())
        }
    }

    /// Whether a copy that starts reading at `start` reproduces `s`: every
    /// byte read goes to the cursor before the next one is read, so the `j`-th
    /// read sees the ring with the first `j` bytes of `s` already written.
    pub open spec fn matches_at(self, start: int, s: Seq<u8>) -> bool {
        forall|j: int|
            0 <= j < s.len() ==> self.write_all(#[trigger] s.take(j)).read(start + j) == Some(s[j])
    }

    /// The first start offset, counted from the `k`-th cell after the cursor,
    /// at which `s` matches.
    pub open spec fn find_from(self, s: Seq<u8>, k: int) -> Option<int>
        decreases 256 - k,
    {
        if k >= 256 {
            None
        } else if self.matches_at(wrap(self.cursor + k), s) {
            Some(wrap(self.cursor + k))
        } else {
            self.find_from(s, k + 1)
        }
    }

    /// The start offset of the oldest match of `s`: the 256 offsets are tried
    /// in ring order, the cell under the cursor first.
    pub open spec fn find(self, s: Seq<u8>) -> Option<int> {
        self.find_from(s, 0)
    }

    /// The byte in a cell; an empty cell reads as zero.
    pub open spec fn byte_at(self, offset: int) -> u8 {
        match self.read(offset) {
            Some(b) => b,
            None => 0,
        }
    }

    /// The bytes that a copy of `n` cells from `start` on produces. Each byte
    /// is written at the cursor as soon as it is read, so a copy that runs
    /// into what it has written repeats it.
    pub open spec fn copied(self, start: int, n: nat) -> Seq<u8>
        decreases n,
    {
        if n == 0 {
            Seq::empty()
        } else {
            let before = self.copied(start, (n - 1) as nat);
            before.push(self.write_all(before).byte_at(start + n - 1))
        }
    }

    /// Every byte that `self` holds, `other` holds in the same cell, and both
    /// write to the same cell next.
    #[verifier::opaque]
    pub open spec fn refined_by(self, other: Window) -> bool {
        &&& self.cursor == other.cursor
        &&& forall|i: int|
            0 <= i < 256 ==> (#[trigger] self.cells[i]) is Some ==> other.cells[i] == self.cells[i]
    }
}

/// Writing one more byte after `s` is one write on top of writing `s`.
pub proof fn lemma_write_all_push(w: Window, s: Seq<u8>, b: u8)
    ensures
        w.write_all(s.push(b)) == w.write_all(s).write(b),
{
    assert(s.push(b).drop_last() =~= s);
}

/// Writing `a` and then `b` is writing the two joined.
pub proof fn lemma_write_all_concat(w: Window, a: Seq<u8>, b: Seq<u8>)
    ensures
        w.write_all(a + b) == w.write_all(a).write_all(b),
    decreases b.len(),
{
    if b.len() == 0 {
        assert(a + b =~= a);
    } else {
        lemma_write_all_concat(w, a, b.drop_last());
        assert((a + b).drop_last() =~= a + b.drop_last());
    }
}

/// Writing keeps the ring well formed and moves the cursor by the number of
/// bytes written.
pub proof fn lemma_write_all_wf(w: Window, s: Seq<u8>)
    requires
        w.wf(),
    ensures
        w.write_all(s).wf(),
        w.write_all(s).cursor == wrap(w.cursor + s.len()),
    decreases s.len(),
{
    if s.len() > 0 {
        lemma_write_all_wf(w, s.drop_last());
    }
}

/// A match of `s` is a match of each of its prefixes.
pub proof fn lemma_matches_prefix(w: Window, start: int, s: Seq<u8>, n: int)
    requires
        0 <= n <= s.len(),
        w.matches_at(start, s),
    ensures
        w.matches_at(start, s.take(n)),
{
    let p = s.take(n);
    assert forall|j: int| 0 <= j < p.len() implies w.write_all(#[trigger] p.take(j)).read(
        start + j,
    ) == Some(p[j]) by {
        assert(p.take(j) =~= s.take(j));
    }
}

/// What `find_from` returns is a cell index at which `s` matches.
pub proof fn lemma_find_from_matches(w: Window, s: Seq<u8>, k: int)
    requires
        w.wf(),
        0 <= k,
    ensures
        w.find_from(s, k) matches Some(p) ==> 0 <= p < 256 && w.matches_at(p, s),
    decreases 256 - k,
{
    if k < 256 && !w.matches_at(wrap(w.cursor + k), s) {
        lemma_find_from_matches(w, s, k + 1);
    }
}

/// Where `s` is found, so is each of its prefixes.
pub proof fn lemma_find_from_prefix(w: Window, s: Seq<u8>, n: int, k: int)
    requires
        0 <= n <= s.len(),
        0 <= k,
        w.find_from(s, k) is Some,
    ensures
        w.find_from(s.take(n), k) is Some,
    decreases 256 - k,
{
    if k < 256 {
        if w.matches_at(wrap(w.cursor + k), s) {
            lemma_matches_prefix(w, wrap(w.cursor + k), s, n);
        } else {
            lemma_find_from_prefix(w, s, n, k + 1);
        }
    }
}

/// Two rings of which one refines the other stay so when the same bytes are
/// written to both.
pub proof fn lemma_write_all_refined(w: Window, full: Window, s: Seq<u8>)
    requires
        w.wf(),
        full.wf(),
        w.refined_by(full),
    ensures
        w.write_all(s).refined_by(full.write_all(s)),
        w.cursor == full.cursor,
    decreases s.len(),
{
    reveal(Window::refined_by);
    if s.len() > 0 {
        lemma_write_all_refined(w, full, s.drop_last());
        lemma_write_all_wf(w, s.drop_last());
        lemma_write_all_wf(full, s.drop_last());
    }
}

/// A copy from a place where `s` matches produces `s`, in any ring that holds
/// at least what the matched ring holds.
pub proof fn lemma_copy_reproduces(w: Window, full: Window, start: int, s: Seq<u8>, n: nat)
    requires
        w.wf(),
        full.wf(),
        w.refined_by(full),
        w.matches_at(start, s),
        n <= s.len(),
    ensures
        full.copied(start, n) == s.take(n as int),
    decreases n,
{
    if n > 0 {
        reveal(Window::refined_by);
        let m = (n - 1) as nat;
        lemma_copy_reproduces(w, full, start, s, m);
        let before = s.take(m as int);
        lemma_write_all_refined(w, full, before);
        lemma_write_all_wf(w, before);
        lemma_write_all_wf(full, before);
        assert(w.write_all(before).read(start + m) == Some(s[m as int]));
        assert(full.copied(start, n) =~= s.take(n as int));
    }
}

/// The compression-side ring: cells are empty until written.
#[derive(Clone, Copy)]
pub struct WindowBuffer {
    cells: [Option<u8>; 256],
    cursor: usize,
}

impl View for WindowBuffer {
    type V = Window;

    closed spec fn view(&self) -> Window {
        Window { cells: self.cells@, cursor: self.cursor as int }
    }
}

impl WindowBuffer {
    #[verifier::type_invariant]
    spec fn inv(self) -> bool {
        self.cursor < 256
    }

    /// A ring in which nothing has been written, with the cursor on cell 0.
    pub fn new() -> (w: Self)
        ensures
            w@ == Window::empty(),
    {
        let w = WindowBuffer { cells: [None; 256], cursor: 0 };
        assert(w@.cells =~= Window::empty().cells);
        w
    }

    /// What the cell at `offset` holds; `None` where nothing was written.
    pub fn read(&self, offset: usize) -> (r: Option<u8>)
        ensures
            r == self@.read(offset as int),
    {
        self.cells[wrap_index(offset)]
    }

    /// Stores `b` under the cursor and moves the cursor on.
    pub fn write(&mut self, b: u8)
        ensures
            final(self)@ == old(self)@.write(b),
    {
        proof {
            use_type_invariant(&*self);
        }
        self.cells[self.cursor] = Some(b);
        self.cursor = wrap_index(self.cursor + 1);
    }

    /// The cell that the next byte goes to.
    pub fn cursor(&self) -> (c: usize)
        ensures
            c == self@.cursor,
            c < WINDOW_SIZE,
            self@.wf(),
    {
        proof {
            use_type_invariant(self);
        }
        self.cursor
    }

    /// A copy of the whole ring, to try a match on.
    pub fn snapshot(&self) -> (copy: Self)
        ensures
            copy@ == self@,
    {
        *self
    }

    /// Puts the ring back to what `saved` holds.
    pub fn restore(&mut self, saved: &Self)
        ensures
            final(self)@ == saved@,
    {
        *self = *saved;
    }

    /// Searches the ring for a place from which a copy reproduces `seq`, and
    /// returns the oldest one. The ring itself is left as it was.
    pub fn find(&self, seq: &Vec<u8>) -> (r: Option<usize>)
        ensures
            self@.wf(),
            match r {
                Some(p) => p < WINDOW_SIZE && self@.find(seq@) == Some(p as int),
                None => self@.find(seq@) is None,
            },
    {
        proof {
            use_type_invariant(self);
        }
        let saved = self.snapshot();
        let mut scratch = self.snapshot();
        let mut k: usize = 0;
        while k < WINDOW_SIZE
            invariant
                0 <= k <= WINDOW_SIZE,
                saved@ == self@,
                self@.wf(),
                self@.find(seq@) == self@.find_from(seq@, k as int),
            decreases WINDOW_SIZE - k,
        {
            let start: usize = wrap_index(saved.cursor() + k);
            scratch.restore(&saved);
            let mut src: usize = start;
            let mut x: usize = 0;
            let mut matched = true;
            while x < seq.len()
                invariant_except_break
                    matched,
                    src == wrap(start + x),
                    scratch@ == self@.write_all(seq@.take(x as int)),
                invariant
                    0 <= x <= seq.len(),
                    self@.wf(),
                    0 <= start < 256,
                    src < 256,
                    forall|j: int|
                        0 <= j < x ==> self@.write_all(#[trigger] seq@.take(j)).read(start + j)
                            == Some(seq@[j]),
                ensures
                    matched ==> x == seq.len(),
                    !matched ==> !self@.matches_at(start as int, seq@),
                decreases seq.len() - x,
            {
                let want: u8 = seq[x];
                proof {
                    assert(seq@.take(x as int + 1) =~= seq@.take(x as int).push(want));
                    lemma_write_all_push(self@, seq@.take(x as int), want);
                }
                if scratch.read(src) == Some(want) {
                    scratch.write(want);
                    src = wrap_index(src + 1);
                    x = x + 1;
                } else {
                    matched = false;
                    break;
                }
            }
            if matched {
                proof {
                    assert(seq@.take(seq@.len() as int) =~= seq@);
                    assert(self@.matches_at(start as int, seq@));
                }
                return Some(start);
            }
            k = k + 1;
        }
        None
    }
}

/// The decompression-side ring: every cell holds a byte, zero at the start.
#[derive(Clone, Copy)]
pub struct DecodeWindow {
    cells: [u8; 256],
    cursor: usize,
}

impl View for DecodeWindow {
    type V = Window;

    closed spec fn view(&self) -> Window {
        Window {
            cells: Seq::new(256, |i: int| Some(self.cells@[i])),
            cursor: self.cursor as int,
        }
    }
}

impl DecodeWindow {
    #[verifier::type_invariant]
    spec fn inv(self) -> bool {
        self.cursor < 256
    }

    /// A ring of zeros, with the cursor on cell 0.
    pub fn new() -> (w: Self)
        ensures
            w@ == Window::zeroed(),
    {
        let w = DecodeWindow { cells: [0u8; 256], cursor: 0 };
        assert(w@.cells =~= Window::zeroed().cells);
        w
    }

    /// The cell that the next byte goes to.
    pub fn cursor(&self) -> (c: usize)
        ensures
            c == self@.cursor,
            c < WINDOW_SIZE,
            self@.wf(),
    {
        proof {
            use_type_invariant(self);
        }
        self.cursor
    }

    /// The byte in the cell at `offset`.
    pub fn read(&self, offset: usize) -> (b: u8)
        ensures
            b == self@.byte_at(offset as int),
    {
        self.cells[wrap_index(offset)]
    }

    /// Stores `b` under the cursor and moves the cursor on.
    pub fn write(&mut self, b: u8)
        ensures
            final(self)@ == old(self)@.write(b),
    {
        proof {
            use_type_invariant(&*self);
        }
        self.cells[self.cursor] = b;
        self.cursor = wrap_index(self.cursor + 1);
        assert(self@.cells =~= old(self)@.write(b).cells);
    }
}

} // verus!
