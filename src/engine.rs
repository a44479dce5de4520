//! The render context: the reusable RGBA frame buffer and the colour table,
//! owned by the caller and borrowed for each frame.
use vstd::prelude::*;
use crate::palette::{Rgb, PALETTE_SIZE, pixel_bytes, palette_index};

verus! {

/// The bytes of a frame whose pixels, in row-major order, got `counts`:
/// four bytes per pixel.
pub open spec fn frame_bytes(counts: Seq<u32>, max: nat, palette: Seq<Rgb>) -> Seq<u8> {
    Seq::new(4 * counts.len(), |i: int| pixel_bytes(counts[i / 4] as nat, max, palette)[i % 4])
}

/// The buffer after a frame of `counts` is written over the front of `buffer`
/// (grown first where it is too short).
pub open spec fn painted(buffer: Seq<u8>, counts: Seq<u32>, max: nat, palette: Seq<Rgb>) -> Seq<u8> {
    let n = 4 * counts.len();
    if buffer.len() <= n {
        frame_bytes(counts, max, palette)
    } else {
        frame_bytes(counts, max, palette) + buffer.subrange(n as int, buffer.len() as int)
    }
}

/// Length of a buffer of `len` bytes after a request for `min_size` bytes.
pub open spec fn grown_len(len: nat, min_size: nat) -> nat {
    if len < min_size {
        min_size
    } else {
        len
    }
}

/// A request for fewer bytes than an earlier one never shrinks the buffer
/// below the earlier request.
pub proof fn lemma_growth_is_monotonic(len: nat, n: nat, m: nat)
    ensures
        grown_len(grown_len(len, n), m) >= n,
        grown_len(grown_len(len, n), m) >= grown_len(len, n),
{
}

/// The front of the buffer after painting depends on the counts, the budget
/// and the colour table alone, not on what the buffer held before.
pub proof fn lemma_paint_is_deterministic(
    before1: Seq<u8>,
    before2: Seq<u8>,
    counts: Seq<u32>,
    max: nat,
    palette: Seq<Rgb>,
)
    ensures
        painted(before1, counts, max, palette).subrange(0, 4 * counts.len() as int) == painted(
            before2,
            counts,
            max,
            palette,
        ).subrange(0, 4 * counts.len() as int),
        painted(before1, counts, max, palette).subrange(0, 4 * counts.len() as int) == frame_bytes(
            counts,
            max,
            palette,
        ),
{
    let n = 4 * counts.len() as int;
    let f = frame_bytes(counts, max, palette);
    assert(painted(before1, counts, max, palette).subrange(0, n) =~= f);
    assert(painted(before2, counts, max, palette).subrange(0, n) =~= f);
}

/// What a render context holds.
pub struct EngineView {
    pub buffer: Seq<u8>,
    pub palette: Seq<Rgb>,
    pub palette_built: bool,
}

/// A frame buffer that only grows, and a colour table filled once.
pub struct Engine {
    buffer: Vec<u8>,
    palette: Vec<Rgb>,
    palette_built: bool,
}

impl View for Engine {
    type V = EngineView;

    closed spec fn view(&self) -> EngineView {
        EngineView { buffer: self.buffer@, palette: self.palette@, palette_built: self.palette_built }
    }
}

impl Engine {
    /// A built table has all its entries; an unbuilt one has none.
    pub open spec fn wf(&self) -> bool {
        &&& self@.palette_built ==> self@.palette.len() == PALETTE_SIZE
        &&& !self@.palette_built ==> self@.palette.len() == 0
    }

    /// An empty buffer and a table not yet built.
    pub fn new() -> (r: Self)
        ensures
            r.wf(),
            r@.buffer == Seq::<u8>::empty(),
            !r@.palette_built,
    {
        Engine { buffer: Vec::new(), palette: Vec::new(), palette_built: false }
    }

    pub fn is_palette_built(&self) -> (r: bool)
        ensures
            r == self@.palette_built,
    {
        self.palette_built
    }

    /// Fills the colour table with `colors`; once it is filled, later calls
    /// leave it as it is.
    pub fn install_palette(&mut self, colors: Vec<Rgb>)
        requires
            old(self).wf(),
            colors@.len() == PALETTE_SIZE,
        ensures
            final(self).wf(),
            final(self)@.palette_built,
            final(self)@.buffer == old(self)@.buffer,
            old(self)@.palette_built ==> final(self)@.palette == old(self)@.palette,
            !old(self)@.palette_built ==> final(self)@.palette == colors@,
    {
        if !self.palette_built {
            self.palette = colors;
            self.palette_built = true;
        }
    }

    /// Grows the buffer with zero bytes to at least `min_size` bytes; a
    /// smaller request leaves it as it is.
    pub fn acquire_buffer(&mut self, min_size: usize)
        ensures
            final(self)@.buffer.len() == grown_len(old(self)@.buffer.len(), min_size as nat),
            final(self)@.buffer.subrange(0, old(self)@.buffer.len() as int) == old(self)@.buffer,
            forall|i: int|
                old(self)@.buffer.len() <= i < min_size ==> #[trigger] final(self)@.buffer[i] == 0,
            final(self)@.palette == old(self)@.palette,
            final(self)@.palette_built == old(self)@.palette_built,
    {
        if self.buffer.len() < min_size {
            self.buffer.resize(min_size, 0);
        }
    }

    /// The whole buffer.
    pub fn pixels(&self) -> (r: &Vec<u8>)
        ensures
            r@ == self@.buffer,
    {
        &self.buffer
    }

    /// A copy of the first `size` bytes of the buffer.
    pub fn frame(&self, size: usize) -> (r: Vec<u8>)
        requires
            size <= self@.buffer.len(),
        ensures
            r@ == self@.buffer.subrange(0, size as int),
    {
        let mut out: Vec<u8> = Vec::with_capacity(size);
        let mut i: usize = 0;
        while i < size
            invariant
                i <= size <= self.buffer@.len(),
                out@ == self.buffer@.subrange(0, i as int),
            decreases size - i,
        {
            out.push(self.buffer[i]);
            i = i + 1;
            proof {
                assert(out@ =~= self.buffer@.subrange(0, i as int));
            }
        }
        out
    }
    /// Writes the frame of the escape counts `counts` (row-major, one per
    /// pixel) over the front of the buffer, growing it first where needed.
    /// The rest of the buffer is kept.
    pub fn paint(&mut self, counts: &Vec<u32>, max_iterations: u32)
        requires
            old(self).wf(),
            old(self)@.palette_built,
            4 * counts@.len() <= usize::MAX,
        ensures
            final(self).wf(),
            final(self)@.buffer == painted(old(self)@.buffer, counts@, max_iterations as nat, old(self)@.palette),
            final(self)@.palette == old(self)@.palette,
            final(self)@.palette_built,
    {
        let n = counts.len() * 4;
        self.acquire_buffer(n);
        let ghost grown = self.buffer@;
        let ghost pal = self.palette@;
        let ghost frame = frame_bytes(counts@, max_iterations as nat, pal);
        let mut i: usize = 0;
        while i < counts.len()
            invariant
                i <= counts@.len(),
                n == 4 * counts@.len(),
                self.wf(),
                self.palette_built,
                self.palette@ == pal,
                pal.len() == PALETTE_SIZE,
                self.buffer@.len() == grown.len(),
                grown.len() >= n,
                frame == frame_bytes(counts@, max_iterations as nat, pal),
                forall|j: int| 0 <= j < 4 * i ==> #[trigger] self.buffer@[j] == frame[j],
                forall|j: int| 4 * i <= j < grown.len() ==> #[trigger] self.buffer@[j] == grown[j],
            decreases counts@.len() - i,
        {
            let k = counts[i];
            let c = if k >= max_iterations {
                Rgb { r: 0, g: 0, b: 0 }
            } else {
                self.palette[palette_index(k, max_iterations)]
            };
            let base = 4 * i;
            self.buffer.set(base, c.r);
            self.buffer.set(base + 1, c.g);
            self.buffer.set(base + 2, c.b);
            self.buffer.set(base + 3, 255);
            proof {
                let px = pixel_bytes(k as nat, max_iterations as nat, pal);
                assert forall|j: int| base <= j < base + 4 implies #[trigger] frame[j] == px[j - base] by {
                    assert(j / 4 == i as int);
                    assert(j % 4 == j - base);
                }
            }
            i = i + 1;
        }
        proof {
            assert(self.buffer@ =~= painted(grown, counts@, max_iterations as nat, pal));
        }
    }
}

} // verus!
