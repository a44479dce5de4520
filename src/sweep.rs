//! The order in which a frame's pixels are computed: row by row, in groups
//! of four while a whole group fits in the row, then one pixel at a time.
use vstd::prelude::*;
use crate::kernel::LANES;

verus! {

/// The first column of the remainder of a row: rows are covered by groups of
/// four up to here.
pub open spec fn aligned_width(width: nat) -> nat {
    (width - width % 4) as nat
}

/// Number of pixels of the run that starts at column `x`.
pub open spec fn run_len(width: nat, x: nat) -> nat {
    if x + 4 <= width {
        4
    } else {
        1
    }
}

/// A run of pixels of one row, computed together.
#[derive(Clone, Copy, Debug, PartialEq, Eq, Structural)]
pub struct Run {
    pub x: u32,
    pub y: u32,
    /// Four for a group of lanes, one for a single pixel.
    pub len: u32,
}

/// Position of the sweep over a `width` by `height` frame.
pub struct Sweep {
    width: u32,
    height: u32,
    x: u32,
    y: u32,
}

impl Sweep {
    pub closed spec fn spec_width(&self) -> nat {
        self.width as nat
    }

    pub closed spec fn spec_height(&self) -> nat {
        self.height as nat
    }

    /// Column of the next run.
    pub closed spec fn spec_x(&self) -> nat {
        self.x as nat
    }

    /// Row of the next run; equal to the height once the sweep is done.
    pub closed spec fn spec_y(&self) -> nat {
        self.y as nat
    }

    pub open spec fn wf(&self) -> bool {
        &&& self.spec_y() <= self.spec_height()
        &&& self.spec_y() < self.spec_height() ==> self.spec_x() < self.spec_width()
        &&& self.spec_y() == self.spec_height() ==> self.spec_x() == 0
        &&& self.spec_x() < aligned_width(self.spec_width()) ==> self.spec_x() % 4 == 0
    }

    /// Index of the next pixel in row-major order.
    pub open spec fn position(&self) -> nat {
        self.spec_y() * self.spec_width() + self.spec_x()
    }

    /// A sweep at the first pixel; a frame without pixels is done at once.
    pub fn new(width: u32, height: u32) -> (r: Self)
        ensures
            r.wf(),
            r.spec_width() == width,
            r.spec_height() == height,
            r.spec_x() == 0,
            r.spec_y() == if width == 0 { height as nat } else { 0 },
    {
        Sweep { width, height, x: 0, y: if width == 0 { height } else { 0 } }
    }

    /// The next run, or `None` once every pixel was handed out.
    pub fn next_run(&mut self) -> (r: Option<Run>)
        requires
            old(self).wf(),
        ensures
            final(self).wf(),
            final(self).spec_width() == old(self).spec_width(),
            final(self).spec_height() == old(self).spec_height(),
            old(self).spec_y() == old(self).spec_height() ==> r is None && *final(self) == *old(self),
            old(self).spec_y() < old(self).spec_height() ==> (r matches Some(run) && {
                &&& run.x == old(self).spec_x()
                &&& run.y == old(self).spec_y()
                &&& run.len == run_len(old(self).spec_width(), old(self).spec_x())
                &&& (run.len == LANES) == (run.x < aligned_width(old(self).spec_width()))
                &&& run.x + run.len <= old(self).spec_width()
                &&& final(self).position() == old(self).position() + run.len
            }),
    {
        if self.y >= self.height {
            return None;
        }
        let x = self.x;
        let y = self.y;
        let len: u32 = if self.width >= 4 && x <= self.width - 4 { 4 } else { 1 };
        proof {
            assert((x < aligned_width(self.width as nat)) == (x + 4 <= self.width)) by {
                assert(x < aligned_width(self.width as nat) ==> x % 4 == 0);
            }
        }
        if x + len < self.width {
            self.x = x + len;
        } else {
            self.x = 0;
            self.y = y + 1;
            proof {
                assert((y + 1) * self.width == y * self.width + self.width) by (nonlinear_arith);
            }
        }
        Some(Run { x, y, len })
    }
}

/// In the part of a row that groups cover, a frame of width `width` is swept
/// in the same runs as one of width `aligned_width(width)`; the columns past it
/// are swept one pixel at a time.
pub proof fn lemma_remainder_is_single(width: nat, x: nat)
    ensures
        x < aligned_width(width) && x % 4 == 0 ==> run_len(width, x) == 4 && run_len(
            aligned_width(width),
            x,
        ) == 4,
        aligned_width(width) <= x < width ==> run_len(width, x) == 1,
        aligned_width(aligned_width(width)) == aligned_width(width),
{
}

} // verus!
