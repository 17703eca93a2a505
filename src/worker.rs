use vstd::prelude::*;

use crate::estimator::Colour;

verus! {

/// A rectangle of pixels to trace, with the size of the stratified sample
/// pattern to use, stamped with the epoch it belongs to.
#[derive(Clone, Copy, Debug)]
pub struct RenderRequest {
    pub epoch: u64,
    pub top_left: (u32, u32),
    pub bottom_right: (u32, u32),
    pub pattern_size: (u32, u32),
}

/// The samples traced for one entry of a request's pattern.
pub struct RenderResult {
    pub epoch: u64,
    pub samples: Vec<(u32, u32, Colour)>,
}

impl RenderRequest {
    /// Pixels per row of the rectangle.
    pub open spec fn width(self) -> int {
        self.bottom_right.0 - self.top_left.0 + 1
    }

    /// Rows of the rectangle.
    pub open spec fn height(self) -> int {
        self.bottom_right.1 - self.top_left.1 + 1
    }

    pub open spec fn fits(self) -> bool {
        &&& self.top_left.0 <= self.bottom_right.0
        &&& self.top_left.1 <= self.bottom_right.1
        &&& self.bottom_right.0 - self.top_left.0 < u32::MAX
        &&& self.bottom_right.1 - self.top_left.1 < u32::MAX
        &&& (self.bottom_right.0 - self.top_left.0 + 1) * (self.bottom_right.1 - self.top_left.1
            + 1) <= u32::MAX
    }

    /// The pixels of the rectangle, row by row.
    pub fn iter_pixels(self) -> (it: PixelGridIter)
        requires
            self.fits(),
        ensures
            it.wf(),
            it.spec_x() == self.top_left.0,
            it.spec_y() == self.top_left.1,
            it.spec_w() == self.bottom_right.0 - self.top_left.0 + 1,
            it.spec_h() == self.bottom_right.1 - self.top_left.1 + 1,
            it.spec_pos() == 0,
    {
        PixelGridIter::new(
            self.top_left.0,
            self.top_left.1,
            self.bottom_right.0 - self.top_left.0 + 1,
            self.bottom_right.1 - self.top_left.1 + 1,
        )
    }
}

/// Walks a `w` by `h` rectangle of pixels at `(x, y)` row by row.
#[derive(Clone, Copy, Debug)]
pub struct PixelGridIter {
    x: u32,
    y: u32,
    w: u32,
    h: u32,
    pos: u32,
}

impl PixelGridIter {
    pub closed spec fn spec_x(self) -> int {
        self.x as int
    }

    pub closed spec fn spec_y(self) -> int {
        self.y as int
    }

    pub closed spec fn spec_w(self) -> int {
        self.w as int
    }

    pub closed spec fn spec_h(self) -> int {
        self.h as int
    }

    pub closed spec fn spec_pos(self) -> int {
        self.pos as int
    }

    pub open spec fn wf(self) -> bool {
        &&& self.spec_w() * self.spec_h() <= u32::MAX
        &&& self.spec_x() + self.spec_w() - 1 <= u32::MAX
        &&& self.spec_y() + self.spec_h() - 1 <= u32::MAX
        &&& 0 <= self.spec_pos() <= self.spec_w() * self.spec_h()
    }

    pub fn new(x: u32, y: u32, w: u32, h: u32) -> (it: PixelGridIter)
        requires
            w * h <= u32::MAX,
            x + w - 1 <= u32::MAX,
            y + h - 1 <= u32::MAX,
        ensures
            it.wf(),
            it.spec_x() == x,
            it.spec_y() == y,
            it.spec_w() == w,
            it.spec_h() == h,
            it.spec_pos() == 0,
    {
        PixelGridIter { x, y, w, h, pos: 0 }
    }

    /// The next pixel, or `None` once all `w * h` have been handed out.
    pub fn next(&mut self) -> (r: Option<(u32, u32)>)
        requires
            old(self).wf(),
        ensures
            final(self).wf(),
            final(self).spec_x() == old(self).spec_x(),
            final(self).spec_y() == old(self).spec_y(),
            final(self).spec_w() == old(self).spec_w(),
            final(self).spec_h() == old(self).spec_h(),
            old(self).spec_pos() >= old(self).spec_w() * old(self).spec_h() ==> r.is_none()
                && final(self).spec_pos() == old(self).spec_pos(),
            old(self).spec_pos() < old(self).spec_w() * old(self).spec_h() ==> {
                &&& r == Some(
                    (
                        (old(self).spec_x() + old(self).spec_pos() % old(self).spec_w()) as u32,
                        (old(self).spec_y() + old(self).spec_pos() / old(self).spec_w()) as u32,
                    ),
                )
                &&& r.unwrap().0 == old(self).spec_x() + old(self).spec_pos() % old(self).spec_w()
                &&& r.unwrap().1 == old(self).spec_y() + old(self).spec_pos() / old(self).spec_w()
                &&& final(self).spec_pos() == old(self).spec_pos() + 1
            },
    {
        if self.pos >= self.w * self.h {
            None
        } else {
            let x_offset = self.pos % self.w;
            let y_offset = self.pos / self.w;
            proof {
                lemma_offsets(self.pos as int, self.w as int, self.h as int);
            }
            let r = (self.x + x_offset, self.y + y_offset);
            self.pos = self.pos + 1;
            Some(r)
        }
    }
}

proof fn lemma_offsets(pos: int, w: int, h: int)
    requires
        0 <= pos < w * h,
        w >= 0,
        h >= 0,
    ensures
        w > 0,
        0 <= pos % w < w,
        0 <= pos / w < h,
{
    if w == 0 {
        assert(w * h == 0);
    }
    vstd::arithmetic::div_mod::lemma_mod_bound(pos, w);
    vstd::arithmetic::div_mod::lemma_div_pos_is_pos(pos, w);
    if pos / w >= h {
        vstd::arithmetic::div_mod::lemma_fundamental_div_mod(pos, w);
        assert(w * (pos / w) >= w * h) by (nonlinear_arith)
            requires
                pos / w >= h,
                w > 0,
        ;
    }
}

/// A command broadcast to every worker.
#[derive(Clone, Copy, Debug, PartialEq, Eq, Structural)]
pub enum Command {
    Shutdown,
    SetEpoch(u64),
}

/// What a worker decides by: the epoch it traces for and whether it keeps
/// running.
#[derive(Clone, Copy, Debug, PartialEq, Eq, Structural)]
pub struct WorkerState {
    pub epoch: u64,
    pub is_running: bool,
}

impl WorkerState {
    pub fn new() -> (w: WorkerState)
        ensures
            w.epoch == 0,
            w.is_running,
    {
        WorkerState { epoch: 0, is_running: true }
    }

    /// A request is traced only if it belongs to the worker's epoch.
    pub fn accepts(&self, req: &RenderRequest) -> (r: bool)
        ensures
            r == (req.epoch == self.epoch),
    {
        req.epoch == self.epoch
    }

    /// One pass over a request's rectangle: each pixel traced once, row by row,
    /// stamped with the worker's epoch.
    pub fn trace_pass<F: Fn(u32, u32) -> Colour>(&self, req: &RenderRequest, trace: &F) -> (r:
        RenderResult)
        requires
            req.fits(),
            forall|x: u32, y: u32| trace.requires((x, y)),
        ensures
            r.epoch == self.epoch,
            r.samples.len() == req.width() * req.height(),
            forall|k: int|
                0 <= k < r.samples.len() ==> {
                    let (x, y, c) = #[trigger] r.samples@[k];
                    &&& x == req.top_left.0 + k % req.width()
                    &&& y == req.top_left.1 + k / req.width()
                    &&& trace.ensures((x, y), c)
                },
    {
        let mut it = req.iter_pixels();
        let mut samples: Vec<(u32, u32, Colour)> = Vec::new();
        loop
            invariant
                it.wf(),
                it.spec_x() == req.top_left.0,
                it.spec_y() == req.top_left.1,
                it.spec_w() == req.width(),
                it.spec_h() == req.height(),
                it.spec_pos() == samples.len(),
                forall|x: u32, y: u32| trace.requires((x, y)),
                forall|k: int|
                    0 <= k < samples.len() ==> {
                        let (x, y, c) = #[trigger] samples@[k];
                        &&& x == req.top_left.0 + k % req.width()
                        &&& y == req.top_left.1 + k / req.width()
                        &&& trace.ensures((x, y), c)
                    },
            ensures
                samples.len() == req.width() * req.height(),
                forall|k: int|
                    0 <= k < samples.len() ==> {
                        let (x, y, c) = #[trigger] samples@[k];
                        &&& x == req.top_left.0 + k % req.width()
                        &&& y == req.top_left.1 + k / req.width()
                        &&& trace.ensures((x, y), c)
                    },
            decreases it.spec_w() * it.spec_h() - it.spec_pos(),
        {
            match it.next() {
                Some((x, y)) => {
                    let c = trace(x, y);
                    samples.push((x, y, c));
                },
                None => break,
            }
        }
        RenderResult { epoch: self.epoch, samples }
    }

    pub fn handle_command(&mut self, cmd: &Command)
        ensures
            *cmd == Command::Shutdown ==> final(self).epoch == old(self).epoch
                && !final(self).is_running,
            forall|e: u64| *cmd == Command::SetEpoch(e) ==> final(self).epoch == e
                && final(self).is_running == old(self).is_running,
    {
        match cmd {
            Command::Shutdown => self.is_running = false,
            Command::SetEpoch(epoch) => self.epoch = *epoch,
        }
    }
}

} // verus!
