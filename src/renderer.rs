use vstd::prelude::*;

use crate::estimator::{acc_bounded, add_sample, Acc, Colour, Estimator, Image};
use crate::worker::{RenderRequest, RenderResult};

verus! {

/// Side of the coarse grid that the preview pass samples, one pixel per cell.
pub const PREVIEW_GRID_SIZE: u32 = 8;

/// The column handed out `n` requests into a sweep: starting at the center and
/// alternating right and left of it.
pub open spec fn column(width: int, n: int) -> int {
    if n % 2 == 0 {
        width / 2 + n / 2
    } else {
        width / 2 - (n + 1) / 2
    }
}

/// One sweep of `width` requests hands out every column of the image.
pub proof fn lemma_columns_cover(width: int, c: int) -> (n: int)
    requires
        0 <= c < width,
    ensures
        0 <= n < width,
        column(width, n) == c,
{
    if c >= width / 2 {
        2 * (c - width / 2)
    } else {
        2 * (width / 2 - c) - 1
    }
}

/// The totals after one traced sample: samples outside the image, or at a pixel
/// whose count is full, leave them as they are.
pub open spec fn accept_sample(st: Seq<Acc>, width: int, height: int, s: (u32, u32, Colour)) -> Seq<
    Acc,
> {
    let ix = s.0 + s.1 * width;
    if s.0 < width && s.1 < height && st[ix].3 < u32::MAX {
        add_sample(st, ix, s.2)
    } else {
        st
    }
}

pub open spec fn accept_all(st: Seq<Acc>, width: int, height: int, ss: Seq<(u32, u32, Colour)>) -> Seq<
    Acc,
>
    decreases ss.len(),
{
    if ss.len() == 0 {
        st
    } else {
        accept_sample(accept_all(st, width, height, ss.drop_last()), width, height, ss.last())
    }
}

/// The totals after draining `results` in order: those of another epoch are
/// dropped.
pub open spec fn accept_results(
    st: Seq<Acc>,
    width: int,
    height: int,
    epoch: u64,
    results: Seq<RenderResult>,
) -> Seq<Acc>
    decreases results.len(),
{
    if results.len() == 0 {
        st
    } else {
        let before = accept_results(st, width, height, epoch, results.drop_last());
        let r = results.last();
        if r.epoch == epoch {
            accept_all(before, width, height, r.samples@)
        } else {
            before
        }
    }
}

/// A result from another epoch changes nothing, wherever it stands among the
/// results drained.
pub proof fn lemma_stale_result_ignored(
    st: Seq<Acc>,
    width: int,
    height: int,
    epoch: u64,
    before: Seq<RenderResult>,
    stale: RenderResult,
    after: Seq<RenderResult>,
)
    requires
        stale.epoch != epoch,
    ensures
        accept_results(st, width, height, epoch, before + seq![stale] + after) == accept_results(
            st,
            width,
            height,
            epoch,
            before + after,
        ),
    decreases after.len(),
{
    if after.len() == 0 {
        assert(before + seq![stale] + after =~= before.push(stale));
        assert(before.push(stale).drop_last() =~= before);
        assert(before + after =~= before);
    } else {
        assert((before + seq![stale] + after).drop_last() =~= before + seq![stale]
            + after.drop_last());
        assert((before + after).drop_last() =~= before + after.drop_last());
        lemma_stale_result_ignored(st, width, height, epoch, before, stale, after.drop_last());
    }
}

/// The controller's part of progressive rendering: the epoch, the estimate, and
/// where the next request goes.
pub struct RenderState {
    width: u32,
    height: u32,
    estimator: Estimator,
    epoch: u64,
    block_num: u32,
    quick_render: bool,
    num_rays_cast: u64,
}

impl RenderState {
    pub closed spec fn spec_width(&self) -> u32 {
        self.width
    }

    pub closed spec fn spec_height(&self) -> u32 {
        self.height
    }

    pub closed spec fn spec_epoch(&self) -> u64 {
        self.epoch
    }

    pub closed spec fn spec_block(&self) -> u32 {
        self.block_num
    }

    pub closed spec fn spec_quick(&self) -> bool {
        self.quick_render
    }

    pub closed spec fn spec_rays(&self) -> u64 {
        self.num_rays_cast
    }

    /// The per-pixel totals of the current estimate.
    pub closed spec fn view(&self) -> Seq<Acc> {
        self.estimator@
    }

    /// Every pixel's totals are bounded as `acc_bounded` says.
    pub open spec fn wf(&self) -> bool {
        &&& self.inner_wf()
        &&& forall|i: int| 0 <= i < self@.len() ==> acc_bounded(#[trigger] self@[i])
    }

    pub closed spec fn inner_wf(&self) -> bool {
        &&& self.estimator.wf()
        &&& self.estimator.spec_width() == self.width
        &&& self.estimator.spec_height() == self.height
        &&& self.estimator.spec_grid() == PREVIEW_GRID_SIZE
        &&& self.width >= 1
        &&& self.height >= 1
        &&& self.width * self.height <= usize::MAX
        &&& self.block_num < self.width
    }

    pub fn new(width: u32, height: u32) -> (r: RenderState)
        requires
            width >= 1,
            height >= 1,
            width * height <= usize::MAX,
        ensures
            r.wf(),
            r.spec_width() == width,
            r.spec_height() == height,
            r.spec_epoch() == 0,
            r.spec_block() == 0,
            r.spec_quick(),
            r.spec_rays() == 0,
            r@ == Seq::new((width * height) as nat, |i: int| (0int, 0int, 0int, 0int)),
    {
        RenderState {
            width,
            height,
            estimator: Estimator::new(width as usize, height as usize, PREVIEW_GRID_SIZE as usize),
            epoch: 0,
            block_num: 0,
            quick_render: true,
            num_rays_cast: 0,
        }
    }

    pub fn epoch(&self) -> (e: u64)
        ensures
            e == self.spec_epoch(),
    {
        self.epoch
    }

    pub fn num_rays_cast(&self) -> (n: u64)
        ensures
            n == self.spec_rays(),
    {
        self.num_rays_cast
    }

    pub fn render(&self) -> (img: Image)
        requires
            self.wf(),
        ensures
            img.width == self.spec_width(),
            img.height == self.spec_height(),
            img.pixels@.len() == self@.len(),
            forall|ix: int|
                0 <= ix < self@.len() ==> #[trigger] img.pixels@[ix] == crate::estimator::shown(
                    self@,
                    self.spec_width() as int,
                    PREVIEW_GRID_SIZE as int,
                    ix,
                ),
    {
        self.estimator.render()
    }

    /// The next full-column request: columns go out from the center, one
    /// sample per pixel during the first sweep after an epoch starts and a
    /// five by five pattern after that.
    pub fn next_request(&mut self) -> (req: RenderRequest)
        requires
            old(self).wf(),
        ensures
            final(self).wf(),
            req.epoch == old(self).spec_epoch(),
            req.top_left == (column(old(self).spec_width() as int, old(self).spec_block() as int) as u32, 0u32),
            req.bottom_right == (column(old(self).spec_width() as int, old(self).spec_block() as int) as u32, (old(self).spec_height() - 1) as u32),
            req.pattern_size == if old(self).spec_quick() { (1u32, 1u32) } else { (5u32, 5u32) },
            0 <= column(old(self).spec_width() as int, old(self).spec_block() as int) < old(self).spec_width(),
            old(self).spec_block() + 1 < old(self).spec_width() ==> final(self).spec_block() == old(self).spec_block() + 1 && final(self).spec_quick() == old(self).spec_quick(),
            old(self).spec_block() + 1 >= old(self).spec_width() ==> final(self).spec_block() == 0 && !final(self).spec_quick(),
            final(self).spec_epoch() == old(self).spec_epoch(),
            final(self).spec_width() == old(self).spec_width(),
            final(self).spec_height() == old(self).spec_height(),
            final(self).spec_rays() == old(self).spec_rays(),
            final(self)@ == old(self)@,
    {
        let w = self.width;
        let n = self.block_num;
        let x: u32 = if n % 2 == 0 {
            w / 2 + n / 2
        } else {
            w / 2 - (n + 1) / 2
        };
        let pattern_size: (u32, u32) = if self.quick_render {
            (1, 1)
        } else {
            (5, 5)
        };
        self.block_num = self.block_num + 1;
        if self.block_num >= self.width {
            self.block_num = 0;
            self.quick_render = false;
        }
        RenderRequest {
            epoch: self.epoch,
            top_left: (x, 0),
            bottom_right: (x, self.height - 1),
            pattern_size,
        }
    }

    /// Starts a new epoch: the estimate is cleared and requests start again from
    /// the center at one sample per pixel.
    pub fn new_epoch(&mut self) -> (e: u64)
        requires
            old(self).wf(),
            old(self).spec_epoch() < u64::MAX,
        ensures
            final(self).wf(),
            e == old(self).spec_epoch() + 1,
            final(self).spec_epoch() == e,
            final(self).spec_width() == old(self).spec_width(),
            final(self).spec_height() == old(self).spec_height(),
            final(self).spec_block() == 0,
            final(self).spec_quick(),
            final(self).spec_rays() == 0,
            final(self)@ == Seq::new(old(self)@.len(), |i: int| (0int, 0int, 0int, 0int)),
    {
        self.block_num = 0;
        self.num_rays_cast = 0;
        self.quick_render = true;
        self.estimator = Estimator::new(self.width as usize, self.height as usize, PREVIEW_GRID_SIZE as usize);
        self.epoch = self.epoch + 1;
        self.epoch
    }

    /// One single-pixel request per preview-grid cell, column by column.
    pub fn preview_requests(&self) -> (reqs: Vec<RenderRequest>)
        requires
            self.wf(),
        ensures
            reqs.len() == preview_cols(self.spec_width() as int) * preview_cols(self.spec_height() as int),
            forall|k: int| 0 <= k < reqs.len() ==> {
                let ny = preview_cols(self.spec_height() as int);
                let px = PREVIEW_GRID_SIZE * (k / ny);
                let py = PREVIEW_GRID_SIZE * (k % ny);
                &&& (#[trigger] reqs@[k]).epoch == self.spec_epoch()
                &&& reqs@[k].top_left == (px as u32, py as u32)
                &&& reqs@[k].bottom_right == (px as u32, py as u32)
                &&& reqs@[k].pattern_size == (1u32, 1u32)
            },
    {
        let ghost ny = preview_cols(self.height as int);
        let mut reqs: Vec<RenderRequest> = Vec::new();
        let mut x: u64 = 0;
        let mut xi: u64 = 0;
        while x < self.width as u64
            invariant
                self.wf(),
                ny == preview_cols(self.height as int),
                x == PREVIEW_GRID_SIZE * xi,
                x < self.width + PREVIEW_GRID_SIZE,
                xi <= preview_cols(self.width as int),
                x < self.width ==> xi < preview_cols(self.width as int),
                x >= self.width ==> xi == preview_cols(self.width as int),
                reqs.len() == xi * ny,
                forall|k: int| 0 <= k < reqs.len() ==> {
                    let px = PREVIEW_GRID_SIZE * (k / ny);
                    let py = PREVIEW_GRID_SIZE * (k % ny);
                    &&& (#[trigger] reqs@[k]).epoch == self.epoch
                    &&& reqs@[k].top_left == (px as u32, py as u32)
                    &&& reqs@[k].bottom_right == (px as u32, py as u32)
                    &&& reqs@[k].pattern_size == (1u32, 1u32)
                },
            decreases self.width + PREVIEW_GRID_SIZE - x,
        {
            let mut y: u64 = 0;
            let mut yi: u64 = 0;
            while y < self.height as u64
                invariant
                    self.wf(),
                    ny == preview_cols(self.height as int),
                    x == PREVIEW_GRID_SIZE * xi,
                    x < self.width,
                    xi < preview_cols(self.width as int),
                    y == PREVIEW_GRID_SIZE * yi,
                    y < self.height + PREVIEW_GRID_SIZE,
                    y < self.height ==> yi < ny,
                    y >= self.height ==> yi == ny,
                    reqs.len() == xi * ny + yi,
                    forall|k: int| 0 <= k < reqs.len() ==> {
                        let px = PREVIEW_GRID_SIZE * (k / ny);
                        let py = PREVIEW_GRID_SIZE * (k % ny);
                        &&& (#[trigger] reqs@[k]).epoch == self.epoch
                        &&& reqs@[k].top_left == (px as u32, py as u32)
                        &&& reqs@[k].bottom_right == (px as u32, py as u32)
                        &&& reqs@[k].pattern_size == (1u32, 1u32)
                    },
                decreases self.height + PREVIEW_GRID_SIZE - y,
            {
                proof {
                    lemma_index_split(xi as int, yi as int, ny);
                }
                reqs.push(RenderRequest {
                    epoch: self.epoch,
                    top_left: (x as u32, y as u32),
                    bottom_right: (x as u32, y as u32),
                    pattern_size: (1, 1),
                });
                y = y + PREVIEW_GRID_SIZE as u64;
                yi = yi + 1;
            }
            assert(xi * ny + ny == (xi + 1) * ny) by (nonlinear_arith);
            x = x + PREVIEW_GRID_SIZE as u64;
            xi = xi + 1;
        }
        reqs
    }

    /// Adds a result's samples to the estimate if it belongs to the current
    /// epoch; a result of any other epoch leaves the state untouched.
    pub fn apply_result(&mut self, result: &RenderResult)
        requires
            old(self).wf(),
        ensures
            final(self).wf(),
            result.epoch != old(self).spec_epoch() ==> *final(self) == *old(self),
            final(self)@ == if result.epoch == old(self).spec_epoch() {
                accept_all(old(self)@, old(self).spec_width() as int, old(self).spec_height() as int, result.samples@)
            } else {
                old(self)@
            },
            final(self).spec_epoch() == old(self).spec_epoch(),
            final(self).spec_width() == old(self).spec_width(),
            final(self).spec_height() == old(self).spec_height(),
            final(self).spec_block() == old(self).spec_block(),
            final(self).spec_quick() == old(self).spec_quick(),
            final(self).spec_rays() == if result.epoch == old(self).spec_epoch() {
                saturating_count(old(self).spec_rays() as int + result.samples.len())
            } else {
                old(self).spec_rays() as int
            },
    {
        if result.epoch != self.epoch {
            return;
        }
        let len = result.samples.len();
        self.num_rays_cast = if u64::MAX - self.num_rays_cast >= len as u64 {
            self.num_rays_cast + len as u64
        } else {
            u64::MAX
        };
        let mut i: usize = 0;
        while i < len
            invariant
                self.wf(),
                len == result.samples.len(),
                i <= len,
                self.epoch == old(self).epoch,
                self.width == old(self).width,
                self.height == old(self).height,
                self.block_num == old(self).block_num,
                self.quick_render == old(self).quick_render,
                self.num_rays_cast == saturating_count(old(self).num_rays_cast as int + len),
                self@ == accept_all(old(self)@, self.width as int, self.height as int, result.samples@.subrange(0, i as int)),
            decreases len - i,
        {
            let (x, y, colour) = result.samples[i];
            proof {
                assert(result.samples@.subrange(0, i + 1).drop_last() =~= result.samples@.subrange(0, i as int));
            }
            if x < self.width && y < self.height {
                let n = self.estimator.samples_at(x as usize, y as usize);
                if n < u32::MAX {
                    self.estimator.update_pixel(x as usize, y as usize, colour);
                }
            }
            i = i + 1;
        }
        assert(result.samples@.subrange(0, len as int) =~= result.samples@);
    }

    /// Drains a batch of results in order.
    pub fn drain_result_queue(&mut self, results: &Vec<RenderResult>)
        requires
            old(self).wf(),
        ensures
            final(self).wf(),
            final(self)@ == accept_results(old(self)@, old(self).spec_width() as int, old(self).spec_height() as int, old(self).spec_epoch(), results@),
            final(self).spec_rays() == count_live(old(self).spec_rays() as int, old(self).spec_epoch(), results@),
            final(self).spec_epoch() == old(self).spec_epoch(),
            final(self).spec_width() == old(self).spec_width(),
            final(self).spec_height() == old(self).spec_height(),
            final(self).spec_block() == old(self).spec_block(),
            final(self).spec_quick() == old(self).spec_quick(),
    {
        let mut i: usize = 0;
        while i < results.len()
            invariant
                self.wf(),
                i <= results.len(),
                self.epoch == old(self).epoch,
                self.width == old(self).width,
                self.height == old(self).height,
                self.block_num == old(self).block_num,
                self.quick_render == old(self).quick_render,
                self@ == accept_results(old(self)@, self.width as int, self.height as int, self.epoch, results@.subrange(0, i as int)),
                self.num_rays_cast == count_live(old(self).num_rays_cast as int, self.epoch, results@.subrange(0, i as int)),
            decreases results.len() - i,
        {
            proof {
                assert(results@.subrange(0, i + 1).drop_last() =~= results@.subrange(0, i as int));
            }
            self.apply_result(&results[i]);
            i = i + 1;
        }
        assert(results@.subrange(0, results.len() as int) =~= results@);
    }
}

/// The ray count after draining `results`: the samples of results of this
/// epoch are counted.
pub open spec fn count_live(rays: int, epoch: u64, results: Seq<RenderResult>) -> int
    decreases results.len(),
{
    if results.len() == 0 {
        rays
    } else {
        let before = count_live(rays, epoch, results.drop_last());
        if results.last().epoch == epoch {
            saturating_count(before + results.last().samples.len())
        } else {
            before
        }
    }
}

/// A count that stops at the largest `u64`.
pub open spec fn saturating_count(n: int) -> int {
    if n > u64::MAX {
        u64::MAX as int
    } else {
        n
    }
}

/// Preview-grid cells along a side of `n` pixels.
pub open spec fn preview_cols(n: int) -> int {
    (n + PREVIEW_GRID_SIZE - 1) / PREVIEW_GRID_SIZE as int
}

proof fn lemma_index_split(xi: int, yi: int, ny: int)
    requires
        0 <= xi,
        0 <= yi < ny,
    ensures
        (xi * ny + yi) / ny == xi,
        (xi * ny + yi) % ny == yi,
{
    vstd::arithmetic::div_mod::lemma_fundamental_div_mod_converse(xi * ny + yi, ny, xi, yi);
}

} // verus!
