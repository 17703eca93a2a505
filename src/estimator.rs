use vstd::prelude::*;

verus! {

broadcast use vstd::multiset::group_multiset_axioms, vstd::seq_lib::group_to_multiset_ensures;

/// A colour in fixed point: each channel counts steps of `1 / 65536`.
#[derive(Clone, Copy, Debug, PartialEq, Eq, Structural)]
pub struct Colour {
    pub r: u32,
    pub g: u32,
    pub b: u32,
}

impl Colour {
    pub fn new(r: u32, g: u32, b: u32) -> (c: Colour)
        ensures
            c == (Colour { r, g, b }),
    {
        Colour { r, g, b }
    }

    pub fn black() -> (c: Colour)
        ensures
            c == (Colour { r: 0, g: 0, b: 0 }),
    {
        Colour { r: 0, g: 0, b: 0 }
    }
}

/// Running totals of one pixel: the channel sums and the number of samples.
pub type Acc = (int, int, int, int);

/// The totals after one more sample of colour `c` at index `ix`.
pub open spec fn add_sample(st: Seq<Acc>, ix: int, c: Colour) -> Seq<Acc> {
    if 0 <= ix < st.len() {
        st.update(ix, (st[ix].0 + c.r, st[ix].1 + c.g, st[ix].2 + c.b, st[ix].3 + 1))
    } else {
        st
    }
}

/// Each channel sum is at most the count times the largest channel value, so
/// each channel of the mean fits a `u32`.
pub open spec fn acc_bounded(a: Acc) -> bool {
    &&& 0 <= a.3 <= u32::MAX
    &&& 0 <= a.0 <= a.3 * 0xffff_ffff
    &&& 0 <= a.1 <= a.3 * 0xffff_ffff
    &&& 0 <= a.2 <= a.3 * 0xffff_ffff
}

/// The mean colour of a pixel's totals, black where there are no samples.
pub open spec fn mean_of(a: Acc) -> Colour {
    if a.3 <= 0 {
        Colour { r: 0, g: 0, b: 0 }
    } else {
        Colour { r: (a.0 / a.3) as u32, g: (a.1 / a.3) as u32, b: (a.2 / a.3) as u32 }
    }
}

/// Per-index running means of colours.
pub struct MeanVec {
    sums: Vec<(u64, u64, u64)>,
    counts: Vec<u32>,
}

impl MeanVec {
    pub closed spec fn view(&self) -> Seq<Acc> {
        Seq::new(
            self.counts.len() as nat,
            |i: int|
                (
                    self.sums@[i].0 as int,
                    self.sums@[i].1 as int,
                    self.sums@[i].2 as int,
                    self.counts@[i] as int,
                ),
        )
    }

    /// Every pixel's totals are bounded as `acc_bounded` says.
    pub open spec fn wf(&self) -> bool {
        &&& self.inner_wf()
        &&& forall|i: int| 0 <= i < self@.len() ==> acc_bounded(#[trigger] self@[i])
    }

    /// Each channel sum is at most the count times the largest channel value.
    pub closed spec fn inner_wf(&self) -> bool {
        &&& self.sums.len() == self.counts.len()
        &&& forall|i: int|
            0 <= i < self.sums.len() ==> {
                let n = self.counts@[i] as int;
                &&& (#[trigger] self.sums@[i]).0 <= n * 0xffff_ffff
                &&& self.sums@[i].1 <= n * 0xffff_ffff
                &&& self.sums@[i].2 <= n * 0xffff_ffff
            }
    }

    pub fn new(size: usize) -> (r: MeanVec)
        ensures
            r.wf(),
            r@ == Seq::new(size as nat, |i: int| (0int, 0int, 0int, 0int)),
    {
        let mut sums: Vec<(u64, u64, u64)> = Vec::with_capacity(size);
        let mut counts: Vec<u32> = Vec::with_capacity(size);
        let mut i: usize = 0;
        while i < size
            invariant
                i <= size,
                sums.len() == i,
                counts.len() == i,
                forall|k: int| 0 <= k < i ==> #[trigger] sums@[k] == (0u64, 0u64, 0u64),
                forall|k: int| 0 <= k < i ==> #[trigger] counts@[k] == 0,
            decreases size - i,
        {
            sums.push((0, 0, 0));
            counts.push(0);
            i = i + 1;
        }
        let r = MeanVec { sums, counts };
        assert(r@ =~= Seq::new(size as nat, |i: int| (0int, 0int, 0int, 0int)));
        r
    }

    pub fn len(&self) -> (n: usize)
        requires
            self.wf(),
        ensures
            n == self@.len(),
    {
        self.counts.len()
    }

    pub fn update(&mut self, ix: usize, value: Colour)
        requires
            old(self).wf(),
            ix < old(self)@.len(),
            old(self)@[ix as int].3 < 0xffff_ffff,
        ensures
            final(self).wf(),
            final(self)@ == add_sample(old(self)@, ix as int, value),
    {
        let (r, g, b) = self.sums[ix];
        let n = self.counts[ix];
        proof {
            assert(self.sums@[ix as int].0 <= n * 0xffff_ffff);
            assert((n + 1) * 0xffff_ffff == n * 0xffff_ffff + 0xffff_ffff) by (nonlinear_arith);
            assert(n * 0xffff_ffff <= 0xffff_fffe * 0xffff_ffff) by (nonlinear_arith)
                requires
                    n <= 0xffff_fffe,
            ;
        }
        self.sums.set(ix, (r + value.r as u64, g + value.g as u64, b + value.b as u64));
        self.counts.set(ix, n + 1);
        proof {
            assert forall|i: int| 0 <= i < self.sums.len() implies {
                let n = self.counts@[i] as int;
                &&& (#[trigger] self.sums@[i]).0 <= n * 0xffff_ffff
                &&& self.sums@[i].1 <= n * 0xffff_ffff
                &&& self.sums@[i].2 <= n * 0xffff_ffff
            } by {
                if i != ix {
                    assert(old(self).sums@[i] == self.sums@[i]);
                }
            }
            assert(self@ =~= add_sample(old(self)@, ix as int, value));
        }
    }

    pub fn get(&self, ix: usize) -> (c: Colour)
        requires
            self.wf(),
            ix < self@.len(),
        ensures
            c == mean_of(self@[ix as int]),
    {
        let n = self.counts[ix];
        if n == 0 {
            Colour::black()
        } else {
            let (r, g, b) = self.sums[ix];
            proof {
                assert(self.sums@[ix as int].0 <= n * 0xffff_ffff);
                lemma_div_bound(r as int, n as int);
                lemma_div_bound(g as int, n as int);
                lemma_div_bound(b as int, n as int);
            }
            Colour { r: (r / n as u64) as u32, g: (g / n as u64) as u32, b: (b / n as u64) as u32 }
        }
    }

    pub fn count(&self, ix: usize) -> (n: u32)
        requires
            self.wf(),
            ix < self@.len(),
        ensures
            n == self@[ix as int].3,
    {
        self.counts[ix]
    }
}

proof fn lemma_div_bound(s: int, n: int)
    requires
        0 <= s <= n * 0xffff_ffff,
        n > 0,
    ensures
        s / n <= 0xffff_ffff,
{
    assert(s / n <= 0xffff_ffff) by (nonlinear_arith)
        requires
            0 <= s <= n * 0xffff_ffff,
            n > 0,
    ;
}

/// The totals after a sequence of `(x, y, colour)` samples on an image `width`
/// pixels wide, applied in order.
pub open spec fn apply_all(st: Seq<Acc>, width: int, us: Seq<(u32, u32, Colour)>) -> Seq<Acc>
    decreases us.len(),
{
    if us.len() == 0 {
        st
    } else {
        let u = us.last();
        add_sample(apply_all(st, width, us.drop_last()), u.0 + u.1 * width, u.2)
    }
}

proof fn lemma_add_commutes(st: Seq<Acc>, i: int, a: Colour, j: int, b: Colour)
    ensures
        add_sample(add_sample(st, i, a), j, b) == add_sample(add_sample(st, j, b), i, a),
{
    assert(add_sample(add_sample(st, i, a), j, b) =~= add_sample(add_sample(st, j, b), i, a));
}

/// Applying a sample and then a sequence equals applying the sequence and then
/// the sample.
proof fn lemma_add_first(st: Seq<Acc>, width: int, u: (u32, u32, Colour), us: Seq<(u32, u32, Colour)>)
    ensures
        apply_all(st, width, seq![u] + us) == add_sample(apply_all(st, width, us), u.0 + u.1 * width, u.2),
    decreases us.len(),
{
    if us.len() == 0 {
        assert(apply_all(st, width, us) == st);
        assert(seq![u] + us =~= seq![u]);
        assert(seq![u].drop_last() =~= Seq::<(u32, u32, Colour)>::empty());
        assert(seq![u].last() == u);
        assert(apply_all(st, width, seq![u]) == add_sample(apply_all(st, width, seq![u].drop_last()), u.0 + u.1 * width, u.2));
    } else {
        let v = us.last();
        assert((seq![u] + us).drop_last() =~= seq![u] + us.drop_last());
        assert((seq![u] + us).last() == v);
        lemma_add_first(st, width, u, us.drop_last());
        lemma_add_commutes(apply_all(st, width, us.drop_last()), u.0 + u.1 * width, u.2, v.0 + v.1 * width, v.2);
    }
}

proof fn lemma_apply_concat(st: Seq<Acc>, width: int, a: Seq<(u32, u32, Colour)>, b: Seq<(u32, u32, Colour)>)
    ensures
        apply_all(st, width, a + b) == apply_all(apply_all(st, width, a), width, b),
    decreases b.len(),
{
    if b.len() == 0 {
        assert(a + b =~= a);
    } else {
        assert((a + b).drop_last() =~= a + b.drop_last());
        lemma_apply_concat(st, width, a, b.drop_last());
    }
}

/// Samples are order-independent: any rearrangement of the same samples leaves
/// every pixel with the same totals, and so the same mean.
pub proof fn lemma_samples_commute(
    st: Seq<Acc>,
    width: int,
    us1: Seq<(u32, u32, Colour)>,
    us2: Seq<(u32, u32, Colour)>,
)
    requires
        us1.to_multiset() == us2.to_multiset(),
    ensures
        apply_all(st, width, us1) == apply_all(st, width, us2),
    decreases us1.len(),
{
    assert(us1.to_multiset().len() == us1.len());
    assert(us2.to_multiset().len() == us2.len());
    if us1.len() == 0 {
        assert(us2 =~= us1);
    } else {
        let x = us1.last();
        assert(us1.to_multiset().count(x) > 0) by {
            assert(us1.contains(x)) by {
                assert(us1[us1.len() - 1] == x);
            }
        }
        assert(us2.contains(x));
        let j = choose|j: int| 0 <= j < us2.len() && us2[j] == x;
        let rest1 = us1.drop_last();
        let rest2 = us2.remove(j);
        assert(us1.remove(us1.len() - 1) =~= rest1);
        assert(rest1.to_multiset() =~= rest2.to_multiset());
        lemma_samples_commute(st, width, rest1, rest2);
        // Move the sample at `j` to the end of `us2`.
        let pre = us2.subrange(0, j);
        let post = us2.subrange(j + 1, us2.len() as int);
        assert(us2 =~= pre + (seq![x] + post));
        assert(rest2 =~= pre + post);
        lemma_apply_concat(st, width, pre, seq![x] + post);
        lemma_add_first(apply_all(st, width, pre), width, x, post);
        lemma_apply_concat(st, width, pre, post);
    }
}

/// The fixed-point image that the estimator shows.
pub struct Image {
    pub width: u32,
    pub height: u32,
    pub pixels: Vec<Colour>,
}

/// The colour shown at index `ix`: the pixel's own mean once it has a sample,
/// else the mean of the preview-grid pixel at or above and left of it.
pub open spec fn shown(st: Seq<Acc>, width: int, grid: int, ix: int) -> Colour {
    if st[ix].3 > 0 {
        mean_of(st[ix])
    } else {
        let x = ix % width;
        let y = ix / width;
        mean_of(st[(x - x % grid) + (y - y % grid) * width])
    }
}

/// The per-pixel running-mean estimate of an image, with a blocky preview for
/// pixels that have no sample yet.
pub struct Estimator {
    width: usize,
    height: usize,
    preview_grid_size: usize,
    means: MeanVec,
}

impl Estimator {
    pub closed spec fn view(&self) -> Seq<Acc> {
        self.means@
    }

    pub closed spec fn spec_width(&self) -> usize {
        self.width
    }

    pub closed spec fn spec_height(&self) -> usize {
        self.height
    }

    pub closed spec fn spec_grid(&self) -> usize {
        self.preview_grid_size
    }

    pub open spec fn wf(&self) -> bool {
        &&& self.inner_wf()
        &&& self@.len() == self.spec_width() * self.spec_height()
        &&& self.spec_grid() >= 1
        &&& self.spec_width() <= u32::MAX
        &&& self.spec_height() <= u32::MAX
        &&& forall|i: int| 0 <= i < self@.len() ==> acc_bounded(#[trigger] self@[i])
    }

    pub closed spec fn inner_wf(&self) -> bool {
        self.means.wf()
    }

    pub fn new(width: usize, height: usize, preview_grid_size: usize) -> (r: Estimator)
        requires
            width * height <= usize::MAX,
            width <= u32::MAX,
            height <= u32::MAX,
            preview_grid_size >= 1,
        ensures
            r.wf(),
            r.spec_width() == width,
            r.spec_height() == height,
            r.spec_grid() == preview_grid_size,
            r@ == Seq::new((width * height) as nat, |i: int| (0int, 0int, 0int, 0int)),
    {
        Estimator { width, height, preview_grid_size, means: MeanVec::new(width * height) }
    }

    /// Samples at pixel `(x, y)` so far.
    pub fn samples_at(&self, x: usize, y: usize) -> (n: u32)
        requires
            self.wf(),
            x < self.spec_width(),
            y < self.spec_height(),
        ensures
            n == self@[x + y * self.spec_width()].3,
    {
        proof {
            lemma_pixel_index(x as int, y as int, self.width as int, self.height as int);
        }
        self.means.count(x + y * self.width)
    }

    pub fn update_pixel(&mut self, x: usize, y: usize, colour: Colour)
        requires
            old(self).wf(),
            x < old(self).spec_width(),
            y < old(self).spec_height(),
            old(self)@[x + y * old(self).spec_width()].3 < u32::MAX,
        ensures
            final(self).wf(),
            final(self).spec_width() == old(self).spec_width(),
            final(self).spec_height() == old(self).spec_height(),
            final(self).spec_grid() == old(self).spec_grid(),
            final(self)@ == add_sample(old(self)@, x + y * old(self).spec_width(), colour),
    {
        proof {
            lemma_pixel_index(x as int, y as int, self.width as int, self.height as int);
        }
        self.means.update(x + y * self.width, colour);
    }

    /// Applies a sequence of samples in order; by `lemma_samples_commute` any
    /// rearrangement of them leaves the same estimate.
    pub fn update_all(&mut self, samples: &Vec<(u32, u32, Colour)>)
        requires
            old(self).wf(),
            forall|k: int|
                0 <= k < samples.len() ==> (#[trigger] samples@[k]).0 < old(self).spec_width()
                    && samples@[k].1 < old(self).spec_height(),
            forall|i: int| 0 <= i < old(self)@.len() ==> (#[trigger] old(self)@[i]).3 + samples.len() < u32::MAX,
        ensures
            final(self).wf(),
            final(self).spec_width() == old(self).spec_width(),
            final(self).spec_height() == old(self).spec_height(),
            final(self).spec_grid() == old(self).spec_grid(),
            final(self)@ == apply_all(old(self)@, old(self).spec_width() as int, samples@),
    {
        let ghost start = self@;
        let mut i: usize = 0;
        while i < samples.len()
            invariant
                self.wf(),
                self.spec_width() == old(self).spec_width(),
                self.spec_height() == old(self).spec_height(),
                self.spec_grid() == old(self).spec_grid(),
                start == old(self)@,
                i <= samples.len(),
                forall|k: int|
                    0 <= k < samples.len() ==> (#[trigger] samples@[k]).0 < self.spec_width()
                        && samples@[k].1 < self.spec_height(),
                forall|j: int| 0 <= j < start.len() ==> (#[trigger] start[j]).3 + samples.len() < u32::MAX,
                self@.len() == start.len(),
                forall|j: int| 0 <= j < self@.len() ==> (#[trigger] self@[j]).3 <= start[j].3 + i,
                self@ == apply_all(start, self.spec_width() as int, samples@.subrange(0, i as int)),
            decreases samples.len() - i,
        {
            let (x, y, colour) = samples[i];
            proof {
                lemma_pixel_index(x as int, y as int, self.spec_width() as int, self.spec_height() as int);
                let t = samples@.subrange(0, i + 1);
                assert(t.drop_last() =~= samples@.subrange(0, i as int));
                assert(t.last() == samples@[i as int]);
            }
            let ghost before = self@;
            self.update_pixel(x as usize, y as usize, colour);
            proof {
                assert forall|j: int| 0 <= j < self@.len() implies (#[trigger] self@[j]).3 <= start[j].3 + i + 1 by {
                    assert(before[j].3 <= start[j].3 + i);
                }
            }
            i = i + 1;
        }
        assert(samples@.subrange(0, samples.len() as int) =~= samples@);
    }

    pub fn render(&self) -> (img: Image)
        requires
            self.wf(),
        ensures
            img.width == self.spec_width(),
            img.height == self.spec_height(),
            img.pixels@.len() == self@.len(),
            forall|ix: int|
                0 <= ix < self@.len() ==> #[trigger] img.pixels@[ix] == shown(
                    self@,
                    self.spec_width() as int,
                    self.spec_grid() as int,
                    ix,
                ),
    {
        let total = self.width * self.height;
        let mut buffer: Vec<Colour> = Vec::with_capacity(total);
        let mut ix: usize = 0;
        while ix < total
            invariant
                self.wf(),
                total == self@.len(),
                total == self.width * self.height,
                ix <= total,
                buffer.len() == ix,
                forall|k: int|
                    0 <= k < ix ==> #[trigger] buffer@[k] == shown(
                        self@,
                        self.width as int,
                        self.preview_grid_size as int,
                        k,
                    ),
            decreases total - ix,
        {
            if self.means.count(ix) == 0 {
                // No samples yet: use the preview grid.
                let x = ix % self.width;
                let y = ix / self.width;
                let grid_size = self.preview_grid_size;
                proof {
                    lemma_grid_index(ix as int, self.width as int, grid_size as int);
                }
                let grid_x = x - (x % grid_size);
                let grid_y = y - (y % grid_size);
                let grid_ix = grid_x + grid_y * self.width;
                buffer.push(self.means.get(grid_ix));
            } else {
                buffer.push(self.means.get(ix));
            }
            ix = ix + 1;
        }
        Image { width: self.width as u32, height: self.height as u32, pixels: buffer }
    }
}

proof fn lemma_pixel_index(x: int, y: int, w: int, h: int)
    requires
        0 <= x < w,
        0 <= y < h,
    ensures
        0 <= x + y * w < w * h,
{
    assert(0 <= x + y * w < w * h) by (nonlinear_arith)
        requires
            0 <= x < w,
            0 <= y < h,
    ;
}

proof fn lemma_grid_index(ix: int, w: int, g: int)
    requires
        0 <= ix,
        w > 0,
        g > 0,
    ensures
        0 <= (ix % w) - (ix % w) % g,
        0 <= (ix / w) - (ix / w) % g,
        0 <= ((ix % w) - (ix % w) % g) + ((ix / w) - (ix / w) % g) * w <= ix,
{
    let x = ix % w;
    let y = ix / w;
    vstd::arithmetic::div_mod::lemma_fundamental_div_mod(ix, w);
    vstd::arithmetic::div_mod::lemma_mod_bound(x, g);
    vstd::arithmetic::div_mod::lemma_mod_bound(ix, w);
    vstd::arithmetic::div_mod::lemma_div_pos_is_pos(ix, w);
    vstd::arithmetic::div_mod::lemma_mod_bound(y, g);
    vstd::arithmetic::div_mod::lemma_mod_decreases(x as nat, g as nat);
    vstd::arithmetic::div_mod::lemma_mod_decreases(y as nat, g as nat);
    let gy = y - y % g;
    assert(0 <= gy * w <= y * w) by (nonlinear_arith)
        requires
            0 <= gy <= y,
            w > 0,
    ;
}

} // verus!
