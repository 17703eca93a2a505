use vstd::prelude::*;

verus! {

/// Paces the display loop to a frame rate from the start times of recent
/// frames, newest first, in nanoseconds of a monotonic clock.
pub struct Governer {
    frames_per_second: u32,
    frame_ns: u64,
    frame_times: Vec<u64>,
}

/// How long to wait so that `n` frames take `n * frame_ns`: the shortfall of
/// the time since the oldest recorded frame, or zero.
pub open spec fn wait_for(frame_ns: int, n: int, now: int, oldest: int) -> int {
    let expected = frame_ns * n;
    let actual = now - oldest;
    if expected > actual {
        expected - actual
    } else {
        0
    }
}

impl Governer {
    pub closed spec fn spec_fps(&self) -> u32 {
        self.frames_per_second
    }

    pub closed spec fn spec_frame_ns(&self) -> u64 {
        self.frame_ns
    }

    /// Recorded frame start times, newest first.
    pub closed spec fn spec_times(&self) -> Seq<u64> {
        self.frame_times@
    }

    pub open spec fn wf(&self) -> bool {
        &&& self.spec_fps() >= 1
        &&& 1 <= self.spec_times().len() <= self.spec_fps()
        &&& self.spec_frame_ns() <= 1_000_000_000
    }

    pub fn new(frames_per_second: u32, now_ns: u64) -> (g: Governer)
        requires
            frames_per_second >= 1,
        ensures
            g.wf(),
            g.spec_fps() == frames_per_second,
            g.spec_frame_ns() == 1_000_000_000int / (frames_per_second as int),
            g.spec_times() == seq![now_ns],
    {
        let frame_ns: u64 = 1_000_000_000 / (frames_per_second as u64);
        let mut frame_times: Vec<u64> = Vec::new();
        frame_times.push(now_ns);
        assert(frame_times@ =~= seq![now_ns]);
        Governer { frames_per_second, frame_ns, frame_times }
    }

    /// Records the start of a frame at `now_ns` and returns how many
    /// nanoseconds to sleep to keep to the frame rate.
    pub fn end_frame(&mut self, now_ns: u64) -> (sleep_ns: u64)
        requires
            old(self).wf(),
            now_ns >= old(self).spec_times().last(),
        ensures
            final(self).wf(),
            final(self).spec_fps() == old(self).spec_fps(),
            final(self).spec_frame_ns() == old(self).spec_frame_ns(),
            sleep_ns == wait_for(
                old(self).spec_frame_ns() as int,
                old(self).spec_times().len() as int,
                now_ns as int,
                old(self).spec_times().last() as int,
            ),
            final(self).spec_times() == seq![now_ns].add(old(self).spec_times()).take(
                if old(self).spec_times().len() + 1 > old(self).spec_fps() {
                    old(self).spec_fps() as int
                } else {
                    old(self).spec_times().len() + 1int
                },
            ),
    {
        let n = self.frame_times.len();
        assert(self.frame_ns as int * n as int <= 1_000_000_000 * 0xffff_ffff) by (nonlinear_arith)
            requires
                self.frame_ns <= 1_000_000_000,
                n <= 0xffff_ffff,
        ;
        let expected: u64 = self.frame_ns * (n as u64);
        let oldest = self.frame_times[n - 1];
        let actual = now_ns - oldest;
        let ghost old_times = self.frame_times@;
        self.frame_times.insert(0, now_ns);
        let keep = self.frames_per_second as usize;
        if self.frame_times.len() > keep {
            self.frame_times.truncate(keep);
        }
        assert(self.frame_times@ =~= seq![now_ns].add(old_times).take(
            if old_times.len() + 1 > self.frames_per_second {
                self.frames_per_second as int
            } else {
                old_times.len() + 1int
            },
        ));
        if expected > actual {
            expected - actual
        } else {
            0
        }
    }
}

} // verus!
