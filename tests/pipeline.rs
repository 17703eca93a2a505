use pathtracer::timing::Governer;
use pathtracer::estimator::Colour;
use pathtracer::renderer::{RenderState, PREVIEW_GRID_SIZE};
use pathtracer::worker::{Command, RenderRequest, RenderResult, WorkerState};

#[test]
fn requests_start_at_center_and_alternate() {
    let mut st = RenderState::new(5, 3);
    let cols: Vec<u32> = (0..5).map(|_| st.next_request().top_left.0).collect();
    assert_eq!(cols, vec![2, 1, 3, 0, 4]);
    let mut st = RenderState::new(4, 3);
    let first = st.next_request();
    assert_eq!(first.top_left, (2, 0));
    assert_eq!(first.bottom_right, (2, 2));
    assert_eq!(first.pattern_size, (1, 1));
    let cols: Vec<u32> = (0..3).map(|_| st.next_request().top_left.0).collect();
    assert_eq!(cols, vec![1, 3, 0]);
    // The second sweep uses the full pattern.
    assert_eq!(st.next_request().pattern_size, (5, 5));
}

#[test]
fn every_column_is_requested_in_one_sweep() {
    for w in 1..40u32 {
        let mut st = RenderState::new(w, 2);
        let mut seen = vec![false; w as usize];
        for _ in 0..w {
            let req = st.next_request();
            seen[req.top_left.0 as usize] = true;
        }
        assert!(seen.iter().all(|s| *s));
    }
}

#[test]
fn preview_requests_cover_the_grid() {
    let st = RenderState::new(17, 9);
    let reqs = st.preview_requests();
    // Columns 0, 8, 16 and rows 0, 8.
    assert_eq!(reqs.len(), 6);
    assert_eq!(reqs[0].top_left, (0, 0));
    assert_eq!(reqs[1].top_left, (0, 8));
    assert_eq!(reqs[2].top_left, (8, 0));
    assert_eq!(reqs[5].bottom_right, (16, 8));
    assert!(reqs.iter().all(|r| r.pattern_size == (1, 1) && r.epoch == 0));
    assert_eq!(PREVIEW_GRID_SIZE, 8);
}

#[test]
fn stale_results_are_dropped() {
    let mut st = RenderState::new(4, 4);
    let e = st.new_epoch();
    assert_eq!(e, 1);
    assert_eq!(st.epoch(), 1);
    let stale = RenderResult { epoch: 0, samples: vec![(0, 0, Colour::new(9, 9, 9))] };
    let live = RenderResult { epoch: 1, samples: vec![(0, 0, Colour::new(2, 4, 6)), (9, 0, Colour::new(1, 1, 1))] };
    st.drain_result_queue(&vec![stale, live]);
    let img = st.render();
    assert_eq!(img.pixels[0], Colour::new(2, 4, 6));
    // Every sample of a live result counts as a ray cast, even one outside the
    // image, which leaves the estimate alone.
    assert_eq!(st.num_rays_cast(), 2);
    // A result that arrives after the next bump is stale too.
    let late = RenderResult { epoch: 1, samples: vec![(0, 0, Colour::new(50, 50, 50))] };
    st.new_epoch();
    st.apply_result(&late);
    assert_eq!(st.render().pixels[0], Colour::black());
    assert_eq!(st.num_rays_cast(), 0);
}

#[test]
fn workers_follow_commands() {
    let mut w = WorkerState::new();
    let req = RenderRequest { epoch: 3, top_left: (0, 0), bottom_right: (1, 1), pattern_size: (1, 1) };
    assert!(!w.accepts(&req));
    w.handle_command(&Command::SetEpoch(3));
    assert!(w.accepts(&req));
    assert!(w.is_running);
    w.handle_command(&Command::Shutdown);
    assert!(!w.is_running);
    assert_eq!(w.epoch, 3);
}

#[test]
fn request_pixels_row_by_row() {
    let req = RenderRequest { epoch: 0, top_left: (3, 7), bottom_right: (3, 9), pattern_size: (1, 1) };
    let mut it = req.iter_pixels();
    assert_eq!(it.next(), Some((3, 7)));
    assert_eq!(it.next(), Some((3, 8)));
    assert_eq!(it.next(), Some((3, 9)));
    assert_eq!(it.next(), None);
}

#[test]
fn governer_sleeps_off_the_shortfall() {
    let mut g = Governer::new(4, 0);
    // One frame recorded, a quarter second each: 100 ms in, wait 150 ms.
    assert_eq!(g.end_frame(100_000_000), 150_000_000);
    // Two frames recorded since time zero: 600 ms in, nothing to wait.
    assert_eq!(g.end_frame(600_000_000), 0);
    assert_eq!(g.end_frame(700_000_000), 50_000_000);
    assert_eq!(g.end_frame(800_000_000), 200_000_000);
    // The queue keeps four frames, so the oldest is now the one at 100 ms.
    assert_eq!(g.end_frame(900_000_000), 200_000_000);
}

#[test]
fn trace_pass_visits_the_rectangle_in_order() {
    let mut w = WorkerState::new();
    w.handle_command(&Command::SetEpoch(7));
    let req = RenderRequest { epoch: 7, top_left: (2, 5), bottom_right: (4, 6), pattern_size: (1, 1) };
    let result = w.trace_pass(&req, &|x: u32, y: u32| Colour::new(x, y, x * y));
    assert_eq!(result.epoch, 7);
    let expected: Vec<(u32, u32, Colour)> = vec![
        (2, 5, Colour::new(2, 5, 10)),
        (3, 5, Colour::new(3, 5, 15)),
        (4, 5, Colour::new(4, 5, 20)),
        (2, 6, Colour::new(2, 6, 12)),
        (3, 6, Colour::new(3, 6, 18)),
        (4, 6, Colour::new(4, 6, 24)),
    ];
    assert_eq!(result.samples, expected);
}
