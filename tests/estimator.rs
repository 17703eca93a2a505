use pathtracer::estimator::{Colour, Estimator, MeanVec};

#[test]
fn mean_vec_running_mean() {
    let mut m = MeanVec::new(3);
    assert_eq!(m.len(), 3);
    assert_eq!(m.count(1), 0);
    assert_eq!(m.get(1), Colour::black());
    m.update(1, Colour::new(10, 20, 30));
    m.update(1, Colour::new(20, 40, 61));
    assert_eq!(m.count(1), 2);
    assert_eq!(m.get(1), Colour::new(15, 30, 45));
    assert_eq!(m.count(0), 0);
}

#[test]
fn estimator_fills_unsampled_pixels_from_preview_grid() {
    let mut e = Estimator::new(5, 4, 2);
    e.update_pixel(0, 0, Colour::new(100, 0, 0));
    e.update_pixel(2, 2, Colour::new(0, 100, 0));
    e.update_pixel(3, 3, Colour::new(0, 0, 100));
    let img = e.render();
    assert_eq!(img.width, 5);
    assert_eq!(img.height, 4);
    assert_eq!(img.pixels.len(), 20);
    let at = |x: usize, y: usize| img.pixels[x + y * 5];
    assert_eq!(at(0, 0), Colour::new(100, 0, 0));
    assert_eq!(at(1, 1), Colour::new(100, 0, 0));
    assert_eq!(at(1, 0), Colour::new(100, 0, 0));
    assert_eq!(at(2, 3), Colour::new(0, 100, 0));
    // Its own sample wins over the grid.
    assert_eq!(at(3, 3), Colour::new(0, 0, 100));
    // No sample in this cell yet.
    assert_eq!(at(4, 0), Colour::black());
    assert_eq!(e.samples_at(3, 3), 1);
}

#[test]
fn estimator_order_of_updates_does_not_matter() {
    let updates = vec![
        (0usize, 0usize, Colour::new(1, 2, 3)),
        (1, 0, Colour::new(7, 7, 7)),
        (0, 0, Colour::new(5, 9, 11)),
        (1, 1, Colour::new(100, 0, 50)),
        (0, 0, Colour::new(6, 6, 6)),
        (1, 0, Colour::new(3, 1, 4)),
    ];
    let mut forward = Estimator::new(2, 2, 1);
    for (x, y, c) in updates.iter() {
        forward.update_pixel(*x, *y, *c);
    }
    let mut backward = Estimator::new(2, 2, 1);
    for (x, y, c) in updates.iter().rev() {
        backward.update_pixel(*x, *y, *c);
    }
    let a = forward.render();
    let b = backward.render();
    assert_eq!(a.pixels, b.pixels);
    assert_eq!(a.pixels[0], Colour::new(4, 5, 6));
    assert_eq!(a.pixels[1], Colour::new(5, 4, 5));
}

#[test]
fn update_all_matches_any_order() {
    let samples: Vec<(u32, u32, Colour)> = vec![
        (0, 0, Colour::new(1, 2, 3)),
        (2, 1, Colour::new(9, 9, 9)),
        (0, 0, Colour::new(5, 6, 7)),
        (1, 1, Colour::new(4, 0, 4)),
        (2, 1, Colour::new(3, 3, 3)),
    ];
    let mut a = Estimator::new(3, 2, 1);
    a.update_all(&samples);
    let mut reversed = samples.clone();
    reversed.reverse();
    let mut b = Estimator::new(3, 2, 1);
    b.update_all(&reversed);
    assert_eq!(a.render().pixels, b.render().pixels);
    assert_eq!(a.render().pixels[0], Colour::new(3, 4, 5));
    assert_eq!(a.render().pixels[5], Colour::new(6, 6, 6));
    assert_eq!(a.samples_at(2, 1), 2);
}
