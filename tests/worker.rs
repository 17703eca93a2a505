use pathtracer::worker::PixelGridIter;

#[test]
fn test_pixel_grid_iter_x() {
    let mut grid = PixelGridIter::new(0, 0, 3, 1);
    assert_eq!(grid.next(), Some((0, 0)));
    assert_eq!(grid.next(), Some((1, 0)));
    assert_eq!(grid.next(), Some((2, 0)));
    assert_eq!(grid.next(), None);
}

#[test]
fn test_pixel_grid_iter_y() {
    let mut grid = PixelGridIter::new(0, 0, 1, 3);
    assert_eq!(grid.next(), Some((0, 0)));
    assert_eq!(grid.next(), Some((0, 1)));
    assert_eq!(grid.next(), Some((0, 2)));
    assert_eq!(grid.next(), None);
}

#[test]
fn test_pixel_grid_iter_square() {
    let mut grid = PixelGridIter::new(0, 0, 2, 2);
    assert_eq!(grid.next(), Some((0, 0)));
    assert_eq!(grid.next(), Some((1, 0)));
    assert_eq!(grid.next(), Some((0, 1)));
    assert_eq!(grid.next(), Some((1, 1)));
    assert_eq!(grid.next(), None);
}

#[test]
fn test_pixel_grid_iter_offset_square() {
    let mut grid = PixelGridIter::new(4, 4, 2, 2);
    assert_eq!(grid.next(), Some((4, 4)));
    assert_eq!(grid.next(), Some((5, 4)));
    assert_eq!(grid.next(), Some((4, 5)));
    assert_eq!(grid.next(), Some((5, 5)));
    assert_eq!(grid.next(), None);
}
