use photomosaic::MosaicError;
use photomosaic::grid::divide_to_squares;

#[test]
fn zero_block_size_is_rejected() {
    let r = divide_to_squares(10, 10, 0);
    assert_eq!(r.err(), Some(MosaicError::InvalidBlockSize));
}

#[test]
fn five_by_five_size_two_drops_the_trailing_strip() {
    let blocks = divide_to_squares(5, 5, 2).unwrap();
    assert_eq!(blocks.len(), 4);
    let origins: Vec<(u32, u32)> = blocks.iter().map(|b| (b.x, b.y)).collect();
    assert_eq!(origins, vec![(0, 0), (0, 2), (2, 0), (2, 2)]);
    for b in &blocks {
        assert_eq!(b.size, 2);
    }
}

#[test]
fn four_by_four_size_two_covers_exactly() {
    let blocks = divide_to_squares(4, 4, 2).unwrap();
    assert_eq!(blocks.len(), 4);
    let origins: Vec<(u32, u32)> = blocks.iter().map(|b| (b.x, b.y)).collect();
    assert_eq!(origins, vec![(0, 0), (0, 2), (2, 0), (2, 2)]);
}

#[test]
fn block_count_is_floor_w_over_s_times_floor_h_over_s() {
    let blocks = divide_to_squares(7, 5, 2).unwrap();
    assert_eq!(blocks.len(), (7 / 2) * (5 / 2));
    for b in &blocks {
        assert_eq!(b.x % 2, 0);
        assert_eq!(b.y % 2, 0);
        assert!(b.x < 7);
        assert!(b.y < 5);
        assert!(b.x + 2 <= 7);
        assert!(b.y + 2 <= 5);
    }
}

#[test]
fn block_larger_than_image_yields_no_blocks() {
    let blocks = divide_to_squares(3, 3, 4).unwrap();
    assert_eq!(blocks.len(), 0);
}

#[test]
fn one_by_one_blocks_enumerate_every_pixel() {
    let blocks = divide_to_squares(2, 3, 1).unwrap();
    assert_eq!(blocks.len(), 6);
    let origins: Vec<(u32, u32)> = blocks.iter().map(|b| (b.x, b.y)).collect();
    assert_eq!(origins, vec![(0, 0), (0, 1), (0, 2), (1, 0), (1, 1), (1, 2)]);
}
