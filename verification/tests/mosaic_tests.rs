use photomosaic::MosaicError;
use photomosaic::mosaic::build_mosaic;
use photomosaic::pixel::PixelBuffer;
use photomosaic::pixel::Rgb;

fn buffer(width: u32, height: u32, triples: Vec<(u8, u8, u8)>) -> PixelBuffer {
    let pixels: Vec<Rgb> = triples.iter().map(|&(r, g, b)| Rgb { r, g, b }).collect();
    PixelBuffer::from_pixels(width, height, pixels).unwrap()
}

fn uniform(width: u32, height: u32, r: u8, g: u8, b: u8) -> PixelBuffer {
    buffer(width, height, vec![(r, g, b); (width * height) as usize])
}

fn at(buf: &PixelBuffer, x: u32, y: u32) -> Rgb {
    buf.pixels[(y * buf.width + x) as usize]
}

#[test]
fn single_red_source_tiles_the_whole_target() {
    let target = uniform(4, 4, 0, 120, 0);
    let sources = vec![uniform(2, 2, 255, 0, 0)];
    let out = build_mosaic(&target, &sources, 2).unwrap();
    assert_eq!((out.width, out.height), (4, 4));
    for y in 0..4 {
        for x in 0..4 {
            assert_eq!(at(&out, x, y), Rgb { r: 255, g: 0, b: 0 });
        }
    }
}

#[test]
fn trailing_row_and_column_stay_blank() {
    let target = uniform(5, 5, 40, 40, 40);
    let sources = vec![uniform(1, 1, 255, 0, 0)];
    let out = build_mosaic(&target, &sources, 2).unwrap();
    assert_eq!((out.width, out.height), (5, 5));
    // The 1-by-1 tile lands on each block origin; every other pixel keeps
    // the blank canvas color, the dropped strip at index 4 included.
    for y in 0..5 {
        for x in 0..5 {
            let expected = if (x == 0 || x == 2) && (y == 0 || y == 2) {
                Rgb { r: 255, g: 0, b: 0 }
            } else {
                Rgb { r: 0, g: 0, b: 0 }
            };
            assert_eq!(at(&out, x, y), expected);
        }
    }
}

#[test]
fn near_black_target_selects_the_black_entry() {
    let target = uniform(2, 2, 10, 10, 10);
    let sources = vec![uniform(2, 2, 0, 0, 0), uniform(2, 2, 255, 255, 255)];
    let out = build_mosaic(&target, &sources, 2).unwrap();
    for y in 0..2 {
        for x in 0..2 {
            assert_eq!(at(&out, x, y), Rgb { r: 0, g: 0, b: 0 });
        }
    }
}

#[test]
fn each_block_takes_its_own_nearest_source() {
    let mut triples = vec![(0u8, 0u8, 0u8); 16];
    for y in 0..4usize {
        for x in 0..4usize {
            triples[y * 4 + x] = if x < 2 { (250, 0, 0) } else { (0, 0, 250) };
        }
    }
    let target = buffer(4, 4, triples);
    let sources = vec![uniform(2, 2, 255, 0, 0), uniform(2, 2, 0, 0, 255)];
    let out = build_mosaic(&target, &sources, 2).unwrap();
    for y in 0..4 {
        for x in 0..4 {
            let expected = if x < 2 {
                Rgb { r: 255, g: 0, b: 0 }
            } else {
                Rgb { r: 0, g: 0, b: 255 }
            };
            assert_eq!(at(&out, x, y), expected);
        }
    }
}

#[test]
fn zero_block_size_is_an_invalid_block_size() {
    let target = uniform(4, 4, 1, 1, 1);
    let sources = vec![uniform(2, 2, 1, 1, 1)];
    let r = build_mosaic(&target, &sources, 0);
    assert_eq!(r.err(), Some(MosaicError::InvalidBlockSize));
}

#[test]
fn oversized_tile_aborts_with_an_out_of_bounds_write() {
    let target = uniform(4, 4, 1, 1, 1);
    let sources = vec![uniform(3, 3, 1, 1, 1)];
    let r = build_mosaic(&target, &sources, 2);
    assert_eq!(r.err(), Some(MosaicError::OutOfBoundsWrite));
}

#[test]
fn from_pixels_refuses_a_mismatched_vector() {
    let pixels = vec![Rgb { r: 0, g: 0, b: 0 }; 5];
    assert!(PixelBuffer::from_pixels(2, 2, pixels).is_none());
    let pixels = vec![Rgb { r: 0, g: 0, b: 0 }; 4];
    assert!(PixelBuffer::from_pixels(2, 2, pixels).is_some());
}
