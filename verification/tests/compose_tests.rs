use photomosaic::MosaicError;
use photomosaic::average::AverageColor;
use photomosaic::average::TargetBlock;
use photomosaic::compose::Placement;
use photomosaic::compose::compose;
use photomosaic::compose::copy_into;
use photomosaic::compose::pixellate;
use photomosaic::pixel::PixelBuffer;
use photomosaic::pixel::Rgb;

fn buffer(width: u32, height: u32, triples: Vec<(u8, u8, u8)>) -> PixelBuffer {
    let pixels: Vec<Rgb> = triples.iter().map(|&(r, g, b)| Rgb { r, g, b }).collect();
    PixelBuffer::from_pixels(width, height, pixels).unwrap()
}

fn uniform(width: u32, height: u32, r: u8, g: u8, b: u8) -> PixelBuffer {
    buffer(width, height, vec![(r, g, b); (width * height) as usize])
}

fn at(buf: &PixelBuffer, x: u32, y: u32) -> Rgb {
    buf.pixels[(y * buf.width + x) as usize]
}

#[test]
fn copy_places_the_tile_verbatim_and_touches_nothing_else() {
    let mut canvas = uniform(4, 4, 9, 9, 9);
    let tile = buffer(2, 2, vec![(1, 0, 0), (2, 0, 0), (3, 0, 0), (4, 0, 0)]);
    copy_into(&mut canvas, &tile, 1, 1).unwrap();
    assert_eq!((canvas.width, canvas.height), (4, 4));
    assert_eq!(at(&canvas, 1, 1), Rgb { r: 1, g: 0, b: 0 });
    assert_eq!(at(&canvas, 2, 1), Rgb { r: 2, g: 0, b: 0 });
    assert_eq!(at(&canvas, 1, 2), Rgb { r: 3, g: 0, b: 0 });
    assert_eq!(at(&canvas, 2, 2), Rgb { r: 4, g: 0, b: 0 });
    for y in 0..4 {
        for x in 0..4 {
            if !(1..=2).contains(&x) || !(1..=2).contains(&y) {
                assert_eq!(at(&canvas, x, y), Rgb { r: 9, g: 9, b: 9 });
            }
        }
    }
}

#[test]
fn copy_out_of_bounds_fails_and_leaves_the_canvas_alone() {
    let mut canvas = uniform(4, 4, 9, 9, 9);
    let tile = uniform(3, 3, 1, 1, 1);
    let r = copy_into(&mut canvas, &tile, 2, 2);
    assert_eq!(r.err(), Some(MosaicError::OutOfBoundsWrite));
    for y in 0..4 {
        for x in 0..4 {
            assert_eq!(at(&canvas, x, y), Rgb { r: 9, g: 9, b: 9 });
        }
    }
}

#[test]
fn later_placements_overwrite_earlier_ones() {
    let placements = vec![
        Placement { x: 0, y: 0, tile: uniform(2, 2, 10, 0, 0) },
        Placement { x: 1, y: 1, tile: uniform(2, 2, 0, 20, 0) },
    ];
    let out = compose(3, 3, &placements).unwrap();
    assert_eq!((out.width, out.height), (3, 3));
    assert_eq!(at(&out, 0, 0), Rgb { r: 10, g: 0, b: 0 });
    assert_eq!(at(&out, 1, 0), Rgb { r: 10, g: 0, b: 0 });
    assert_eq!(at(&out, 1, 1), Rgb { r: 0, g: 20, b: 0 });
    assert_eq!(at(&out, 2, 2), Rgb { r: 0, g: 20, b: 0 });
    assert_eq!(at(&out, 2, 0), Rgb { r: 0, g: 0, b: 0 });
    assert_eq!(at(&out, 0, 2), Rgb { r: 0, g: 0, b: 0 });
}

#[test]
fn compose_rejects_a_placement_that_leaves_the_canvas() {
    let placements = vec![Placement { x: 2, y: 0, tile: uniform(2, 2, 1, 1, 1) }];
    let r = compose(3, 3, &placements);
    assert_eq!(r.err(), Some(MosaicError::OutOfBoundsWrite));
}

#[test]
fn pixellate_paints_solid_squares_of_each_average() {
    let blocks = vec![
        TargetBlock {
            avg: AverageColor { r: 50, g: 0, b: 0, size: 2 },
            x: Some(0),
            y: Some(0),
        },
        TargetBlock {
            avg: AverageColor { r: 0, g: 60, b: 0, size: 2 },
            x: Some(2),
            y: Some(0),
        },
    ];
    let out = pixellate(&blocks, 4, 2).unwrap();
    assert_eq!((out.width, out.height), (4, 2));
    for y in 0..2 {
        for x in 0..2 {
            assert_eq!(at(&out, x, y), Rgb { r: 50, g: 0, b: 0 });
            assert_eq!(at(&out, x + 2, y), Rgb { r: 0, g: 60, b: 0 });
        }
    }
}

#[test]
fn pixellate_rejects_an_overflowing_block() {
    let blocks = vec![TargetBlock {
        avg: AverageColor { r: 1, g: 1, b: 1, size: 3 },
        x: Some(2),
        y: Some(0),
    }];
    let r = pixellate(&blocks, 4, 4);
    assert_eq!(r.err(), Some(MosaicError::OutOfBoundsWrite));
}
