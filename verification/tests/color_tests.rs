use photomosaic::MosaicError;
use photomosaic::average::AverageColor;
use photomosaic::average::avg_color;
use photomosaic::average::avg_color_block;
use photomosaic::average::div_avg_color;
use photomosaic::catalog::CatalogEntry;
use photomosaic::catalog::build_catalog;
use photomosaic::catalog::square_crop;
use photomosaic::matcher::distance;
use photomosaic::matcher::find_nearest;
use photomosaic::pixel::PixelBuffer;
use photomosaic::pixel::Rgb;

fn buffer(width: u32, height: u32, triples: Vec<(u8, u8, u8)>) -> PixelBuffer {
    let pixels: Vec<Rgb> = triples.iter().map(|&(r, g, b)| Rgb { r, g, b }).collect();
    PixelBuffer::from_pixels(width, height, pixels).unwrap()
}

fn uniform(width: u32, height: u32, r: u8, g: u8, b: u8) -> PixelBuffer {
    buffer(width, height, vec![(r, g, b); (width * height) as usize])
}

fn entry(side: u32, r: u8, g: u8, b: u8) -> CatalogEntry {
    CatalogEntry {
        buffer: uniform(side, side, r, g, b),
        avg: AverageColor { r, g, b, size: side },
    }
}

#[test]
fn uniform_block_average_is_identity() {
    let buf = uniform(3, 3, 7, 13, 200);
    let avg = avg_color(&buf, 3);
    assert_eq!((avg.r, avg.g, avg.b, avg.size), (7, 13, 200, 3));
}

#[test]
fn average_truncates_the_integer_division() {
    let buf = buffer(
        2,
        2,
        vec![(0, 10, 255), (1, 10, 0), (2, 10, 0), (3, 11, 0)],
    );
    let avg = avg_color(&buf, 2);
    assert_eq!((avg.r, avg.g, avg.b), (6 / 4, 41 / 4, 255 / 4));
}

#[test]
fn block_average_reads_only_its_region() {
    let mut triples = vec![(0u8, 0u8, 0u8); 16];
    for y in 0..2usize {
        for x in 2..4usize {
            triples[y * 4 + x] = (100, 50, 25);
        }
    }
    let buf = buffer(4, 4, triples);
    let avg = avg_color_block(&buf, 2, 0, 2);
    assert_eq!((avg.r, avg.g, avg.b), (100, 50, 25));
    let other = avg_color_block(&buf, 0, 2, 2);
    assert_eq!((other.r, other.g, other.b), (0, 0, 0));
}

#[test]
fn div_avg_color_places_every_block() {
    let mut triples = vec![(0u8, 0u8, 0u8); 16];
    for y in 0..4usize {
        for x in 0..2usize {
            triples[y * 4 + x] = (255, 0, 0);
        }
        for x in 2..4usize {
            triples[y * 4 + x] = (0, 0, 255);
        }
    }
    let buf = buffer(4, 4, triples);
    let tbs = div_avg_color(&buf, 2).unwrap();
    assert_eq!(tbs.len(), 4);
    let placements: Vec<(u32, u32)> =
        tbs.iter().map(|tb| (tb.x.unwrap(), tb.y.unwrap())).collect();
    assert_eq!(placements, vec![(0, 0), (0, 2), (2, 0), (2, 2)]);
    assert_eq!((tbs[0].avg.r, tbs[0].avg.g, tbs[0].avg.b), (255, 0, 0));
    assert_eq!((tbs[1].avg.r, tbs[1].avg.g, tbs[1].avg.b), (255, 0, 0));
    assert_eq!((tbs[2].avg.r, tbs[2].avg.g, tbs[2].avg.b), (0, 0, 255));
    assert_eq!((tbs[3].avg.r, tbs[3].avg.g, tbs[3].avg.b), (0, 0, 255));
}

#[test]
fn div_avg_color_rejects_zero_size() {
    let buf = uniform(4, 4, 1, 2, 3);
    let r = div_avg_color(&buf, 0);
    assert_eq!(r.err(), Some(MosaicError::InvalidBlockSize));
}

#[test]
fn distance_of_equal_colors_is_zero() {
    let a = AverageColor { r: 12, g: 200, b: 7, size: 2 };
    let b = AverageColor { r: 12, g: 200, b: 7, size: 5 };
    assert_eq!(distance(&a, &b), 0);
}

#[test]
fn distance_is_the_double_square_root_truncated() {
    let a = AverageColor { r: 0, g: 0, b: 0, size: 1 };
    let b = AverageColor { r: 3, g: 4, b: 0, size: 1 };
    // 9 + 16 = 25; sqrt 25 = 5; sqrt 5 truncates to 2.
    assert_eq!(distance(&a, &b), 2);
}

#[test]
fn exact_match_wins_and_first_duplicate_is_kept() {
    let target = AverageColor { r: 40, g: 41, b: 42, size: 2 };
    let catalog = vec![
        entry(2, 1, 2, 3),
        entry(2, 40, 41, 42),
        entry(2, 40, 41, 42),
    ];
    let idx = find_nearest(&target, &catalog);
    assert_eq!(idx, 1);
    assert_eq!(distance(&target, &catalog[idx].avg), 0);
}

#[test]
fn black_wins_for_a_near_black_target() {
    let target = AverageColor { r: 10, g: 10, b: 10, size: 2 };
    let catalog = vec![entry(2, 0, 0, 0), entry(2, 255, 255, 255)];
    assert_eq!(find_nearest(&target, &catalog), 0);
}

#[test]
fn truncated_distances_tie_to_the_first_entry() {
    let target = AverageColor { r: 0, g: 0, b: 0, size: 1 };
    // 17 and 16 both floor to distance 2 under the double square root, so
    // the earlier entry is kept even though 16 < 17.
    let catalog = vec![entry(1, 4, 1, 0), entry(1, 4, 0, 0)];
    assert_eq!(find_nearest(&target, &catalog), 0);
}

#[test]
fn wide_source_is_cropped_to_its_top_left_square() {
    let mut triples = Vec::new();
    for y in 0..60u32 {
        for x in 0..100u32 {
            triples.push(((x % 256) as u8, (y % 256) as u8, 9));
        }
    }
    let src = buffer(100, 60, triples);
    let cropped = square_crop(&src);
    assert_eq!((cropped.width, cropped.height), (60, 60));
    assert_eq!(cropped.pixels[0], Rgb { r: 0, g: 0, b: 9 });
    assert_eq!(
        cropped.pixels[(59 * 60 + 59) as usize],
        Rgb { r: 59, g: 59, b: 9 }
    );
}

#[test]
fn catalog_keeps_order_and_averages_the_square() {
    let tall = {
        let mut triples = Vec::new();
        for y in 0..3u32 {
            for _x in 0..2u32 {
                // Rows 0 and 1 are bright; row 2 is cut off by the crop.
                triples.push(if y < 2 { (200, 0, 0) } else { (0, 200, 0) });
            }
        }
        buffer(2, 3, triples)
    };
    let red = uniform(2, 2, 250, 1, 1);
    let catalog = build_catalog(&vec![tall, red]);
    assert_eq!(catalog.len(), 2);
    assert_eq!((catalog[0].buffer.width, catalog[0].buffer.height), (2, 2));
    assert_eq!(
        (catalog[0].avg.r, catalog[0].avg.g, catalog[0].avg.b, catalog[0].avg.size),
        (200, 0, 0, 2)
    );
    assert_eq!(
        (catalog[1].avg.r, catalog[1].avg.g, catalog[1].avg.b),
        (250, 1, 1)
    );
}
