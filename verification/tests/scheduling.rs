use std::cell::Cell;

use raytracer::camera::{pixel_seed, ray_color, Bounce, SEED_STEP};
use raytracer::color::{push_decimal, to_ppm, Color};
use raytracer::image::{pixel_index, ExtImage, Image};
use raytracer::tile::{
    chunk_coordinates, chunk_count, commit_tile, render_rows, render_tile, render_tiled,
    tile_bounds, Tile,
};

fn pattern(row: usize, col: usize) -> u32 {
    (row as u32) * 1000 + (col as u32) * 7 + 3
}

#[test]
fn chunk_count_rounds_up() {
    assert_eq!(chunk_count(0, 64), 0);
    assert_eq!(chunk_count(1, 64), 1);
    assert_eq!(chunk_count(64, 64), 1);
    assert_eq!(chunk_count(65, 64), 2);
    assert_eq!(chunk_count(400, 64), 7);
    assert_eq!(chunk_count(usize::MAX, 1), usize::MAX);
    assert_eq!(chunk_count(usize::MAX, usize::MAX), 1);
}

#[test]
fn edge_tiles_are_clipped() {
    assert_eq!(
        tile_bounds(0, 0, 64, 400, 225),
        Tile { start_x: 0, start_y: 0, end_x: 64, end_y: 64 }
    );
    assert_eq!(
        tile_bounds(6, 3, 64, 400, 225),
        Tile { start_x: 384, start_y: 192, end_x: 400, end_y: 225 }
    );
    assert_eq!(
        tile_bounds(0, 0, 256, 400, 225),
        Tile { start_x: 0, start_y: 0, end_x: 256, end_y: 225 }
    );
}

#[test]
fn chunk_coordinates_run_row_by_row() {
    assert_eq!(
        chunk_coordinates(130, 70, 64),
        vec![(0, 0), (1, 0), (2, 0), (0, 1), (1, 1), (2, 1)]
    );
    assert_eq!(chunk_coordinates(0, 70, 64), Vec::<(usize, usize)>::new());
}

#[test]
fn tiles_cover_every_pixel_once() {
    let (width, height, size) = (37usize, 23usize, 8usize);
    let mut seen = vec![0u32; width * height];
    for (cx, cy) in chunk_coordinates(width, height, size) {
        let tile = tile_bounds(cx, cy, size, width, height);
        for row in tile.start_y..tile.end_y {
            for col in tile.start_x..tile.end_x {
                seen[row * width + col] += 1;
                assert_eq!((col / size, row / size), (cx, cy));
            }
        }
    }
    assert!(seen.iter().all(|n| *n == 1));
}

#[test]
fn render_tile_lists_rows_in_order() {
    let tile = Tile { start_x: 2, start_y: 5, end_x: 4, end_y: 7 };
    let buffer = render_tile(tile, &pattern);
    assert_eq!(
        buffer,
        vec![(5, 2, pattern(5, 2)), (5, 3, pattern(5, 3)), (6, 2, pattern(6, 2)), (6, 3, pattern(6, 3))]
    );
}

#[test]
fn commit_tile_writes_only_listed_pixels() {
    let mut image: Image<u32> = Image::new(3, 2, 9);
    commit_tile(&mut image, &vec![(1, 2, 5), (0, 0, 4), (1, 2, 6)]);
    assert_eq!(image.get_pixel(0, 0), 4);
    assert_eq!(image.get_pixel(1, 2), 6);
    assert_eq!(image.get_pixel(0, 1), 9);
    assert_eq!(image.get_pixel(1, 0), 9);
}

#[test]
fn tile_size_does_not_change_the_image() {
    let (width, height) = (300usize, 70usize);
    let small = render_tiled(width, height, 32, 0u32, &pattern);
    let large = render_tiled(width, height, 256, 0u32, &pattern);
    let single = render_tiled(width, height, 1, 0u32, &pattern);
    for row in 0..height {
        for col in 0..width {
            assert_eq!(small.get_pixel(row, col), pattern(row, col));
            assert_eq!(large.get_pixel(row, col), small.get_pixel(row, col));
            assert_eq!(single.get_pixel(row, col), small.get_pixel(row, col));
        }
    }
}

#[test]
fn rows_and_tiles_give_the_same_image() {
    let (width, height) = (41usize, 29usize);
    let rows = render_rows(width, height, 0u32, &pattern);
    let tiles = render_tiled(width, height, 16, 0u32, &pattern);
    assert_eq!((rows.width(), rows.height()), (width, height));
    for row in 0..height {
        for col in 0..width {
            assert_eq!(rows.get_pixel(row, col), pattern(row, col));
            assert_eq!(rows.get_pixel(row, col), tiles.get_pixel(row, col));
        }
    }
}

#[test]
fn render_tiled_shades_each_pixel_once() {
    let calls = Cell::new(0usize);
    let image = render_tiled(10, 7, 4, 0u32, &|row: usize, col: usize| {
        calls.set(calls.get() + 1);
        pattern(row, col)
    });
    assert_eq!(calls.get(), 70);
    assert_eq!((image.width(), image.height()), (10, 7));
}

#[test]
fn image_starts_filled_and_keeps_other_pixels() {
    let mut image: Image<u8> = Image::new(4, 3, 7);
    assert_eq!((image.width(), image.height()), (4, 3));
    image.set_pixel(200, 2, 1);
    for row in 0..3 {
        for col in 0..4 {
            let expected = if (row, col) == (2, 1) { 200 } else { 7 };
            assert_eq!(image.get_pixel(row, col), expected);
        }
    }
}

#[test]
fn ext_image_reads_pixel_triplets() {
    let data: Vec<u8> = (0..18).collect();
    let picture = ExtImage::from_raw(3, 2, data).unwrap();
    assert_eq!((picture.width(), picture.height()), (3, 2));
    assert_eq!(picture.pixel_data(0, 0), [0, 1, 2]);
    assert_eq!(picture.pixel_data(2, 0), [6, 7, 8]);
    assert_eq!(picture.pixel_data(1, 1), [12, 13, 14]);
    assert!(ExtImage::from_raw(3, 2, vec![0; 17]).is_none());
    assert!(ExtImage::from_raw(usize::MAX, 2, vec![0; 6]).is_none());
    assert!(ExtImage::from_raw(0, 5, Vec::new()).is_some());
}

#[test]
fn decimal_digits() {
    let mut out = vec![b'x'];
    push_decimal(&mut out, 0);
    push_decimal(&mut out, 7);
    push_decimal(&mut out, 10);
    push_decimal(&mut out, 255);
    push_decimal(&mut out, 40961);
    assert_eq!(out, b"x071025540961".to_vec());
}

#[test]
fn color_text_is_three_numbers() {
    assert_eq!(Color::new(0, 128, 255).as_u8_string(), b"0 128 255".to_vec());
    assert_eq!(Color::black().as_u8_string(), b"0 0 0".to_vec());
    assert_eq!(Color::white().as_u8_string(), b"255 255 255".to_vec());
}

#[test]
fn ppm_text_has_header_and_pixels() {
    let mut image: Image<Color> = Image::new(2, 2, Color::black());
    image.set_pixel(Color::new(255, 0, 0), 0, 0);
    image.set_pixel(Color::new(0, 255, 0), 0, 1);
    image.set_pixel(Color::new(0, 0, 255), 1, 0);
    image.set_pixel(Color::new(12, 34, 56), 1, 1);
    let mut expected = vec![b'P', b'3', b'\n'];
    expected.extend_from_slice(b"2 2\n255\n255 0 0 0 255 0 0 0 255 12 34 56 ");
    assert_eq!(to_ppm(&image), expected);
    let empty: Image<Color> = Image::new(0, 0, Color::black());
    let mut bare = vec![b'P', b'3', b'\n'];
    bare.extend_from_slice(b"0 0\n255\n");
    assert_eq!(to_ppm(&empty), bare);
}

#[test]
fn path_stops_at_depth() {
    let end = ray_color(0u32, 5, &|n: u32| (n + 1, Bounce::Scattered));
    assert_eq!(end, 5);
}

#[test]
fn path_stops_when_it_ends() {
    let end = ray_color(0u32, 50, &|n: u32| {
        if n == 2 {
            (n + 10, Bounce::Ended)
        } else {
            (n + 1, Bounce::Scattered)
        }
    });
    assert_eq!(end, 12);
}

#[test]
fn path_of_no_bounces_is_its_start() {
    let end = ray_color(41u32, 0, &|n: u32| (n + 1, Bounce::Ended));
    assert_eq!(end, 41);
}

#[test]
fn pixel_index_stops_at_the_last_place() {
    assert_eq!(pixel_index(0, 10), 0);
    assert_eq!(pixel_index(9, 10), 9);
    assert_eq!(pixel_index(10, 10), 9);
    assert_eq!(pixel_index(usize::MAX, 10), 9);
    assert_eq!(pixel_index(0, 1), 0);
    assert_eq!(pixel_index(5, 1), 0);
}

#[test]
fn pixel_seed_follows_the_pixel_number() {
    assert_eq!(SEED_STEP, 0x9e37_79b9_7f4a_7c15);
    assert_eq!(pixel_seed(0, 400, 0, 0), 0);
    assert_eq!(pixel_seed(5, 400, 0, 0), 5);
    assert_eq!(pixel_seed(5, 400, 0, 1), 0x9e37_79b9_7f4a_7c10);
    assert_eq!(pixel_seed(0, 400, 1, 0), 0x36ae_31d6_e461_e0d0);
    assert_eq!(pixel_seed(u64::MAX, 400, 3, 7), 0x0871_1668_d7d0_f8fc);
    assert_eq!(pixel_seed(9, 1 << 32, 1 << 32, 0), 9);
    assert_eq!(pixel_seed(9, 1 << 32, 1 << 32, 1), 9 ^ SEED_STEP);
}

#[test]
fn pixel_seeds_differ_between_pixels() {
    let mut seen = std::collections::HashSet::new();
    for row in 0..40usize {
        for col in 0..60usize {
            assert!(seen.insert(pixel_seed(0x2545_f491_4f6c_dd1d, 60, row, col)));
        }
    }
}

#[test]
fn path_never_gains_energy() {
    let background = 800u64;
    for leaves_after in 0..12u32 {
        for depth in 0..12usize {
            let bounce = |state: (u64, u64, u32)| {
                let (gathered, weight, bounces) = state;
                if bounces == leaves_after {
                    ((gathered + weight * background / 1000, weight, bounces), Bounce::Ended)
                } else {
                    ((gathered, weight * 500 / 1000, bounces + 1), Bounce::Scattered)
                }
            };
            let (gathered, weight, _) = ray_color((0u64, 1000u64, 0u32), depth, &bounce);
            assert!(gathered <= background);
            assert!(weight <= 1000);
            if depth <= leaves_after as usize {
                assert_eq!(gathered, 0);
            } else {
                assert_eq!(gathered, (1000u64 >> leaves_after) * background / 1000);
            }
        }
    }
}
