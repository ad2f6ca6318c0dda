use wasm_blur::clahe::{clahe, clahe_and_downscale, ClaheError};
use wasm_blur::histogram::{build_mapping_table, clip_and_redistribute, rect_histogram, CLIP_SCALE};

const SCALE: i64 = CLIP_SCALE as i64;

#[test]
fn flat_image_is_unchanged_without_clipping() {
    let img = vec![128u8; 64];
    let out = clahe(&img, 8, 8, 2, 2, 0).unwrap();
    assert_eq!(out, vec![128u8; 64]);
}

#[test]
fn flat_image_is_unchanged_when_the_cap_covers_the_tile() {
    let img = vec![128u8; 64];
    let out = clahe(&img, 8, 8, 2, 2, 256 * SCALE).unwrap();
    assert_eq!(out, vec![128u8; 64]);
    let out = clahe(&img, 8, 8, 2, 2, -3 * SCALE).unwrap();
    assert_eq!(out, vec![128u8; 64]);
}

#[test]
fn flat_image_with_a_small_cap_spreads_its_counts() {
    // The cap is max(1, 2 * 16 / 256) = 1: the single full bin loses 15 counts
    // to bins 0..15, so the flat value lands at the top of the distribution.
    let img = vec![128u8; 64];
    let out = clahe(&img, 8, 8, 2, 2, 2 * SCALE).unwrap();
    assert_eq!(out, vec![255u8; 64]);
}

#[test]
fn global_equalization_of_four_levels() {
    let img: Vec<u8> = vec![0, 0, 85, 85, 170, 170, 255, 255, 0, 0, 85, 85, 170, 170, 255, 255];
    let out = clahe(&img, 4, 4, 1, 1, 0).unwrap();
    assert_eq!(out, img);
    let mut levels: Vec<u8> = out.clone();
    levels.sort();
    levels.dedup();
    assert_eq!(levels, vec![0, 85, 170, 255]);
}

#[test]
fn rounding_of_a_half_goes_up() {
    let img: Vec<u8> = vec![10, 20, 30];
    let out = clahe(&img, 3, 1, 1, 1, 0).unwrap();
    assert_eq!(out, vec![0, 128, 255]);
}

#[test]
fn neighbouring_tiles_are_blended() {
    let img: Vec<u8> = vec![0, 100, 100, 200];
    let out = clahe(&img, 4, 1, 2, 1, 0).unwrap();
    assert_eq!(out, vec![0, 255, 128, 255]);
}

#[test]
fn flat_image_downscaled_stays_flat() {
    let img = vec![128u8; 100 * 100];
    let out = clahe_and_downscale(&img, 100, 100, 50, 50, 4, 4, 0).unwrap();
    assert_eq!(out, vec![128u8; 50 * 50]);
    // A cap of 300 * 660 / 256 = 773 covers the largest tile (34 by 20 pixels).
    let out = clahe_and_downscale(&img, 100, 100, 30, 70, 3, 5, 300 * SCALE).unwrap();
    assert_eq!(out, vec![128u8; 30 * 70]);
}

#[test]
fn downscale_samples_the_nearest_source_pixel() {
    let img: Vec<u8> = (0..16u8).map(|i| i * 16).collect();
    let out = clahe_and_downscale(&img, 4, 4, 2, 2, 1, 1, 0).unwrap();
    assert_eq!(out, vec![85, 119, 221, 255]);
}

#[test]
fn downscale_to_the_same_size_is_plain_equalization() {
    let img: Vec<u8> = (0..48u32).map(|i| ((i * 37 + 11) % 256) as u8).collect();
    let clip = 3 * SCALE / 2;
    let full = clahe(&img, 8, 6, 3, 2, clip).unwrap();
    let same = clahe_and_downscale(&img, 8, 6, 8, 6, 3, 2, clip).unwrap();
    assert_eq!(full, same);
    let larger = clahe_and_downscale(&img, 8, 6, 20, 9, 3, 2, clip).unwrap();
    assert_eq!(full, larger);
}

#[test]
fn no_clip_matches_unclipped_equalization() {
    let img: Vec<u8> = (0..64u32).map(|i| ((i * i * 7 + 3) % 256) as u8).collect();
    let a = clahe(&img, 8, 8, 2, 2, 0).unwrap();
    let b = clahe(&img, 8, 8, 2, 2, -SCALE).unwrap();
    assert_eq!(a, b);
    // A cap above every bin cuts nothing either.
    let c = clahe(&img, 8, 8, 2, 2, 1000 * SCALE).unwrap();
    assert_eq!(a, c);
}

#[test]
fn wrong_buffer_length_is_refused() {
    let img = vec![0u8; 10];
    assert_eq!(clahe(&img, 4, 4, 2, 2, 0), Err(ClaheError::InvalidBufferLength));
    assert_eq!(clahe_and_downscale(&img, 4, 4, 2, 2, 2, 2, 0), Err(ClaheError::InvalidBufferLength));
}

#[test]
fn bad_dimensions_are_refused() {
    let img = vec![0u8; 16];
    assert_eq!(clahe(&img, 4, 4, 0, 2, 0), Err(ClaheError::InvalidDimensions));
    assert_eq!(clahe(&img, 4, 4, 5, 1, 0), Err(ClaheError::InvalidDimensions));
    assert_eq!(clahe(&[], 0, 0, 1, 1, 0), Err(ClaheError::InvalidDimensions));
    assert_eq!(clahe_and_downscale(&img, 4, 4, 0, 2, 2, 2, 0), Err(ClaheError::InvalidDimensions));
    assert_eq!(clahe_and_downscale(&img, 4, 4, 2, 2, 2, 9, 0), Err(ClaheError::InvalidDimensions));
}

#[test]
fn redistribution_keeps_the_total() {
    let mut hist = vec![0u128; 256];
    hist[5] = 300;
    clip_and_redistribute(&mut hist, 10);
    assert_eq!(hist.iter().sum::<u128>(), 300);
    assert_eq!(hist[0], 2);
    assert_eq!(hist[5], 12);
    assert_eq!(hist[33], 2);
    assert_eq!(hist[34], 1);
    assert_eq!(hist[255], 1);
}

#[test]
fn tile_histogram_counts_every_pixel_once() {
    let img: Vec<u8> = (0..30u8).map(|i| i % 4).collect();
    let hist = rect_histogram(&img, 6, 1, 4, 2, 5);
    assert_eq!(hist.iter().sum::<u128>(), 9);
    let mut expected = vec![0u128; 256];
    for y in 2..5usize {
        for x in 1..4usize {
            expected[img[y * 6 + x] as usize] += 1;
        }
    }
    assert_eq!(hist, expected);
}

#[test]
fn tables_never_decrease() {
    let mut hist = vec![0u128; 256];
    for (i, h) in hist.iter_mut().enumerate() {
        *h = ((i * 31 + 7) % 13) as u128;
    }
    let total: u128 = hist.iter().sum();
    let table = build_mapping_table(&hist, total);
    for i in 1..256 {
        assert!(table[i - 1] <= table[i]);
    }
    assert_eq!(table[255], 255);
}

#[test]
fn single_level_histogram_gives_identity_table() {
    let mut hist = vec![0u128; 256];
    hist[77] = 40;
    let table = build_mapping_table(&hist, 40);
    let identity: Vec<u8> = (0..=255u8).collect();
    assert_eq!(table, identity);
}
