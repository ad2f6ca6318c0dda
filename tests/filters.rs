use wasm_blur::morphology::{dilate, erode, morphological_close};
use wasm_blur::threshold::adaptive_threshold;

#[test]
fn threshold_compares_with_blur_minus_offset() {
    let input: Vec<u8> = vec![10, 50, 15, 16];
    let blurred: Vec<u8> = vec![20, 20, 20, 20];
    assert_eq!(adaptive_threshold(&input, &blurred, 2, 2, 5, false), vec![0, 255, 0, 255]);
    assert_eq!(adaptive_threshold(&input, &blurred, 2, 2, 5, true), vec![255, 0, 255, 0]);
    assert_eq!(adaptive_threshold(&input, &blurred, 2, 2, -100, false), vec![0, 0, 0, 0]);
}

#[test]
fn erode_spreads_a_dark_pixel() {
    let mut img = vec![255u8; 9];
    img[4] = 0;
    assert_eq!(erode(&img, 3, 3, 3), vec![0u8; 9]);
    assert_eq!(erode(&img, 3, 3, 1), img);
}

#[test]
fn erode_clamps_at_the_edges() {
    let img: Vec<u8> = vec![9, 5, 7, 3, 8];
    assert_eq!(erode(&img, 5, 1, 3), vec![5, 5, 3, 3, 3]);
}

#[test]
fn dilate_spreads_a_bright_pixel() {
    let mut img = vec![0u8; 25];
    img[12] = 255;
    let out = dilate(&img, 5, 5, 3);
    for y in 0..5usize {
        for x in 0..5usize {
            let near = (1..=3).contains(&x) && (1..=3).contains(&y);
            assert_eq!(out[y * 5 + x], if near { 255 } else { 0 });
        }
    }
}

#[test]
fn close_fills_a_one_pixel_gap() {
    let img: Vec<u8> = vec![255, 255, 0, 255, 255];
    assert_eq!(morphological_close(&img, 5, 1, 3, 1), vec![255u8; 5]);
    assert_eq!(morphological_close(&img, 5, 1, 3, 0), img);
}

use wasm_blur::unsharp::{box_blur, window_sum};

#[test]
fn box_blur_takes_truncated_means() {
    let img: Vec<u8> = vec![0, 30, 60];
    assert_eq!(box_blur(&img, 3, 1, 1), vec![10, 30, 50]);
    assert_eq!(box_blur(&img, 3, 1, 0), img);
    let img: Vec<u8> = vec![0, 0, 0, 0, 90, 0, 0, 0, 0];
    assert_eq!(box_blur(&img, 3, 3, 1), vec![10, 10, 10, 10, 10, 10, 10, 10, 10]);
}

#[test]
fn window_sum_clamps_at_the_edges() {
    let img: Vec<u8> = vec![1, 2, 3, 4];
    assert_eq!(window_sum(&img, 2, 2, 0, 0, 1), 18);
    assert_eq!(window_sum(&img, 2, 2, 1, 1, 0), 4);
}
