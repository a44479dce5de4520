use rust_compute::blur::box_blur;

#[test]
fn test_blur_output_size() {
    let input = vec![255u8; 100 * 100 * 4];
    let result = box_blur(&input, 100, 100, 3);
    assert_eq!(result.len(), input.len());
}

#[test]
fn blur_of_flat_image_is_flat() {
    let input = vec![255u8; 10 * 10 * 4];
    assert!(box_blur(&input, 10, 10, 3).iter().all(|&b| b == 255));
}

#[test]
fn blur_radius_zero_is_identity() {
    let input: Vec<u8> = (0..36).map(|i| (i * 7) as u8).collect();
    assert_eq!(box_blur(&input, 3, 3, 0), input);
}

#[test]
fn blur_averages_with_clamped_edges() {
    // One row of three pixels, red channel 0, 30, 90.
    let input = vec![0, 0, 0, 0, 30, 0, 0, 0, 90, 0, 0, 0];
    let out = box_blur(&input, 3, 1, 1);
    // Left: rows repeat, so (0+0+30)*3 / 9 = 10; middle: 120*3/9 = 40;
    // right: (30+90+90)*3 / 9 = 70.
    assert_eq!(out[0], 10);
    assert_eq!(out[4], 40);
    assert_eq!(out[8], 70);
}

#[test]
fn blur_zeroes_bytes_past_the_image() {
    let input = vec![9u8; 4 + 3];
    assert_eq!(box_blur(&input, 1, 1, 2), vec![9, 9, 9, 9, 0, 0, 0]);
}

#[test]
fn blur_of_empty_image_is_zero() {
    assert_eq!(box_blur(&[5, 5], 0, 7, 1), vec![0, 0]);
}
