use workpool::grayscale::grayscale_pixels;

#[test]
fn red_pixel_gets_its_luma() {
    // 2126 * 255 / 10000 = 54: the conversion must not hand the pixel back
    let out = grayscale_pixels(vec![(3, 4, (255, 0, 0, 10))]);
    assert_eq!(out, vec![(3, 4, (54, 54, 54, 10))]);
}

#[test]
fn black_and_white_are_fixed_points() {
    let out = grayscale_pixels(vec![(0, 0, (0, 0, 0, 255)), (1, 0, (255, 255, 255, 255))]);
    assert_eq!(out[0].2, (0, 0, 0, 255));
    assert_eq!(out[1].2, (255, 255, 255, 255));
}

#[test]
fn coordinates_and_alpha_are_kept() {
    let out = grayscale_pixels(vec![(7, 9, (10, 200, 30, 128))]);
    assert_eq!(out[0].0, 7);
    assert_eq!(out[0].1, 9);
    assert_eq!(out[0].2 .3, 128);
    // 2126 * 10 + 7152 * 200 + 722 * 30 = 1473320; over 10000 that is 147
    assert_eq!(out[0].2 .0, 147);
}

#[test]
fn converts_every_pixel_of_a_chunk() {
    let chunk: Vec<(u32, u32, (u8, u8, u8, u8))> =
        (0..100u32).map(|i| (i, i + 1, (i as u8, (i * 2) as u8, (i * 3) as u8, 255))).collect();
    let out = grayscale_pixels(chunk.clone());
    assert_eq!(out.len(), 100);
    for (before, after) in chunk.iter().zip(out.iter()) {
        assert_eq!(before.0, after.0);
        assert_eq!(before.1, after.1);
        let (r, g, b, a) = before.2;
        let expected =
            ((2126 * r as u64 + 7152 * g as u64 + 722 * b as u64) / 10000) as u8;
        assert_eq!(after.2, (expected, expected, expected, a));
    }
}
