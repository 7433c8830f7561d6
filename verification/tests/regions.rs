use scicomp::regions::{find_components, GrayImage};

fn image(width: u32, height: u32, dark: &[(u32, u32, u32, u32)]) -> GrayImage {
    let mut pixels = vec![255u8; (width * height) as usize];
    for &(x0, y0, x1, y1) in dark {
        for y in y0..=y1 {
            for x in x0..=x1 {
                pixels[(y * width + x) as usize] = 100;
            }
        }
    }
    GrayImage { width, height, pixels }
}

#[test]
fn a_square_is_found_and_specks_are_dropped() {
    let img = image(40, 40, &[(3, 4, 14, 15), (30, 30, 31, 31)]);
    assert_eq!(find_components(&img), vec![(3, 4, 14, 15)]);
}

#[test]
fn regions_touching_at_a_corner_are_one() {
    // two 8 x 8 squares (64 pixels each) meet corner to corner: one region of 128
    let img = image(40, 40, &[(0, 0, 7, 7), (8, 8, 15, 15)]);
    assert_eq!(find_components(&img), vec![(0, 0, 15, 15)]);
    // apart, neither is large enough
    let img = image(40, 40, &[(0, 0, 7, 7), (9, 9, 16, 16)]);
    assert!(find_components(&img).is_empty());
}

#[test]
fn regions_come_in_the_order_of_their_first_pixel() {
    let img = image(60, 60, &[(40, 2, 51, 13), (1, 20, 12, 31), (20, 1, 31, 12)]);
    assert_eq!(find_components(&img), vec![(20, 1, 31, 12), (40, 2, 51, 13), (1, 20, 12, 31)]);
}

#[test]
fn very_large_regions_are_dropped() {
    let img = image(150, 150, &[(0, 0, 149, 149)]);
    assert!(find_components(&img).is_empty());
    let img = image(150, 150, &[(0, 0, 140, 140)]);
    assert_eq!(find_components(&img), vec![(0, 0, 140, 140)]);
}

#[test]
fn the_threshold_is_180() {
    let mut img = image(20, 20, &[(0, 0, 10, 10)]);
    assert_eq!(find_components(&img), vec![(0, 0, 10, 10)]);
    for p in img.pixels.iter_mut() {
        if *p == 100 {
            *p = 181;
        }
    }
    assert!(find_components(&img).is_empty());
    let mut img = image(20, 20, &[(0, 0, 10, 10)]);
    for p in img.pixels.iter_mut() {
        if *p == 100 {
            *p = 180;
        }
    }
    assert_eq!(find_components(&img), vec![(0, 0, 10, 10)]);
}
