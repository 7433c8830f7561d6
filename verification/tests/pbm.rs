use scicomp::pbm::{black_count, cell_file_name, char_cell, dark_pixels, parse_pbm, pbm_text, split_file_name, Bitmap, PbmError};

#[test]
fn a_bitmap_is_read() {
    let bm = parse_pbm("P1\n# made by hand\n\n3 2\n1 0 1\n0 x 1 0\n").unwrap();
    assert_eq!((bm.width, bm.height), (3, 2));
    assert_eq!(bm.pixels, vec![1, 0, 1, 0, 1, 0]);
}

#[test]
fn bitmap_faults() {
    assert_eq!(parse_pbm("P2\n1 1\n1\n").unwrap_err(), PbmError::NotP1);
    assert_eq!(parse_pbm("").unwrap_err(), PbmError::NotP1);
    assert_eq!(parse_pbm("P1\n# only a comment\n").unwrap_err(), PbmError::NoDimensions);
    assert_eq!(parse_pbm("P1\n3 a\n").unwrap_err(), PbmError::BadDimension);
    assert_eq!(parse_pbm("P1\n3\n").unwrap_err(), PbmError::DimensionCount);
    assert_eq!(parse_pbm("P1\n2 2\n1 0 1\n").unwrap_err(), PbmError::PixelCount);
    assert_eq!(parse_pbm("P1\n18446744073709551615 2\n").unwrap_err(), PbmError::SizeOverflow);
}

#[test]
fn a_bitmap_is_written() {
    assert_eq!(pbm_text(2, 2, &vec![1, 0, 0, 1]), "P1\n2 2\n1 0 \n0 1 \n");
    assert_eq!(pbm_text(0, 0, &vec![]), "P1\n0 0\n");
    let back = parse_pbm(&pbm_text(3, 1, &vec![0, 1, 1])).unwrap();
    assert_eq!((back.width, back.height, back.pixels), (3, 1, vec![0, 1, 1]));
}

#[test]
fn dark_grey_counts_as_black() {
    assert_eq!(dark_pixels(&vec![0, 179, 180, 255]), vec![1, 1, 0, 0]);
}

#[test]
fn cells_of_a_small_page() {
    // a 30 x 16 page has one pixel per cell
    let mut pixels = vec![0u8; 30 * 16];
    pixels[2 * 30 + 5] = 1;
    let page = Bitmap { width: 30, height: 16, pixels };
    let cell = char_cell(&page, 2, 5);
    assert_eq!(cell.len(), 128 * 128);
    assert_eq!(black_count(&cell), 128 * 128);
    assert_eq!(black_count(&char_cell(&page, 0, 0)), 0);
}

#[test]
fn cells_are_scaled_by_nearest_neighbour() {
    // a 60 x 32 page has 2 x 2 pixels per cell; cell (0, 0) has its top left pixel black
    let mut pixels = vec![0u8; 60 * 32];
    pixels[0] = 1;
    let page = Bitmap { width: 60, height: 32, pixels };
    let cell = char_cell(&page, 0, 0);
    assert_eq!(black_count(&cell), 64 * 64);
    assert_eq!(cell[0], 1);
    assert_eq!(cell[63], 1);
    assert_eq!(cell[64], 0);
    assert_eq!(cell[64 * 128], 0);
}

#[test]
fn file_names() {
    assert_eq!(cell_file_name('A', 4), "output/A05.pbm");
    assert_eq!(cell_file_name('1', 29), "output/130.pbm");
    assert_eq!(split_file_name('F', 42), "data/split/F_00042.pbm");
    assert_eq!(split_file_name('0', 123456), "data/split/0_123456.pbm");
}
