use scicomp::hexscan::{grid_bounds, label_char, label_of_char, need_rotate_90, row_label};

fn grid(rows: u32, cols: u32, dx: u32, dy: u32) -> Vec<(u32, u32, u32, u32)> {
    let mut boxes = Vec::new();
    for r in 0..rows {
        for c in 0..cols {
            let x = 10 + c * dx;
            let y = 10 + r * dy;
            boxes.push((x, y, x + 20, y + 20));
        }
    }
    boxes
}

#[test]
fn upright_page_is_not_rotated() {
    // lines of characters 40 px apart horizontally, 100 px apart vertically
    assert!(!need_rotate_90(&grid(8, 10, 40, 100)));
}

#[test]
fn sideways_page_is_rotated() {
    assert!(need_rotate_90(&grid(10, 8, 100, 40)));
}

#[test]
fn few_boxes_never_rotate() {
    assert!(!need_rotate_90(&grid(7, 7, 100, 40)));
}

#[test]
fn labels_of_file_names() {
    assert_eq!(label_of_char('0'), Some(0));
    assert_eq!(label_of_char('9'), Some(9));
    assert_eq!(label_of_char('A'), Some(10));
    assert_eq!(label_of_char('F'), Some(15));
    assert_eq!(label_of_char('G'), None);
    assert_eq!(label_of_char('a'), None);
}

#[test]
fn labels_of_classes_and_rows() {
    assert_eq!(label_char(0), '0');
    assert_eq!(label_char(11), 'B');
    assert_eq!(label_char(16), '?');
    let rows: String = (0..16).map(row_label).collect();
    assert_eq!(rows, "1234567890ABCDEF");
}

#[test]
fn swapping_axes_exchanges_the_rotation_votes() {
    // 60 boxes stacked in one column, 40 pixels apart
    let column: Vec<(u32, u32, u32, u32)> = (0..60).map(|k| (10, 40 * k, 20, 40 * k + 10)).collect();
    let swapped: Vec<(u32, u32, u32, u32)> = column.iter().map(|b| (b.1, b.0, b.3, b.2)).collect();
    assert!(need_rotate_90(&column));
    assert!(!need_rotate_90(&swapped));
}

#[test]
fn grid_bounds_skip_five_percent_at_each_end() {
    let v: Vec<u32> = (0..40).collect();
    assert_eq!(grid_bounds(&v), (2, 37));
    assert_eq!(grid_bounds(&vec![7]), (7, 7));
}
