use scicomp::mtx::{parse_mtx, parse_mtx_strict, MtxFault, MtxLayout};

fn adds(l: &MtxLayout) -> Vec<(usize, usize, Option<String>)> {
    l.entries.iter().map(|e| (e.row, e.col, e.value.clone())).collect()
}

const SAMPLE: &str = "%%MatrixMarket matrix coordinate real symmetric\n% a comment\n3 3 4\n1 1 4.0\n2 1 1.5\n3 3 2\n4 1 9\n";

#[test]
fn entries_are_mirrored_off_the_diagonal() {
    let expected = vec![
        (0, 0, Some("4.0".to_string())),
        (1, 0, Some("1.5".to_string())),
        (0, 1, Some("1.5".to_string())),
        (2, 2, Some("2".to_string())),
    ];
    let l = parse_mtx(SAMPLE).unwrap();
    assert_eq!((l.rows, l.cols), (3, 3));
    assert_eq!(adds(&l), expected);
    let l = parse_mtx_strict(SAMPLE).unwrap();
    assert_eq!(adds(&l), expected);
}

#[test]
fn missing_values_and_missing_lines() {
    let l = parse_mtx("2 2 5\n1 2\n").unwrap();
    assert_eq!(adds(&l), vec![(0, 1, None), (1, 0, None)]);
    let l = parse_mtx("2 2\n1 2 3\n").unwrap();
    assert!(l.entries.is_empty());
}

#[test]
fn zero_indices() {
    let l = parse_mtx("2 2 1\n0 1 5\n").unwrap();
    assert!(l.entries.is_empty());
    let e = parse_mtx_strict("2 2 1\n0 1 5\n").unwrap_err();
    assert_eq!(e.fault, MtxFault::ZeroIndex);
    assert_eq!(e.token, "0");
}

#[test]
fn size_line_faults() {
    assert_eq!(parse_mtx("").unwrap_err().fault, MtxFault::MissingDimensions);
    assert_eq!(parse_mtx_strict("").unwrap_err().fault, MtxFault::MissingDimensions);
    assert_eq!(parse_mtx("%a\n%b\n").unwrap_err().fault, MtxFault::MissingDimensions);
    let e = parse_mtx_strict("%a\n%b\n").unwrap_err();
    assert_eq!(e.fault, MtxFault::BadNumber);
    assert_eq!(e.token, "%b");
    let e = parse_mtx("2 2 x\n").unwrap_err();
    assert_eq!(e.fault, MtxFault::BadNumber);
    assert_eq!(e.token, "x");
    assert_eq!(parse_mtx("7\n").unwrap_err().fault, MtxFault::MissingDimensions);
    assert_eq!(parse_mtx_strict("7\n").unwrap_err().fault, MtxFault::MissingDimensions);
    assert_eq!(parse_mtx_strict("y\n").unwrap_err().fault, MtxFault::BadNumber);
    let e = parse_mtx("2 2 1\n1 -1\n").unwrap_err();
    assert_eq!(e.fault, MtxFault::BadNumber);
    assert_eq!(e.token, "-1");
}
