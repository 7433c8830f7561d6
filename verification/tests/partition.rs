use scicomp::partition::rank_rows;

#[test]
fn rows_are_shared_out_evenly() {
    assert_eq!(rank_rows(10, 3, 0), (0, 4));
    assert_eq!(rank_rows(10, 3, 1), (4, 3));
    assert_eq!(rank_rows(10, 3, 2), (7, 3));
    assert_eq!(rank_rows(8, 4, 3), (6, 2));
    assert_eq!(rank_rows(2, 4, 3), (2, 0));
}

#[test]
fn ranks_tile_the_image() {
    for height in 0..40 {
        for size in 1..9 {
            let mut next = 0;
            for rank in 0..size {
                let (start, rows) = rank_rows(height, size, rank);
                assert_eq!(start, next);
                next = start + rows;
            }
            assert_eq!(next, height);
        }
    }
}
