use scicomp::gates::{add4, fa, ma, merge4, merge8, mul4x4, split4};

/// Check addition for all allowed input values
#[test]
fn main_check_add() {
    for x in 0..=15 {
        for y in 0..=15 {
            let a = split4(x);
            let b = split4(y);
            let z = add4(a.0, a.1, a.2, a.3, b.0, b.1, b.2, b.3);
            if x + y > 15 {
                assert_eq!(z.4, true);
            } else {
                assert_eq!(z.4, false);
                let r = merge4(z.0, z.1, z.2, z.3);
                assert_eq!(x + y, r);
            }
        }
    }
}

/// Check multiplication for all allowed values
#[test]
fn main_check_mul() {
    for x in 0..=15 {
        for y in 0..=15 {
            let a = split4(x);
            let b = split4(y);
            let z = mul4x4(a.0, a.1, a.2, a.3, b.0, b.1, b.2, b.3);
            let r = merge8(z);
            assert_eq!(x * y, r);
        }
    }
}

/// Check addition for all allowed input values
#[test]
fn gates_check_add() {
    for x in 0..=15 {
        for y in 0..=15 {
            let a = split4(x);
            let b = split4(y);
            let z = add4(a.0, a.1, a.2, a.3, b.0, b.1, b.2, b.3);
            if x + y > 15 {
                assert_eq!(z.4, true);
            } else {
                assert_eq!(z.4, false);
                let r = merge4(z.0, z.1, z.2, z.3);
                assert_eq!(x + y, r);
            }
        }
    }
}

/// Check multiplication for all allowed values
#[test]
fn gates_check_mul() {
    for x in 0..=15 {
        for y in 0..=15 {
            let a = split4(x);
            let b = split4(y);
            let z = mul4x4(a.0, a.1, a.2, a.3, b.0, b.1, b.2, b.3);
            let r = merge8(z);
            assert_eq!(x * y, r);
        }
    }
}

#[test]
fn full_adder_truth_table() {
    assert_eq!(fa(false, false, false), (false, false));
    assert_eq!(fa(false, false, true), (true, false));
    assert_eq!(fa(false, true, false), (true, false));
    assert_eq!(fa(true, false, false), (true, false));
    assert_eq!(fa(false, true, true), (false, true));
    assert_eq!(fa(true, false, true), (false, true));
    assert_eq!(fa(true, true, false), (false, true));
    assert_eq!(fa(true, true, true), (true, true));
}

#[test]
fn multiply_cell_table() {
    assert_eq!(ma(false, true, false, false), (false, false));
    assert_eq!(ma(true, true, false, false), (true, false));
    assert_eq!(ma(true, true, true, false), (true, true));
    assert_eq!(ma(true, true, true, true), (false, true));
    assert_eq!(ma(true, true, false, true), (false, true));
    assert_eq!(ma(true, false, true, false), (true, false));
    assert_eq!(ma(false, false, true, true), (false, true));
}

#[test]
fn split_and_merge_round_trip() {
    for x in 0..16u8 {
        let b = split4(x);
        assert_eq!(merge4(b.0, b.1, b.2, b.3), x);
    }
    assert_eq!(split4(10), (false, true, false, true));
    assert_eq!(merge8((true, false, false, false, false, false, false, true)), 129);
}

#[test]
fn add4_of_fifteen_and_one_sets_the_carry() {
    let z = add4(true, true, true, true, true, false, false, false);
    assert_eq!(z, (false, false, false, false, true));
}
