use scicomp::fibonacci::{
    fib_iterative1, fib_iterative2, fib_iterative3, fib_iterative4, fib_iterative_asm, fib_recursive1,
    fib_recursive2,
};

#[test]
fn check_all() {
    let expected = [0, 1, 1, 2, 3, 5, 8, 13, 21, 34, 55];

    for i in 1..11 {
        assert_eq!(fib_iterative1(i), expected[i as usize]);
        assert_eq!(fib_iterative2(i), expected[i as usize]);
        assert_eq!(fib_iterative3(i), expected[i as usize]);
        assert_eq!(fib_iterative4(i), expected[i as usize]);
        assert_eq!(fib_iterative_asm(i), expected[i as usize]);
        assert_eq!(fib_recursive1(i), expected[i as usize]);
        assert_eq!(fib_recursive2(i), expected[i as usize]);
    }
}

#[test]
fn fib_at_zero() {
    assert_eq!(fib_iterative1(0), 0);
    assert_eq!(fib_iterative2(0), 0);
    assert_eq!(fib_iterative_asm(0), 0);
    // the variants that start from the first two numbers answer 1 for n = 0
    assert_eq!(fib_iterative3(0), 1);
    assert_eq!(fib_iterative4(0), 1);
    assert_eq!(fib_recursive1(0), 1);
    assert_eq!(fib_recursive2(0), 1);
}

#[test]
fn fib_large_values() {
    assert_eq!(fib_iterative1(92), 7540113804746346429);
    assert_eq!(fib_iterative2(92), 7540113804746346429);
    assert_eq!(fib_iterative3(93), 12200160415121876738);
    assert_eq!(fib_iterative4(92), 7540113804746346429);
    assert_eq!(fib_iterative_asm(93), 12200160415121876738);
}

#[test]
fn fib_asm_wraps_around() {
    // fib(94) = 19740274219868223167 = 2^64 + 1293530146158671551
    assert_eq!(fib_iterative_asm(94), 1293530146158671551);
}
