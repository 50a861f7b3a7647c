use vector_example1::timing::timeit;

#[test]
fn timeit_returns_what_the_work_returned() {
    let mut calls = 0u32;
    let (value, elapsed) = timeit("sum", || {
        calls += 1;
        (1..=100u64).sum::<u64>()
    });
    assert_eq!(value, 5050);
    assert_eq!(calls, 1);
    assert!(elapsed.as_nanos() < 60_000_000_000);
}
