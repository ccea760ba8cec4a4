use tcp_sans_io::loop_budget_exhausted;

/// Within budget the loop goes on, and every call is counted.
#[test]
fn returns_false_until_cap() {
    let mut iters = 0u32;
    for _ in 0..5 {
        assert!(!loop_budget_exhausted(&mut iters, 5, "test"));
    }
    assert_eq!(iters, 5);
}

/// Past the budget the loop is told to stop, every time.
#[test]
fn stops_past_the_cap() {
    let mut iters = 0u32;
    for turn in 1..=10u32 {
        assert_eq!(loop_budget_exhausted(&mut iters, 3, "test-loop"), turn > 3);
    }
}
