use patsolve::cost::{count_cost, count_literals, segment_overhead, FAKE, MAX_PATTERNS};

#[test]
fn tier_cost_has_the_four_steps() {
    let expected: [isize; 9] = [0, 1, 1, 2, 2, 3, 3, 3, 3];
    for n in 0..=8usize {
        assert_eq!(count_cost(n), expected[n]);
    }
}

#[test]
fn tier_cost_never_falls() {
    for n in 0..MAX_PATTERNS {
        assert!(count_cost(n) <= count_cost(n + 1));
    }
}

#[test]
fn tier_cost_rises_exactly_at_one_three_and_five() {
    let mut rises: Vec<usize> = Vec::new();
    for n in 1..=MAX_PATTERNS {
        if count_cost(n) > count_cost(n - 1) {
            rises.push(n);
        }
    }
    assert_eq!(rises, vec![1, 3, 5]);
}

#[test]
fn placeholder_is_the_dollar_byte() {
    assert_eq!(FAKE, 0x24);
    assert_eq!(FAKE, b'$');
}

#[test]
fn literal_count_skips_placeholders() {
    assert_eq!(count_literals(b""), 0);
    assert_eq!(count_literals(b"abc"), 3);
    assert_eq!(count_literals(b"$"), 0);
    assert_eq!(count_literals(b"a$b$$c"), 3);
}

#[test]
fn segment_overhead_is_the_difference_of_the_tiers() {
    assert_eq!(segment_overhead(0, 0), 0);
    assert_eq!(segment_overhead(0, 1), 1);
    assert_eq!(segment_overhead(2, 3), 1);
    assert_eq!(segment_overhead(2, 2), 0);
    assert_eq!(segment_overhead(0, 8), 3);
    assert_eq!(segment_overhead(5, 8), 0);
    assert_eq!(segment_overhead(8, 0), -3);
}
