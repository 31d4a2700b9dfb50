use patsolve::driver::{append_reversed, commit_batch, solve};
use patsolve::memo::Memo;
use patsolve::search::solve_brute;
use patsolve::types::{Pat, Sol};

fn pat(s: &[u8], rle: bool) -> Pat {
    Pat { s: s.to_vec(), rle }
}

#[test]
fn three_distinct_bytes_stay_as_they_are() {
    for k in 1..=9usize {
        let sol = solve(b"abc", k);
        assert_eq!(sol, Sol { res: b"abc".to_vec(), pats: vec![], bytes: 3 });
    }
}

#[test]
fn driver_cost_is_never_above_the_raw_length() {
    let inputs: [&[u8]; 6] = [
        b"",
        b"a",
        b"aaaa",
        b"abcabcabcabc",
        b"xyxyxyxyzzzzzzzzxyxy",
        b"hello hello hello hello",
    ];
    for s in inputs.iter() {
        for k in 1..=8usize {
            let sol = solve(s, k);
            assert!(sol.bytes <= s.len() as isize);
            assert_eq!(sol.bytes, s.len() as isize);
        }
    }
}

#[test]
fn full_horizon_matches_one_exact_search() {
    let inputs: [&[u8]; 6] = [
        b"aaaa",
        b"abcabcabcabc",
        b"abcabcabcabcxyzxyzxyzxyz",
        b"xyxyxyxyzzzzzzzzxyxy",
        b"hello hello hello hello",
        b"abcdabcdabcdabcd1212121212",
    ];
    for s in inputs.iter() {
        for k in [8usize, 9, 100, usize::MAX] {
            let batched = solve(s, k);
            let exact = solve_brute(0, 0, 8, s);
            let mut in_order = exact.pats.clone();
            in_order.reverse();
            assert_eq!(batched.res, exact.res);
            assert_eq!(batched.pats, in_order);
        }
    }
}

#[test]
fn driver_lists_patterns_in_application_order() {
    let sol = solve(b"abcabcabcabcxyzxyzxyzxyz", 8);
    assert_eq!(
        sol,
        Sol {
            res: b"$$".to_vec(),
            pats: vec![pat(b"abc", true), pat(b"xyz", true)],
            bytes: 24,
        }
    );
}

#[test]
fn driver_with_small_batches_chains_them() {
    let sol = solve(b"xyxyxyxyzzzzzzzzxyxy", 1);
    assert_eq!(
        sol,
        Sol {
            res: b"$$$".to_vec(),
            pats: vec![pat(b"xyxy", false), pat(b"z", true)],
            bytes: 20,
        }
    );
}

#[test]
fn driver_with_zero_increment_commits_nothing() {
    let sol = solve(b"abcabcabcabc", 0);
    assert_eq!(sol, Sol { res: b"abcabcabcabc".to_vec(), pats: vec![], bytes: 12 });
}

#[test]
fn increment_of_one_commits_one_pattern_at_a_time() {
    let inputs: [&[u8]; 4] = [
        b"abcabcabcabcxyzxyzxyzxyz",
        b"xyxyxyxyzzzzzzzzxyxy",
        b"abcdabcdabcdabcd1212121212",
        b"abc",
    ];
    for s in inputs.iter() {
        let mut memo = Memo::new();
        let mut result = Sol { res: s.to_vec(), pats: vec![], bytes: s.len() as isize };
        let mut iterations = 0;
        while result.pats.len() < 8 {
            iterations += 1;
            let before = result.pats.len();
            let more = commit_batch(&mut memo, &mut result, 1);
            assert!(result.pats.len() <= before + 1);
            assert_eq!(more, result.pats.len() == before + 1);
            if !more {
                break;
            }
        }
        assert!(iterations <= 8);
        assert_eq!(result, solve(s, 1));
    }
}

#[test]
fn a_batch_that_finds_nothing_changes_nothing() {
    let mut memo = Memo::new();
    let mut result = Sol { res: b"abc".to_vec(), pats: vec![], bytes: 3 };
    assert!(!commit_batch(&mut memo, &mut result, 3));
    assert_eq!(result, Sol { res: b"abc".to_vec(), pats: vec![], bytes: 3 });
}

#[test]
fn a_batch_stops_at_eight_patterns() {
    let mut memo = Memo::new();
    let seven: Vec<Pat> = (0..7).map(|_| pat(b"q", false)).collect();
    let mut result =
        Sol { res: b"abcabcabcabcxyzxyzxyzxyz".to_vec(), pats: seven, bytes: 0 };
    let more = commit_batch(&mut memo, &mut result, 5);
    assert!(more);
    assert_eq!(result.pats.len(), 8);
    assert_eq!(result.bytes, 0);
}

#[test]
fn append_reversed_turns_the_batch_round() {
    let mut dst = vec![pat(b"a", false)];
    append_reversed(&mut dst, vec![pat(b"b", true), pat(b"c", false), pat(b"d", true)]);
    assert_eq!(
        dst,
        vec![pat(b"a", false), pat(b"d", true), pat(b"c", false), pat(b"b", true)]
    );
}
