use patsolve::apply::apply_pattern;
use patsolve::memo::Memo;
use patsolve::search::{solve_brute, solve_brute_with};
use patsolve::types::{Pat, Sol};

fn pat(s: &[u8], rle: bool) -> Pat {
    Pat { s: s.to_vec(), rle }
}

#[test]
fn search_keeps_the_baseline_when_nothing_pays() {
    let sol = solve_brute(0, 0, 8, b"aaaa");
    assert_eq!(sol, Sol { res: b"aaaa".to_vec(), pats: vec![], bytes: 4 });
}

#[test]
fn search_finds_one_run_length_pattern() {
    let sol = solve_brute(0, 0, 8, b"abcabcabcabc");
    assert_eq!(sol, Sol { res: b"$".to_vec(), pats: vec![pat(b"abc", true)], bytes: 7 });
}

#[test]
fn search_cost_is_child_plus_pattern_plus_references() {
    // "a" eight times in one run: 0 literals left, table overhead 1,
    // pattern 1 byte, one run-length header of 3.
    let sol = solve_brute(0, 0, 8, b"aaaaaaaa");
    assert_eq!(sol, Sol { res: b"$".to_vec(), pats: vec![pat(b"a", true)], bytes: 5 });
}

#[test]
fn search_prefers_literal_references_for_scattered_matches() {
    let sol = solve_brute(0, 0, 8, b"hello hello hello hello");
    assert_eq!(sol, Sol { res: b"$ $ $ $".to_vec(), pats: vec![pat(b"hello", false)], bytes: 13 });
}

#[test]
fn search_lists_patterns_last_applied_first() {
    let sol = solve_brute(0, 0, 8, b"abcabcabcabcxyzxyzxyzxyz");
    assert_eq!(
        sol,
        Sol {
            res: b"$$".to_vec(),
            pats: vec![pat(b"xyz", true), pat(b"abc", true)],
            bytes: 13,
        }
    );
}

#[test]
fn search_at_the_ceiling_returns_the_baseline() {
    let sol = solve_brute(0, 3, 3, b"abcabcabcabc");
    assert_eq!(sol, Sol { res: b"abcabcabcabc".to_vec(), pats: vec![], bytes: 14 });
}

#[test]
fn baseline_charges_only_the_overhead_of_the_segment() {
    let sol = solve_brute(2, 3, 3, b"a$b");
    assert_eq!(sol.bytes, 2 + 2 - 1);
    let sol = solve_brute(5, 8, 8, b"$$");
    assert_eq!(sol.bytes, 0);
}

#[test]
fn search_respects_the_ceiling() {
    let sol = solve_brute(0, 0, 1, b"abcabcabcabcxyzxyzxyzxyz");
    assert_eq!(sol.pats.len(), 1);
    let sol = solve_brute(0, 0, 0, b"abcabcabcabcxyzxyzxyzxyz");
    assert_eq!(sol.pats.len(), 0);
    assert_eq!(sol.bytes, 24);
}

#[test]
fn search_never_spans_a_placeholder() {
    let sol = solve_brute(1, 1, 8, b"ab$ab$ab$ab");
    for p in sol.pats.iter() {
        assert!(!p.s.contains(&b'$'));
        assert!(p.s.len() >= 1 && p.s.len() <= 12);
    }
}

#[test]
fn search_on_empty_input_is_empty() {
    let sol = solve_brute(0, 0, 8, b"");
    assert_eq!(sol, Sol { res: vec![], pats: vec![], bytes: 0 });
}

#[test]
fn every_chosen_pattern_was_feasible_when_chosen() {
    let inputs: [&[u8]; 5] = [
        b"abcabcabcabcxyzxyzxyzxyz",
        b"xyxyxyxyzzzzzzzzxyxy",
        b"hello hello hello hello",
        b"aabaabaabaabccdccdccdccd",
        b"aaaa",
    ];
    for s in inputs.iter() {
        let sol = solve_brute(0, 0, 8, s);
        let mut cur: Vec<u8> = s.to_vec();
        let mut cost: isize = 0;
        for p in sol.pats.iter().rev() {
            let r = apply_pattern(&p.s, &cur);
            assert!(r.is_feasible(p.s.len()));
            cost += p.s.len() as isize;
            cost += if p.rle { r.rle_ref_cost as isize } else { r.literal_ref_cost as isize };
            cur = r.out;
        }
        assert_eq!(cur, sol.res);
        let literals = cur.iter().filter(|&&c| c != b'$').count() as isize;
        let overhead = patsolve::cost::count_cost(sol.pats.len());
        assert_eq!(sol.bytes, literals + overhead + cost);
    }
}

#[test]
fn search_result_does_not_depend_on_the_memo() {
    let mut memo = Memo::new();
    let first = solve_brute_with(&mut memo, 0, 0, 8, b"xyxyxyxyzzzzzzzzxyxy");
    let again = solve_brute_with(&mut memo, 0, 0, 8, b"xyxyxyxyzzzzzzzzxyxy");
    let fresh = solve_brute(0, 0, 8, b"xyxyxyxyzzzzzzzzxyxy");
    assert_eq!(first, again);
    assert_eq!(first, fresh);
    assert_eq!(
        fresh,
        Sol {
            res: b"$$$".to_vec(),
            pats: vec![pat(b"z", true), pat(b"xyxy", false)],
            bytes: 12,
        }
    );
}
