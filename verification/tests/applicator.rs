use patsolve::apply::{apply_pattern, starts_with_at};
use patsolve::cost::FAKE;

#[test]
fn two_adjacent_matches_collapse_into_one_placeholder() {
    let r = apply_pattern(b"aa", b"aaaa");
    assert_eq!(r.out, vec![FAKE]);
    assert_eq!(r.out.len(), 1);
    assert_eq!(r.literal_ref_cost, 2);
    assert_eq!(r.rle_ref_cost, 3);
    assert_eq!(r.occupied, 4);
}

#[test]
fn feasibility_accepts_the_boundary_case() {
    let r = apply_pattern(b"aa", b"aaaa");
    assert!(r.is_feasible(2));
}

#[test]
fn feasibility_rejects_a_single_match() {
    let r = apply_pattern(b"abc", b"xabcx");
    assert_eq!(r.out, b"x$x".to_vec());
    assert_eq!(r.occupied, 3);
    assert_eq!(r.literal_ref_cost, 1);
    assert_eq!(r.rle_ref_cost, 3);
    assert!(!r.is_feasible(3));
}

#[test]
fn feasibility_rejects_two_single_byte_matches() {
    let r = apply_pattern(b"a", b"axa");
    assert_eq!(r.occupied, 2);
    assert_eq!(r.literal_ref_cost, 2);
    assert_eq!(r.rle_ref_cost, 6);
    assert!(!r.is_feasible(1));
}

#[test]
fn separate_runs_get_one_placeholder_each() {
    let r = apply_pattern(b"ab", b"xababyabz");
    assert_eq!(r.out, b"x$y$z".to_vec());
    assert_eq!(r.occupied, 6);
    assert_eq!(r.literal_ref_cost, 3);
    assert_eq!(r.rle_ref_cost, 6);
    assert!(r.is_feasible(2));
}

#[test]
fn scan_is_greedy_from_the_left() {
    let r = apply_pattern(b"ab", b"aabb");
    assert_eq!(r.out, b"a$b".to_vec());
    assert_eq!(r.occupied, 2);
    assert_eq!(r.literal_ref_cost, 1);
    assert_eq!(r.rle_ref_cost, 3);
}

#[test]
fn overlapping_occurrences_are_matched_once() {
    let r = apply_pattern(b"aa", b"aaa");
    assert_eq!(r.out, b"$a".to_vec());
    assert_eq!(r.literal_ref_cost, 1);
    assert_eq!(r.occupied, 2);
}

#[test]
fn an_old_placeholder_closes_a_run() {
    let r = apply_pattern(b"a", b"a$a");
    assert_eq!(r.out, b"$$$".to_vec());
    assert_eq!(r.occupied, 2);
    assert_eq!(r.literal_ref_cost, 2);
    assert_eq!(r.rle_ref_cost, 6);
}

#[test]
fn no_match_leaves_the_sequence_alone() {
    let r = apply_pattern(b"zz", b"abcabc");
    assert_eq!(r.out, b"abcabc".to_vec());
    assert_eq!(r.occupied, 0);
    assert_eq!(r.literal_ref_cost, 0);
    assert_eq!(r.rle_ref_cost, 0);
    assert!(!r.is_feasible(2));
}

#[test]
fn empty_source_gives_empty_output() {
    let r = apply_pattern(b"a", b"");
    assert!(r.out.is_empty());
    assert_eq!(r.occupied, 0);
}

#[test]
fn reapplying_a_pattern_finds_nothing() {
    let sources: [&[u8]; 5] = [b"aaaa", b"aabb", b"xababyabz", b"abcabcabcabc", b"a$ab$b"];
    let subs: [&[u8]; 4] = [b"a", b"ab", b"aa", b"abc"];
    for s in sources.iter() {
        for sub in subs.iter() {
            let first = apply_pattern(sub, s);
            let second = apply_pattern(sub, &first.out);
            assert_eq!(second.literal_ref_cost, 0);
            assert_eq!(second.rle_ref_cost, 0);
            assert_eq!(second.occupied, 0);
            assert_eq!(second.out, first.out);
        }
    }
}

#[test]
fn starts_with_at_checks_the_window() {
    assert!(starts_with_at(b"xabc", 1, b"abc"));
    assert!(!starts_with_at(b"xabc", 0, b"abc"));
    assert!(!starts_with_at(b"xabc", 2, b"abc"));
    assert!(!starts_with_at(b"xabc", 9, b"abc"));
    assert!(starts_with_at(b"xabc", 4, b""));
}
