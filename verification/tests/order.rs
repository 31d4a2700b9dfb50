use patsolve::order::cheaper;
use patsolve::types::{Pat, Sol};

fn sol(res: &[u8], bytes: isize) -> Sol {
    Sol { res: res.to_vec(), pats: vec![Pat { s: res.to_vec(), rle: false }], bytes }
}

#[test]
fn solutions_are_ordered_by_cost_alone() {
    assert!(sol(b"zzz", 3) < sol(b"a", 4));
    assert!(sol(b"a", 5) > sol(b"zzz", 4));
    assert!(sol(b"a", 4) <= sol(b"b", 4));
    assert!(sol(b"a", 4) >= sol(b"b", 4));
    assert!(!(sol(b"a", 4) < sol(b"b", 4)));
}

#[test]
fn equal_cost_compares_equal_whatever_the_content() {
    let a = sol(b"a", 4);
    let b = sol(b"b", 4);
    assert_eq!(a.partial_cmp(&b), Some(std::cmp::Ordering::Equal));
    assert_ne!(a, b);
}

#[test]
fn negative_costs_are_ordered_too() {
    assert!(sol(b"a", -3) < sol(b"a", 0));
}

#[test]
fn cheaper_keeps_the_first_on_a_tie() {
    assert_eq!(cheaper(sol(b"a", 4), sol(b"b", 4)), sol(b"a", 4));
    assert_eq!(cheaper(sol(b"a", 5), sol(b"b", 4)), sol(b"b", 4));
    assert_eq!(cheaper(sol(b"a", 3), sol(b"b", 4)), sol(b"a", 3));
}
