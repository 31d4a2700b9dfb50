use patsolve::memo::{hash_key, same_bytes, Memo};
use patsolve::types::{copy_bytes, copy_pats, Pat, Sol};

fn sol(res: &[u8], bytes: isize) -> Sol {
    Sol { res: res.to_vec(), pats: vec![Pat { s: b"ab".to_vec(), rle: true }], bytes }
}

#[test]
fn empty_memo_holds_nothing() {
    let memo = Memo::new();
    assert_eq!(memo.get(0, 0, 8, b"abc"), None);
}

#[test]
fn memo_returns_what_was_stored() {
    let mut memo = Memo::new();
    memo.insert(0, 1, 8, b"abab", sol(b"$", 5));
    assert_eq!(memo.get(0, 1, 8, b"abab"), Some(sol(b"$", 5)));
}

#[test]
fn memo_key_is_the_bounds_and_the_exact_sequence() {
    let mut memo = Memo::new();
    memo.insert(0, 1, 8, b"abab", sol(b"$", 5));
    assert_eq!(memo.get(1, 1, 8, b"abab"), None);
    assert_eq!(memo.get(0, 2, 8, b"abab"), None);
    assert_eq!(memo.get(0, 1, 7, b"abab"), None);
    assert_eq!(memo.get(0, 1, 8, b"aba"), None);
    assert_eq!(memo.get(0, 1, 8, b"ababa"), None);
}

#[test]
fn memo_insert_replaces_the_old_value() {
    let mut memo = Memo::new();
    memo.insert(0, 1, 8, b"abab", sol(b"$", 5));
    memo.insert(0, 1, 8, b"abab", sol(b"$$", 6));
    assert_eq!(memo.get(0, 1, 8, b"abab"), Some(sol(b"$$", 6)));
}

#[test]
fn memo_keeps_many_entries_apart() {
    let mut memo = Memo::new();
    for i in 0..200usize {
        let key = vec![(i % 251) as u8, (i / 7) as u8, b'x'];
        memo.insert(i % 3, i % 5, 8, &key, sol(&key, i as isize));
    }
    for i in 0..200usize {
        let key = vec![(i % 251) as u8, (i / 7) as u8, b'x'];
        assert_eq!(memo.get(i % 3, i % 5, 8, &key), Some(sol(&key, i as isize)));
    }
}

#[test]
fn hash_is_fnv_with_the_bounds_folded_in_first() {
    let prime: u64 = 0x0000_0100_0000_01b3;
    let mut h: u64 = 0xcbf2_9ce4_8422_2325;
    for w in [3u64, 4, 8, b'h' as u64, b'i' as u64] {
        h = (h ^ w).wrapping_mul(prime);
    }
    assert_eq!(hash_key(3, 4, 8, b"hi"), h);
    assert_ne!(hash_key(3, 4, 8, b"hi"), hash_key(3, 4, 8, b"ih"));
}

#[test]
fn same_bytes_compares_length_and_content() {
    assert!(same_bytes(b"", b""));
    assert!(same_bytes(b"abc", b"abc"));
    assert!(!same_bytes(b"abc", b"abd"));
    assert!(!same_bytes(b"abc", b"ab"));
}

#[test]
fn copies_are_equal_to_their_source() {
    assert_eq!(copy_bytes(b"a$b"), b"a$b".to_vec());
    let pats = vec![Pat { s: b"ab".to_vec(), rle: true }, Pat { s: b"c".to_vec(), rle: false }];
    assert_eq!(copy_pats(&pats), pats);
    let s = sol(b"xyz", 9);
    assert_eq!(s.clone(), s);
}
