//! The memo table of the search: a map from a subproblem, that is the three
//! pattern counts and the exact byte sequence, to the solution found for it.
//!
//! The table hashes a subproblem to a `u64` and keeps, under each hash, the
//! few subproblems that share it; a lookup compares the subproblem itself.

use std::collections::HashMap;
use vstd::prelude::*;
use vstd::wrapping::u64_specs::wrapping_mul;
use crate::types::{copy_bytes, Sol, Solution};

verus! {

/// A subproblem: the pattern count at the start of the segment, the current
/// count, the ceiling, and the sequence.
pub type MemoKey = (usize, usize, usize, Seq<u8>);

/// Start value of the hash.
pub const HASH_OFFSET: u64 = 0xcbf2_9ce4_8422_2325;

/// Multiplier of the hash.
pub const HASH_PRIME: u64 = 0x0000_0100_0000_01b3;

/// One step of the hash: fold `word` into `h`.
pub open spec fn hash_step(h: u64, word: u64) -> u64 {
    wrapping_mul(h ^ word, HASH_PRIME)
}

/// Hash of a byte sequence, from the state `h` on.
pub open spec fn hash_bytes(h: u64, s: Seq<u8>) -> u64
    decreases s.len(),
{
    if s.len() == 0 {
        h
    } else {
        hash_step(hash_bytes(h, s.drop_last()), s.last() as u64)
    }
}

/// Hash of a subproblem.
pub open spec fn key_hash(key: MemoKey) -> u64 {
    hash_bytes(
        hash_step(hash_step(hash_step(HASH_OFFSET, key.0 as u64), key.1 as u64), key.2 as u64),
        key.3,
    )
}

fn step(h: u64, word: u64) -> (r: u64)
    ensures
        r == hash_step(h, word),
{
    (h ^ word).wrapping_mul(HASH_PRIME)
}

/// Computes the hash of the subproblem `(start, current, max, s)`.
pub fn hash_key(start: usize, current: usize, max: usize, s: &[u8]) -> (h: u64)
    ensures
        h == key_hash((start, current, max, s@)),
{
    let h0 = step(step(step(HASH_OFFSET, start as u64), current as u64), max as u64);
    let mut h = h0;
    let mut i: usize = 0;
    while i < s.len()
        invariant
            i <= s.len(),
            h == hash_bytes(h0, s@.subrange(0, i as int)),
        decreases s.len() - i,
    {
        assert(s@.subrange(0, i + 1).drop_last() =~= s@.subrange(0, i as int));
        h = step(h, s[i] as u64);
        i += 1;
    }
    assert(s@.subrange(0, s@.len() as int) =~= s@);
    h
}

/// Tells whether two byte sequences are the same.
pub fn same_bytes(a: &[u8], b: &[u8]) -> (same: bool)
    ensures
        same == (a@ == b@),
{
    if a.len() != b.len() {
        return false;
    }
    let mut i: usize = 0;
    while i < a.len()
        invariant
            i <= a.len(),
            a.len() == b.len(),
            forall|k: int| 0 <= k < i ==> a@[k] == b@[k],
        decreases a.len() - i,
    {
        if a[i] != b[i] {
            return false;
        }
        i += 1;
    }
    assert(a@ =~= b@);
    true
}

/// A stored subproblem with its solution.
struct MemoEntry {
    start: usize,
    current: usize,
    max: usize,
    seq: Vec<u8>,
    sol: Sol,
}

impl MemoEntry {
    /// The subproblem of this entry.
    spec fn key(&self) -> MemoKey {
        (self.start, self.current, self.max, self.seq@)
    }

    /// The solution of this entry.
    spec fn value(&self) -> Solution {
        self.sol@
    }

    fn has_key(&self, start: usize, current: usize, max: usize, s: &[u8]) -> (same: bool)
        ensures
            same == (self.key() == (start, current, max, s@)),
    {
        self.start == start && self.current == current && self.max == max && same_bytes(
            self.seq.as_slice(),
            s,
        )
    }
}

/// Some entry of `bucket` is for `key`.
spec fn bucket_has(bucket: Seq<MemoEntry>, key: MemoKey) -> bool {
    exists|i: int| 0 <= i < bucket.len() && #[trigger] bucket[i].key() == key
}

/// The solution that `bucket` holds for `key`.
spec fn bucket_value(bucket: Seq<MemoEntry>, key: MemoKey) -> Solution {
    bucket[choose|i: int| 0 <= i < bucket.len() && #[trigger] bucket[i].key() == key].value()
}

/// No two entries of `bucket` are for the same subproblem.
spec fn bucket_distinct(bucket: Seq<MemoEntry>) -> bool {
    forall|i: int, j: int|
        0 <= i < j < bucket.len() ==> #[trigger] bucket[i].key() != #[trigger] bucket[j].key()
}

fn find_in_bucket(bucket: &Vec<MemoEntry>, start: usize, current: usize, max: usize, s: &[u8]) -> (at:
    Option<usize>)
    ensures
        match at {
            Some(i) => i < bucket.len() && bucket@[i as int].key() == (start, current, max, s@),
            None => !bucket_has(bucket@, (start, current, max, s@)),
        },
{
    let mut i: usize = 0;
    while i < bucket.len()
        invariant
            i <= bucket.len(),
            forall|k: int| 0 <= k < i ==> bucket@[k].key() != (start, current, max, s@),
        decreases bucket.len() - i,
    {
        if bucket[i].has_key(start, current, max, s) {
            return Some(i);
        }
        i += 1;
    }
    None
}

/// The memo table.
pub struct Memo {
    table: HashMap<u64, Vec<MemoEntry>>,
}

impl View for Memo {
    type V = Map<MemoKey, Solution>;

    /// The stored subproblems, each with its solution.
    closed spec fn view(&self) -> Map<MemoKey, Solution> {
        Map::new(
            |key: MemoKey|
                self.table@.contains_key(key_hash(key)) && bucket_has(
                    self.table@[key_hash(key)]@,
                    key,
                ),
            |key: MemoKey| bucket_value(self.table@[key_hash(key)]@, key),
        )
    }
}

impl Memo {
    /// No subproblem is stored twice.
    pub closed spec fn wf(&self) -> bool {
        forall|h: u64| #[trigger] self.table@.contains_key(h) ==> bucket_distinct(self.table@[h]@)
    }

    /// An empty table.
    pub fn new() -> (memo: Memo)
        ensures
            memo.wf(),
            memo@ == Map::<MemoKey, Solution>::empty(),
    {
        let memo = Memo { table: HashMap::new() };
        assert(memo@ =~= Map::<MemoKey, Solution>::empty());
        memo
    }

    /// A copy of the solution stored for `(start, current, max, s)`, if
    /// there is one.
    pub fn get(&self, start: usize, current: usize, max: usize, s: &[u8]) -> (hit: Option<Sol>)
        requires
            self.wf(),
        ensures
            match hit {
                Some(sol) => self@.contains_key((start, current, max, s@)) && sol@ == self@[(
                    start,
                    current,
                    max,
                    s@,
                )],
                None => !self@.contains_key((start, current, max, s@)),
            },
    {
        let h = hash_key(start, current, max, s);
        match self.table.get(&h) {
            Some(bucket) => {
                match find_in_bucket(bucket, start, current, max, s) {
                    Some(i) => {
                        Some(bucket[i].sol.clone())
                    },
                    None => None,
                }
            },
            None => None,
        }
    }

    /// Stores `sol` for `(start, current, max, s)`, in place of what was
    /// stored for it before.
    pub fn insert(&mut self, start: usize, current: usize, max: usize, s: &[u8], sol: Sol)
        requires
            old(self).wf(),
        ensures
            final(self).wf(),
            final(self)@ == old(self)@.insert((start, current, max, s@), sol@),
    {
        let ghost key: MemoKey = (start, current, max, s@);
        let ghost before = self.table@;
        let h = hash_key(start, current, max, s);
        let entry = MemoEntry { start, current, max, seq: copy_bytes(s), sol };
        let mut bucket: Vec<MemoEntry> = match self.table.remove(&h) {
            Some(b) => b,
            None => Vec::new(),
        };
        let ghost old_bucket = bucket@;
        match find_in_bucket(&bucket, start, current, max, s) {
            Some(i) => {
                bucket.set(i, entry);
                proof {
                    lemma_bucket_set(old_bucket, i as int, entry);
                }
            },
            None => {
                bucket.push(entry);
                proof {
                    lemma_bucket_push(old_bucket, entry);
                }
            },
        }
        let ghost new_bucket = bucket@;
        self.table.insert(h, bucket);
        proof {
            assert(self.table@ =~= before.insert(h, self.table@[h]));
            assert forall|k: MemoKey|
                #![trigger final(self)@.contains_key(k)]
                #![trigger old(self)@.contains_key(k)]
                {
                    &&& self@.contains_key(k) == old(self)@.insert(key, sol@).contains_key(k)
                    &&& self@.contains_key(k) ==> self@[k] == old(self)@.insert(key, sol@)[k]
                } by {
                let hk = key_hash(k);
                if hk == h {
                    assert(self.table@[h]@ == new_bucket);
                    assert(self@.contains_key(k) == bucket_has(new_bucket, k));
                    if before.contains_key(h) {
                        assert(before[h]@ == old_bucket);
                        assert(old(self)@.contains_key(k) == bucket_has(old_bucket, k));
                    } else {
                        assert(old_bucket.len() == 0);
                        assert(!old(self)@.contains_key(k));
                    }
                    assert(bucket_has(new_bucket, k) == (k == key || bucket_has(old_bucket, k)));
                } else {
                    if before.contains_key(hk) {
                        assert(self.table@[hk] == before[hk]);
                    }
                }
            }
            assert(self@ =~= old(self)@.insert(key, sol@));
        }
    }
}

/// What a bucket holds after `entry` took the place of the entry at `at`,
/// which was for the same subproblem.
proof fn lemma_bucket_set(bucket: Seq<MemoEntry>, at: int, entry: MemoEntry)
    requires
        bucket_distinct(bucket),
        0 <= at < bucket.len(),
        bucket[at].key() == entry.key(),
    ensures
        bucket_distinct(bucket.update(at, entry)),
        forall|k: MemoKey|
            bucket_has(bucket.update(at, entry), k) == (k == entry.key() || bucket_has(bucket, k)),
        forall|k: MemoKey|
            bucket_has(bucket.update(at, entry), k) ==> bucket_value(bucket.update(at, entry), k)
                == if k == entry.key() {
                entry.value()
            } else {
                bucket_value(bucket, k)
            },
{
    let after = bucket.update(at, entry);
    assert forall|i: int| 0 <= i < bucket.len() implies #[trigger] after[i].key()
        == bucket[i].key() by {}
    assert forall|k: MemoKey| bucket_has(after, k) == (k == entry.key() || bucket_has(bucket, k)) by {
        if bucket_has(after, k) {
            let i = choose|i: int| 0 <= i < after.len() && #[trigger] after[i].key() == k;
            assert(bucket[i].key() == k);
        }
        if bucket_has(bucket, k) {
            let i = choose|i: int| 0 <= i < bucket.len() && #[trigger] bucket[i].key() == k;
            assert(after[i].key() == k);
        }
        if k == entry.key() {
            assert(after[at].key() == k);
        }
    }
    assert forall|k: MemoKey| bucket_has(after, k) implies bucket_value(after, k) == if k
        == entry.key() {
        entry.value()
    } else {
        bucket_value(bucket, k)
    } by {
        let i = choose|i: int| 0 <= i < after.len() && #[trigger] after[i].key() == k;
        assert(bucket[i].key() == k);
        if k == entry.key() {
            assert(bucket[at].key() == k);
            assert(i == at);
        } else {
            let j = choose|j: int| 0 <= j < bucket.len() && #[trigger] bucket[j].key() == k;
            assert(i == j);
        }
    }
}

/// What a bucket holds after `entry` was added, for a subproblem that the
/// bucket did not hold.
proof fn lemma_bucket_push(bucket: Seq<MemoEntry>, entry: MemoEntry)
    requires
        bucket_distinct(bucket),
        !bucket_has(bucket, entry.key()),
    ensures
        bucket_distinct(bucket.push(entry)),
        forall|k: MemoKey|
            bucket_has(bucket.push(entry), k) == (k == entry.key() || bucket_has(bucket, k)),
        forall|k: MemoKey|
            bucket_has(bucket.push(entry), k) ==> bucket_value(bucket.push(entry), k) == if k
                == entry.key() {
                entry.value()
            } else {
                bucket_value(bucket, k)
            },
{
    let after = bucket.push(entry);
    assert forall|i: int| 0 <= i < bucket.len() implies #[trigger] after[i].key()
        == bucket[i].key() by {}
    assert(after[bucket.len() as int].key() == entry.key());
    assert forall|k: MemoKey| bucket_has(after, k) == (k == entry.key() || bucket_has(bucket, k)) by {
        if bucket_has(after, k) {
            let i = choose|i: int| 0 <= i < after.len() && #[trigger] after[i].key() == k;
            if i < bucket.len() {
                assert(bucket[i].key() == k);
            }
        }
        if bucket_has(bucket, k) {
            let i = choose|i: int| 0 <= i < bucket.len() && #[trigger] bucket[i].key() == k;
            assert(after[i].key() == k);
        }
    }
    assert forall|k: MemoKey| bucket_has(after, k) implies bucket_value(after, k) == if k
        == entry.key() {
        entry.value()
    } else {
        bucket_value(bucket, k)
    } by {
        let i = choose|i: int| 0 <= i < after.len() && #[trigger] after[i].key() == k;
        if i < bucket.len() {
            assert(bucket[i].key() == k);
            let j = choose|j: int| 0 <= j < bucket.len() && #[trigger] bucket[j].key() == k;
            assert(i == j);
        }
    }
}

} // verus!
