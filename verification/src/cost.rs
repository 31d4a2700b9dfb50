//! The cost model: the overhead of the pattern table and the count of the
//! bytes that are still literal.

use vstd::prelude::*;

verus! {

/// The placeholder that stands for one substituted run. It never occurs in
/// raw input.
pub const FAKE: u8 = 0x24;

/// The most patterns a dictionary can hold.
pub const MAX_PATTERNS: usize = 8;

/// Overhead of a pattern table with `n` entries.
pub open spec fn tier_cost(n: int) -> int {
    if n <= 0 {
        0
    } else if n <= 2 {
        1
    } else if n <= 4 {
        2
    } else {
        3
    }
}

/// The overhead that a search segment adds when it began with `start`
/// patterns and now holds `current`.
pub open spec fn effective_overhead(start: int, current: int) -> int {
    tier_cost(current) - tier_cost(start)
}

/// Number of bytes of `s` that are not the placeholder.
pub open spec fn literal_count(s: Seq<u8>) -> nat
    decreases s.len(),
{
    if s.len() == 0 {
        0
    } else {
        literal_count(s.drop_last()) + if s.last() == FAKE {
            0nat
        } else {
            1nat
        }
    }
}

/// Overhead of a pattern table with `count` entries.
pub fn count_cost(count: usize) -> (cost: isize)
    requires
        count <= MAX_PATTERNS,
    ensures
        cost == tier_cost(count as int),
{
    if count == 0 {
        0
    } else if count <= 2 {
        1
    } else if count <= 4 {
        2
    } else {
        3
    }
}

/// The overhead that a search segment adds when it began with `start`
/// patterns and now holds `current`: what the table costs now, less what was
/// paid before the segment began.
pub fn segment_overhead(start: usize, current: usize) -> (cost: isize)
    requires
        start <= MAX_PATTERNS,
        current <= MAX_PATTERNS,
    ensures
        cost == effective_overhead(start as int, current as int),
{
    count_cost(current) - count_cost(start)
}

/// Counts the bytes of `s` that are not the placeholder.
pub fn count_literals(s: &[u8]) -> (n: usize)
    ensures
        n == literal_count(s@),
        n <= s.len(),
{
    let mut n: usize = 0;
    let mut i: usize = 0;
    while i < s.len()
        invariant
            i <= s.len(),
            n <= i,
            n == literal_count(s@.subrange(0, i as int)),
        decreases s.len() - i,
    {
        assert(s@.subrange(0, i + 1).drop_last() =~= s@.subrange(0, i as int));
        if s[i] != FAKE {
            n += 1;
        }
        i += 1;
    }
    assert(s@.subrange(0, s@.len() as int) =~= s@);
    n
}

/// The table's overhead is a step function that never falls: it is 0 for an
/// empty table and rises by one exactly where the pattern count reaches 1, 3
/// and 5.
pub proof fn lemma_tier_cost_steps(a: int, b: int)
    requires
        0 <= a <= b <= MAX_PATTERNS,
    ensures
        tier_cost(a) <= tier_cost(b),
        tier_cost(0) == 0,
        tier_cost(b) == (if b >= 1 {
            1int
        } else {
            0int
        }) + (if b >= 3 {
            1int
        } else {
            0int
        }) + (if b >= 5 {
            1int
        } else {
            0int
        }),
{
}

/// A sequence has no more literal bytes than bytes.
pub proof fn lemma_literal_count_le_len(s: Seq<u8>)
    ensures
        literal_count(s) <= s.len(),
    decreases s.len(),
{
    if s.len() > 0 {
        lemma_literal_count_le_len(s.drop_last());
    }
}

} // verus!
