//! The search as a mathematical function: the enumeration of the candidates
//! in its fixed order, and the proof that what it keeps is a cheapest
//! encoding.

use vstd::prelude::*;
use crate::apply::{
    applied,
    feasible,
    literal_ref_cost,
    matches_at,
    rle_ref_cost,
    sentinel_free,
};
use crate::chain::{
    admissible,
    baseline_cost,
    chain_cost,
    chain_valid,
    is_encoding,
    is_lower_bound,
    is_search_result,
    lemma_chain_cons,
    lemma_extend_encoding,
    pattern_cost,
    MAX_PATTERN_LEN,
};
use crate::cost::FAKE;
use crate::types::{Pattern, Solution};

verus! {

/// The solution that leaves `s` alone.
pub open spec fn baseline(s: Seq<u8>, start: int, current: int) -> Solution {
    Solution { res: s, pats: Seq::empty(), bytes: baseline_cost(s, start, current) }
}

/// `best`, unless `child` with the pattern `p` added is cheaper: a tie
/// leaves `best` in place.
pub open spec fn improved(best: Solution, child: Solution, p: Pattern, s: Seq<u8>) -> Solution {
    let bytes = child.bytes + pattern_cost(p, s);
    if bytes < best.bytes {
        Solution { res: child.res, pats: child.pats.push(p), bytes }
    } else {
        best
    }
}

/// What the search returns on the subproblem `(start, current, max, s)`:
/// the baseline at the ceiling, else what the enumeration keeps.
pub open spec fn search_model(start: int, current: int, max: int, s: Seq<u8>) -> Solution
    decreases max - current, 1int, 0int, 0int,
{
    if current >= max {
        baseline(s, start, current)
    } else {
        enumerate(start, current, max, s, 0, 0, baseline(s, start, current))
    }
}

/// What the enumeration keeps when it stands at the start position `from`
/// with the lengths up to `len` done and `best` in hand. Start positions
/// ascend; at each, the lengths ascend up to twelve and stop before a
/// placeholder; each feasible candidate is tried with one reference per
/// match first and with run-length references second.
pub open spec fn enumerate(
    start: int,
    current: int,
    max: int,
    s: Seq<u8>,
    from: int,
    len: int,
    best: Solution,
) -> Solution
    decreases max - current, 0int, s.len() - from, MAX_PATTERN_LEN - len,
{
    if current >= max || from < 0 || len < 0 || from >= s.len() {
        best
    } else if from + len >= s.len() || len >= MAX_PATTERN_LEN || s[from + len] == FAKE {
        enumerate(start, current, max, s, from + 1, 0, best)
    } else {
        let sub = s.subrange(from, from + len + 1);
        let next = if feasible(sub, s) {
            let child = search_model(start, current + 1, max, applied(sub, s));
            improved(
                improved(best, child, Pattern { s: sub, rle: false }, s),
                child,
                Pattern { s: sub, rle: true },
                s,
            )
        } else {
            best
        };
        enumerate(start, current, max, s, from, len + 1, next)
    }
}

/// The enumeration has reached `sub` when it stands at start position `from`
/// with the lengths up to `len` done: `sub` occurs before `from`, or at
/// `from` with at most `len` bytes.
pub open spec fn covered(sub: Seq<u8>, s: Seq<u8>, from: int, len: int) -> bool {
    exists|at: int| #[trigger]
        matches_at(sub, s, at) && (at < from || (at == from && sub.len() <= len))
}

/// No chain whose first pattern the enumeration has reached encodes `s` in
/// fewer than `bytes` bytes.
pub open spec fn dominates(
    bytes: int,
    s: Seq<u8>,
    start: int,
    current: int,
    max: int,
    from: int,
    len: int,
) -> bool {
    forall|c: Seq<Pattern>| #[trigger]
        chain_valid(c, s) && 0 < c.len() <= max - current && covered(c[0].s, s, from, len)
            ==> bytes <= chain_cost(c, s, start, current)
}

/// Before the enumeration starts it has reached no candidate.
proof fn lemma_dominates_start(bytes: int, s: Seq<u8>, start: int, current: int, max: int)
    ensures
        dominates(bytes, s, start, current, max, 0, 0),
{
}

/// A candidate that is not admissible starts no valid chain, so the bound
/// holds on when the enumeration passes it.
proof fn lemma_dominates_skip(
    bytes: int,
    s: Seq<u8>,
    start: int,
    current: int,
    max: int,
    from: int,
    len: int,
)
    requires
        dominates(bytes, s, start, current, max, from, len),
        0 <= from,
        0 <= len,
        from + len < s.len(),
        !admissible(s.subrange(from, from + len + 1), s),
    ensures
        dominates(bytes, s, start, current, max, from, len + 1),
{
    assert forall|c: Seq<Pattern>| #[trigger]
        chain_valid(c, s) && 0 < c.len() <= max - current && covered(
            c[0].s,
            s,
            from,
            len + 1,
        ) implies bytes <= chain_cost(c, s, start, current) by {
        let sub = c[0].s;
        let at = choose|at: int| #[trigger]
            matches_at(sub, s, at) && (at < from || (at == from && sub.len() <= len + 1));
        if at == from && sub.len() == len + 1 {
            assert(admissible(sub, s));
            assert(false);
        } else {
            assert(covered(sub, s, from, len));
        }
    }
}

/// When the candidate at `from` with `len + 1` bytes has been tried in both
/// modes on top of a cheapest encoding of what it leaves, the bound holds for
/// every chain that starts with it.
proof fn lemma_dominates_take(
    prev: int,
    bytes: int,
    child_bytes: int,
    s: Seq<u8>,
    start: int,
    current: int,
    max: int,
    from: int,
    len: int,
)
    requires
        dominates(prev, s, start, current, max, from, len),
        bytes <= prev,
        0 <= from,
        0 <= len,
        from + len < s.len(),
        ({
            let sub = s.subrange(from, from + len + 1);
            &&& is_lower_bound(child_bytes, start, current + 1, max, applied(sub, s))
            &&& bytes <= child_bytes + sub.len() + literal_ref_cost(sub, s)
            &&& bytes <= child_bytes + sub.len() + rle_ref_cost(sub, s)
        }),
    ensures
        dominates(bytes, s, start, current, max, from, len + 1),
{
    let cand = s.subrange(from, from + len + 1);
    assert forall|c: Seq<Pattern>| #[trigger]
        chain_valid(c, s) && 0 < c.len() <= max - current && covered(
            c[0].s,
            s,
            from,
            len + 1,
        ) implies bytes <= chain_cost(c, s, start, current) by {
        let sub = c[0].s;
        let at = choose|at: int| #[trigger]
            matches_at(sub, s, at) && (at < from || (at == from && sub.len() <= len + 1));
        if at == from && sub.len() == len + 1 {
            assert(sub == cand);
            let rest = c.drop_first();
            assert(c =~= seq![c[0]] + rest);
            lemma_chain_cons(c[0], rest, s, start, current);
            assert(chain_valid(rest, applied(cand, s)));
            assert(child_bytes <= chain_cost(rest, applied(cand, s), start, current + 1));
        } else {
            assert(covered(sub, s, from, len));
        }
    }
}

/// When the lengths at `from` end, at the end of the sequence, at twelve
/// bytes or at a placeholder, every candidate that occurs at `from` has been
/// reached.
proof fn lemma_dominates_next(
    bytes: int,
    s: Seq<u8>,
    start: int,
    current: int,
    max: int,
    from: int,
    len: int,
)
    requires
        dominates(bytes, s, start, current, max, from, len),
        0 <= from,
        0 <= len,
        from + len <= s.len(),
        from + len == s.len() || len == MAX_PATTERN_LEN || s[from + len] == FAKE,
    ensures
        dominates(bytes, s, start, current, max, from + 1, 0),
{
    assert forall|c: Seq<Pattern>| #[trigger]
        chain_valid(c, s) && 0 < c.len() <= max - current && covered(
            c[0].s,
            s,
            from + 1,
            0,
        ) implies bytes <= chain_cost(c, s, start, current) by {
        let sub = c[0].s;
        let at = choose|at: int| #[trigger]
            matches_at(sub, s, at) && (at < from + 1 || (at == from + 1 && sub.len() <= 0));
        assert(admissible(sub, s));
        if at == from && sub.len() > len {
            assert(s.subrange(from, from + sub.len())[len] == s[from + len]);
            assert(sub[len] != FAKE);
            assert(false);
        }
        assert(covered(sub, s, from, len));
    }
}

/// When every start position is done, every candidate has been reached, so
/// the bound holds for every valid chain.
proof fn lemma_dominates_finish(bytes: int, s: Seq<u8>, start: int, current: int, max: int)
    requires
        dominates(bytes, s, start, current, max, s.len() as int, 0),
        bytes <= baseline_cost(s, start, current),
    ensures
        is_lower_bound(bytes, start, current, max, s),
{
    assert forall|c: Seq<Pattern>| #[trigger]
        chain_valid(c, s) && c.len() <= max - current implies bytes <= chain_cost(
        c,
        s,
        start,
        current,
    ) by {
        if c.len() > 0 {
            let sub = c[0].s;
            assert(admissible(sub, s));
            let at = choose|at: int| matches_at(sub, s, at);
            assert(matches_at(sub, s, at));
            assert(covered(sub, s, s.len() as int, 0));
        }
    }
}

/// What the search returns is a cheapest encoding: no chain of at most
/// `max - current` admissible patterns costs less, every pattern it holds
/// was admissible when it was chosen, and it holds one only if that beats
/// leaving the sequence alone.
pub proof fn lemma_search_model_optimal(start: int, current: int, max: int, s: Seq<u8>)
    requires
        current <= max,
    ensures
        is_search_result(start, current, max, s, search_model(start, current, max, s)),
    decreases max - current, 1int, 0int, 0int,
{
    let base = baseline(s, start, current);
    assert(base.pats.reverse() =~= Seq::<Pattern>::empty());
    if current < max {
        lemma_dominates_start(base.bytes, s, start, current, max);
        assert(s.subrange(0, 0) =~= Seq::<u8>::empty());
        lemma_enumerate_optimal(start, current, max, s, 0, 0, base);
    }
}

/// The enumeration, taken up where every chain that starts with a candidate
/// already reached costs at least what `best` costs, ends with a cheapest
/// encoding.
proof fn lemma_enumerate_optimal(
    start: int,
    current: int,
    max: int,
    s: Seq<u8>,
    from: int,
    len: int,
    best: Solution,
)
    requires
        current < max,
        0 <= from <= s.len(),
        0 <= len <= MAX_PATTERN_LEN,
        from + len <= s.len(),
        sentinel_free(s.subrange(from, from + len)),
        is_encoding(start, current, max, s, best),
        dominates(best.bytes, s, start, current, max, from, len),
    ensures
        is_search_result(
            start,
            current,
            max,
            s,
            enumerate(start, current, max, s, from, len, best),
        ),
    decreases max - current, 0int, s.len() - from, MAX_PATTERN_LEN - len,
{
    if from >= s.len() {
        lemma_dominates_finish(best.bytes, s, start, current, max);
    } else if from + len >= s.len() || len >= MAX_PATTERN_LEN || s[from + len] == FAKE {
        lemma_dominates_next(best.bytes, s, start, current, max, from, len);
        assert(s.subrange(from + 1, from + 1) =~= Seq::<u8>::empty());
        lemma_enumerate_optimal(start, current, max, s, from + 1, 0, best);
    } else {
        let sub = s.subrange(from, from + len + 1);
        assert forall|j: int| 0 <= j < sub.len() implies sub[j] != FAKE by {
            if j < len {
                assert(s.subrange(from, from + len)[j] == s[from + j]);
            }
        }
        assert(matches_at(sub, s, from));
        if feasible(sub, s) {
            let after = applied(sub, s);
            let child = search_model(start, current + 1, max, after);
            lemma_search_model_optimal(start, current + 1, max, after);
            let plain = Pattern { s: sub, rle: false };
            let packed = Pattern { s: sub, rle: true };
            let first = improved(best, child, plain, s);
            if child.bytes + pattern_cost(plain, s) < best.bytes {
                lemma_extend_encoding(start, current, max, s, child, plain);
            }
            let next = improved(first, child, packed, s);
            if child.bytes + pattern_cost(packed, s) < first.bytes {
                lemma_extend_encoding(start, current, max, s, child, packed);
            }
            lemma_dominates_take(
                best.bytes,
                next.bytes,
                child.bytes,
                s,
                start,
                current,
                max,
                from,
                len,
            );
            lemma_enumerate_optimal(start, current, max, s, from, len + 1, next);
        } else {
            lemma_dominates_skip(best.bytes, s, start, current, max, from, len);
            lemma_enumerate_optimal(start, current, max, s, from, len + 1, best);
        }
    }
}

} // verus!
