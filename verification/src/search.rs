//! The memoized search: every feasible candidate is tried on the sequence,
//! the search goes on with what the candidate leaves, and the cheapest
//! encoding found is kept.

use vstd::prelude::*;
use vstd::slice::slice_subrange;
use crate::apply::apply_pattern;
use crate::chain::{is_search_result, MAX_PATTERN_LEN};
use crate::cost::{count_literals, segment_overhead, FAKE, MAX_PATTERNS};
use crate::memo::{Memo, MemoKey};
use crate::model::{enumerate, lemma_search_model_optimal, search_model};
use crate::types::{copy_bytes, copy_pats, Pat, Pattern, Sol, Solution};

verus! {

/// Every stored solution is what the search returns on its subproblem.
pub open spec fn memo_sound(m: Map<MemoKey, Solution>) -> bool {
    forall|k: MemoKey| #[trigger]
        m.contains_key(k) ==> m[k] == search_model(k.0 as int, k.1 as int, k.2 as int, k.3)
}

/// Every subproblem stored in `before` is stored in `after`, with the same
/// solution.
pub open spec fn memo_extends(before: Map<MemoKey, Solution>, after: Map<MemoKey, Solution>) -> bool {
    forall|k: MemoKey| #[trigger]
        before.contains_key(k) ==> after.contains_key(k) && after[k] == before[k]
}

/// Every subproblem that `after` stores and `before` does not belongs to the
/// segment `(start, max)` and holds at least `current` patterns.
pub open spec fn memo_added_from(
    before: Map<MemoKey, Solution>,
    after: Map<MemoKey, Solution>,
    start: usize,
    current: usize,
    max: usize,
) -> bool {
    forall|k: MemoKey| #[trigger]
        after.contains_key(k) && !before.contains_key(k) ==> k.0 == start && k.1 >= current && k.2
            == max
}

/// The solution `child` with the pattern `(sub, rle)` added at the end of
/// its list, at the cost `bytes`.
fn with_pattern(child: &Sol, sub: &[u8], rle: bool, bytes: isize) -> (sol: Sol)
    ensures
        sol@ == (Solution {
            res: child@.res,
            pats: child@.pats.push(Pattern { s: sub@, rle }),
            bytes: bytes as int,
        }),
{
    let mut pats = copy_pats(&child.pats);
    pats.push(Pat { s: copy_bytes(sub), rle });
    let sol = Sol { res: copy_bytes(child.res.as_slice()), pats, bytes };
    assert(sol@.pats =~= child@.pats.push(Pattern { s: sub@, rle }));
    sol
}

/// The search on the subproblem `(start, current, max, s)`, with the
/// solutions of subproblems kept in `memo`.
///
/// A stored solution is handed back as it is. Otherwise the baseline, which
/// leaves `s` alone, is compared with every feasible candidate in both
/// encoding modes, each followed by the search on what it leaves; the
/// cheapest is stored and returned, and the earlier one wins a tie. At the
/// ceiling the baseline is returned and nothing is stored.
pub fn solve_brute_with(
    memo: &mut Memo,
    start: usize,
    current: usize,
    max: usize,
    s: &[u8],
) -> (best: Sol)
    requires
        old(memo).wf(),
        memo_sound(old(memo)@),
        start <= MAX_PATTERNS,
        current <= max <= MAX_PATTERNS,
        s.len() <= isize::MAX - 3,
    ensures
        best@ == search_model(start as int, current as int, max as int, s@),
        is_search_result(start as int, current as int, max as int, s@, best@),
        final(memo).wf(),
        memo_sound(final(memo)@),
        memo_extends(old(memo)@, final(memo)@),
        memo_added_from(old(memo)@, final(memo)@, start, current, max),
        old(memo)@.contains_key((start, current, max, s@)) || current == max ==> final(memo)@
            == old(memo)@,
        current < max ==> final(memo)@.contains_key((start, current, max, s@)),
    decreases max - current,
{
    let ghost before = memo@;
    let ghost key: MemoKey = (start, current, max, s@);
    let ghost target = search_model(start as int, current as int, max as int, s@);
    proof {
        lemma_search_model_optimal(start as int, current as int, max as int, s@);
    }
    if let Some(hit) = memo.get(start, current, max, s) {
        return hit;
    }
    let literals = count_literals(s);
    let base: isize = literals as isize + segment_overhead(start, current);
    let mut best = Sol { res: copy_bytes(s), pats: Vec::new(), bytes: base };
    assert(best@.pats =~= Seq::<Pattern>::empty());
    if current == max {
        return best;
    }
    let mut from: usize = 0;
    while from < s.len()
        invariant
            memo.wf(),
            memo_sound(memo@),
            memo_extends(before, memo@),
            memo_added_from(before, memo@, start, (current + 1) as usize, max),
            start <= MAX_PATTERNS,
            current < max <= MAX_PATTERNS,
            s.len() <= isize::MAX - 3,
            from <= s.len(),
            enumerate(start as int, current as int, max as int, s@, from as int, 0, best@)
                == target,
        decreases s.len() - from,
    {
        let mut len: usize = 0;
        while from + len < s.len() && len < MAX_PATTERN_LEN && s[from + len] != FAKE
            invariant
                memo.wf(),
                memo_sound(memo@),
                memo_extends(before, memo@),
                memo_added_from(before, memo@, start, (current + 1) as usize, max),
                start <= MAX_PATTERNS,
                current < max <= MAX_PATTERNS,
                s.len() <= isize::MAX - 3,
                from < s.len(),
                len <= MAX_PATTERN_LEN,
                from + len <= s.len(),
                enumerate(
                    start as int,
                    current as int,
                    max as int,
                    s@,
                    from as int,
                    len as int,
                    best@,
                ) == target,
            decreases s.len() - from - len,
        {
            len += 1;
            let sub = slice_subrange(s, from, from + len);
            let applied = apply_pattern(sub, s);
            if applied.is_feasible(len) {
                let child = solve_brute_with(memo, start, current + 1, max, applied.out.as_slice());
                let plain: i128 = child.bytes as i128 + len as i128
                    + applied.literal_ref_cost as i128;
                if plain < best.bytes as i128 {
                    best = with_pattern(&child, sub, false, plain as isize);
                }
                let packed: i128 = child.bytes as i128 + len as i128
                    + applied.rle_ref_cost as i128;
                if packed < best.bytes as i128 {
                    best = with_pattern(&child, sub, true, packed as isize);
                }
            }
        }
        from += 1;
    }
    assert(!memo@.contains_key(key));
    memo.insert(start, current, max, s, best.clone());
    best
}

/// The search on the subproblem `(start_pat_count, pat_count,
/// max_pat_count, s)`, with a memo table of its own.
///
/// Returns a cheapest encoding of `s` among all chains of at most
/// `max_pat_count - pat_count` admissible patterns, its patterns listed last
/// applied first. Among several cheapest the order of the enumeration
/// decides.
pub fn solve_brute(start_pat_count: usize, pat_count: usize, max_pat_count: usize, s: &[u8]) -> (best:
    Sol)
    requires
        start_pat_count <= MAX_PATTERNS,
        pat_count <= max_pat_count <= MAX_PATTERNS,
        s.len() <= isize::MAX - 3,
    ensures
        best@ == search_model(start_pat_count as int, pat_count as int, max_pat_count as int, s@),
        is_search_result(start_pat_count as int, pat_count as int, max_pat_count as int, s@, best@),
{
    let mut memo = Memo::new();
    solve_brute_with(&mut memo, start_pat_count, pat_count, max_pat_count, s)
}

} // verus!
