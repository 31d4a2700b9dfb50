//! The batch driver: the search is run with a bounded horizon, the patterns
//! it finds are committed, and the next batch starts from what they leave,
//! until the dictionary is full or a batch finds nothing that pays.

use vstd::prelude::*;
use crate::chain::{
    baseline_cost,
    chain_cost,
    chain_result,
    chain_valid,
    is_lower_bound,
    is_search_result,
    lemma_chain_concat,
    lemma_chain_result_len,
    lemma_reverse_push,
};
use crate::cost::{lemma_literal_count_le_len, MAX_PATTERNS};
use crate::memo::Memo;
use crate::model::{lemma_search_model_optimal, search_model};
use crate::search::{memo_extends, memo_sound, solve_brute_with};
use crate::types::{copy_bytes, pats_view, Pat, Pattern, Sol, Solution};

verus! {

/// The pattern count at which a batch stops: `increment` more than are
/// committed, but never more than the dictionary holds.
pub open spec fn ceiling(committed: int, increment: int) -> int {
    if committed + increment >= MAX_PATTERNS {
        MAX_PATTERNS as int
    } else {
        committed + increment
    }
}

/// `batch`, in the order of application, is what one batch may commit on
/// `s`: a cheapest chain among those that bring the pattern count from
/// `committed` to at most `limit`, and cheaper than leaving `s` alone.
pub open spec fn is_batch(batch: Seq<Pattern>, s: Seq<u8>, committed: int, limit: int) -> bool {
    &&& 0 < batch.len() <= limit - committed
    &&& chain_valid(batch, s)
    &&& chain_cost(batch, s, committed, committed) < baseline_cost(s, committed, committed)
    &&& is_lower_bound(chain_cost(batch, s, committed, committed), committed, committed, limit, s)
}

/// No chain that brings the pattern count from `committed` to at most
/// `limit` is cheaper than leaving `s` alone.
pub open spec fn no_improvement(s: Seq<u8>, committed: int, limit: int) -> bool {
    is_lower_bound(baseline_cost(s, committed, committed), committed, committed, limit, s)
}

/// `chain`, in the order of application, is what the driver may commit from
/// the sequence `s` on, with `committed` patterns in the dictionary: batch
/// after batch, each within its horizon, until the dictionary is full or no
/// batch pays.
pub open spec fn is_batch_run(chain: Seq<Pattern>, s: Seq<u8>, committed: int, increment: int) -> bool
    decreases chain.len(),
{
    if committed >= MAX_PATTERNS {
        chain.len() == 0
    } else if chain.len() == 0 {
        no_improvement(s, committed, ceiling(committed, increment))
    } else {
        exists|m: int|
            1 <= m <= chain.len() && is_batch(
                #[trigger] chain.take(m),
                s,
                committed,
                ceiling(committed, increment),
            ) && is_batch_run(
                chain.skip(m),
                chain_result(chain.take(m), s),
                committed + m,
                increment,
            )
    }
}

/// One step of the driver: `after` is `before` with one batch committed, or
/// `before` itself where no batch within the horizon pays.
pub open spec fn batch_committed(before: Solution, after: Solution, increment: int) -> bool {
    let committed = before.pats.len() as int;
    let limit = ceiling(committed, increment);
    let batch = after.pats.skip(committed);
    &&& after.pats.len() >= committed
    &&& after.pats.take(committed) == before.pats
    &&& after.res == chain_result(batch, before.res)
    &&& after.bytes == before.bytes
    &&& if batch.len() == 0 {
        no_improvement(before.res, committed, limit)
    } else {
        is_batch(batch, before.res, committed, limit)
    }
}

/// What one iteration of the driver makes of `before`: the patterns that the
/// search finds within the horizon are added in the order of application,
/// the sequence becomes what they leave, and the cost field stays.
pub open spec fn commit_model(before: Solution, increment: int) -> Solution {
    let committed = before.pats.len() as int;
    let batch = search_model(committed, committed, ceiling(committed, increment), before.res);
    Solution { res: batch.res, pats: before.pats + batch.pats.reverse(), bytes: before.bytes }
}

/// What the driver makes of `cur`: it commits batch after batch and stops
/// when the dictionary is full or a batch adds nothing.
pub open spec fn drive(cur: Solution, increment: int) -> Solution
    decreases MAX_PATTERNS - cur.pats.len(),
{
    let next = commit_model(cur, increment);
    if cur.pats.len() >= MAX_PATTERNS || next.pats.len() <= cur.pats.len() || next.pats.len()
        > MAX_PATTERNS {
        cur
    } else {
        drive(next, increment)
    }
}

/// What the driver returns for the input `s`: it starts with no pattern and
/// the raw length of `s` as cost.
pub open spec fn solve_model(s: Seq<u8>, increment: int) -> Solution {
    drive(Solution { res: s, pats: Seq::empty(), bytes: s.len() as int }, increment)
}

/// A result of the search that holds a pattern is, in the order of
/// application, a batch; one that holds none shows that nothing pays.
pub proof fn lemma_search_result_is_batch(committed: int, limit: int, s: Seq<u8>, sol: Solution)
    requires
        is_search_result(committed, committed, limit, s, sol),
    ensures
        sol.pats.len() > 0 ==> is_batch(sol.pats.reverse(), s, committed, limit),
        sol.pats.len() == 0 ==> no_improvement(s, committed, limit) && sol.res == s,
{
    if sol.pats.len() == 0 {
        assert(sol.pats.reverse() =~= Seq::<Pattern>::empty());
    }
}

/// What the driver may commit is a valid chain that fills the dictionary at
/// most, and it encodes the sequence in no more bytes than leaving it alone.
pub proof fn lemma_batch_run_pays(chain: Seq<Pattern>, s: Seq<u8>, committed: int, increment: int)
    requires
        0 <= committed <= MAX_PATTERNS,
        is_batch_run(chain, s, committed, increment),
    ensures
        chain_valid(chain, s),
        committed + chain.len() <= MAX_PATTERNS,
        chain_cost(chain, s, committed, committed) <= baseline_cost(s, committed, committed),
    decreases chain.len(),
{
    if committed < MAX_PATTERNS && chain.len() > 0 {
        let limit = ceiling(committed, increment);
        let m = choose|m: int|
            1 <= m <= chain.len() && is_batch(#[trigger] chain.take(m), s, committed, limit)
                && is_batch_run(
                chain.skip(m),
                chain_result(chain.take(m), s),
                committed + m,
                increment,
            );
        let batch = chain.take(m);
        let rest = chain.skip(m);
        let mid = chain_result(batch, s);
        lemma_batch_run_pays(rest, mid, committed + m, increment);
        assert(chain =~= batch + rest);
        lemma_chain_concat(batch, rest, s);
    }
}

/// With an increment of eight or more the driver returns what one search of
/// full depth returns: a cheapest encoding among all chains of at most eight
/// admissible patterns.
pub proof fn lemma_full_horizon_is_exact(chain: Seq<Pattern>, s: Seq<u8>, increment: int)
    requires
        increment >= MAX_PATTERNS,
        is_batch_run(chain, s, 0, increment),
    ensures
        is_search_result(
            0,
            0,
            MAX_PATTERNS as int,
            s,
            Solution {
                res: chain_result(chain, s),
                pats: chain.reverse(),
                bytes: chain_cost(chain, s, 0, 0),
            },
        ),
{
    let limit = MAX_PATTERNS as int;
    assert(chain.reverse().reverse() =~= chain);
    if chain.len() > 0 {
        let m = choose|m: int|
            1 <= m <= chain.len() && is_batch(#[trigger] chain.take(m), s, 0, limit)
                && is_batch_run(chain.skip(m), chain_result(chain.take(m), s), m, increment);
        let batch = chain.take(m);
        let rest = chain.skip(m);
        let mid = chain_result(batch, s);
        if rest.len() > 0 {
            let m2 = choose|m2: int|
                1 <= m2 <= rest.len() && is_batch(#[trigger] rest.take(m2), mid, m, limit)
                    && is_batch_run(
                    rest.skip(m2),
                    chain_result(rest.take(m2), mid),
                    m + m2,
                    increment,
                );
            lemma_exact_batch_is_final(batch, s);
            assert(chain_valid(rest.take(m2), mid));
            assert(false);
        }
        assert(chain =~= batch);
    }
}

/// After a batch that was searched to full depth nothing more pays: a chain
/// that did would make, with the batch before it, a chain of at most eight
/// patterns that is cheaper than the cheapest.
proof fn lemma_exact_batch_is_final(first: Seq<Pattern>, s: Seq<u8>)
    requires
        is_batch(first, s, 0, MAX_PATTERNS as int),
    ensures
        no_improvement(chain_result(first, s), first.len() as int, MAX_PATTERNS as int),
{
    let mid = chain_result(first, s);
    let done = first.len() as int;
    assert forall|c: Seq<Pattern>| #[trigger]
        chain_valid(c, mid) && c.len() <= MAX_PATTERNS - done implies baseline_cost(
        mid,
        done,
        done,
    ) <= chain_cost(c, mid, done, done) by {
        lemma_chain_concat(first, c, s);
        assert(chain_valid(first + c, s));
        assert(chain_cost(first, s, 0, 0) <= chain_cost(first + c, s, 0, 0));
    }
}

/// With an increment of eight or more the driver returns the sequence and
/// the patterns of one search of full depth, the patterns turned round into
/// the order of application.
pub proof fn lemma_full_horizon_is_one_search(s: Seq<u8>, increment: int)
    requires
        increment >= MAX_PATTERNS,
    ensures
        solve_model(s, increment).res == search_model(0, 0, MAX_PATTERNS as int, s).res,
        solve_model(s, increment).pats == search_model(0, 0, MAX_PATTERNS as int, s).pats.reverse(),
{
    let limit = MAX_PATTERNS as int;
    let init = Solution { res: s, pats: Seq::<Pattern>::empty(), bytes: s.len() as int };
    let batch = search_model(0, 0, limit, s);
    lemma_search_model_optimal(0, 0, limit, s);
    lemma_search_result_is_batch(0, limit, s, batch);
    let next = commit_model(init, increment);
    assert(next.pats =~= batch.pats.reverse());
    if batch.pats.len() == 0 {
        assert(init.pats =~= batch.pats.reverse());
        assert(drive(init, increment) == init);
    } else if next.pats.len() < MAX_PATTERNS {
        let second = search_model(next.pats.len() as int, next.pats.len() as int, limit, next.res);
        lemma_search_model_optimal(next.pats.len() as int, next.pats.len() as int, limit, next.res);
        lemma_search_result_is_batch(next.pats.len() as int, limit, next.res, second);
        lemma_exact_batch_is_final(batch.pats.reverse(), s);
        if second.pats.len() > 0 {
            assert(chain_valid(second.pats.reverse(), next.res));
        }
        assert(second.pats.len() == 0);
        assert(commit_model(next, increment).pats =~= next.pats);
        assert(drive(next, increment) == next);
        assert(drive(init, increment) == drive(next, increment));
    } else {
        assert(drive(next, increment) == next);
        assert(drive(init, increment) == drive(next, increment));
    }
}

/// Moves the patterns of `src` to the end of `dst`, last first.
pub fn append_reversed(dst: &mut Vec<Pat>, src: Vec<Pat>)
    ensures
        pats_view(final(dst)@) == pats_view(old(dst)@) + pats_view(src@).reverse(),
{
    let ghost whole = pats_view(dst@) + pats_view(src@).reverse();
    let mut src = src;
    while src.len() > 0
        invariant
            pats_view(dst@) + pats_view(src@).reverse() == whole,
        decreases src.len(),
    {
        let ghost rest = pats_view(src@).drop_last();
        let ghost head = pats_view(dst@);
        let p = src.pop().unwrap();
        proof {
            assert(pats_view(src@) =~= rest);
            lemma_reverse_push(rest, p@);
            assert(head.push(p@) + rest.reverse() =~= head + (seq![p@] + rest.reverse()));
        }
        dst.push(p);
        assert(pats_view(dst@) =~= head.push(p@));
    }
    assert(pats_view(src@).reverse() =~= Seq::<Pattern>::empty());
    assert(pats_view(dst@) + Seq::<Pattern>::empty() =~= pats_view(dst@));
}

/// One iteration of the driver. The search runs on the sequence of `result`
/// with the horizon `max_at_once`; the patterns it finds are added to
/// `result` in the order of application and its sequence is replaced by
/// what they leave. Returns whether a pattern was committed.
pub fn commit_batch(memo: &mut Memo, result: &mut Sol, max_at_once: usize) -> (more: bool)
    requires
        old(memo).wf(),
        memo_sound(old(memo)@),
        old(result).pats.len() < MAX_PATTERNS,
        old(result).res.len() <= isize::MAX - 3,
    ensures
        final(memo).wf(),
        memo_sound(final(memo)@),
        memo_extends(old(memo)@, final(memo)@),
        final(result)@ == commit_model(old(result)@, max_at_once as int),
        batch_committed(old(result)@, final(result)@, max_at_once as int),
        more == (final(result).pats.len() > old(result).pats.len()),
        final(result).pats.len() <= old(result).pats.len() + max_at_once,
        final(result).pats.len() <= MAX_PATTERNS,
        final(result).res.len() <= old(result).res.len(),
{
    let committed = result.pats.len();
    let limit = if max_at_once >= MAX_PATTERNS - committed {
        MAX_PATTERNS
    } else {
        committed + max_at_once
    };
    let batch = solve_brute_with(memo, committed, committed, limit, result.res.as_slice());
    let ghost before = result@;
    let ghost found = batch@;
    proof {
        lemma_search_result_is_batch(committed as int, limit as int, before.res, found);
        lemma_chain_result_len(found.pats.reverse(), before.res);
    }
    if batch.pats.len() == 0 {
        proof {
            assert(found.pats =~= Seq::<Pattern>::empty());
            assert(before.pats.skip(committed as int) =~= Seq::<Pattern>::empty());
            assert(before.pats.take(committed as int) =~= before.pats);
            assert(before.pats + found.pats.reverse() =~= before.pats);
        }
        return false;
    }
    let Sol { res, pats, bytes: _ } = batch;
    result.res = res;
    append_reversed(&mut result.pats, pats);
    proof {
        let after = result@;
        assert(after.pats =~= before.pats + found.pats.reverse());
        assert(after.pats.skip(committed as int) =~= found.pats.reverse());
        assert(after.pats.take(committed as int) =~= before.pats);
    }
    true
}

/// Encodes `s` batch by batch, with at most `max_at_once` new patterns in a
/// batch and eight in all.
///
/// The result holds the committed patterns in the order of application and
/// the sequence that they leave; its cost field is the raw length of `s`,
/// which the encoding never exceeds. With `max_at_once` of eight or more
/// the first batch is a search of full depth, and the result holds its
/// sequence and its patterns.
pub fn solve(s: &[u8], max_at_once: usize) -> (result: Sol)
    requires
        s.len() <= isize::MAX - 3,
    ensures
        result@ == solve_model(s@, max_at_once as int),
        is_batch_run(result@.pats, s@, 0, max_at_once as int),
        result@.res == chain_result(result@.pats, s@),
        result.bytes == s.len(),
        chain_valid(result@.pats, s@),
        result.pats.len() <= MAX_PATTERNS,
        chain_cost(result@.pats, s@, 0, 0) <= s.len(),
        max_at_once >= MAX_PATTERNS ==> result@.res == search_model(
            0,
            0,
            MAX_PATTERNS as int,
            s@,
        ).res && result@.pats == search_model(0, 0, MAX_PATTERNS as int, s@).pats.reverse(),
        max_at_once >= MAX_PATTERNS ==> is_lower_bound(
            chain_cost(result@.pats, s@, 0, 0),
            0,
            0,
            MAX_PATTERNS as int,
            s@,
        ),
{
    let mut memo = Memo::new();
    let mut result = Sol { res: copy_bytes(s), pats: Vec::new(), bytes: s.len() as isize };
    let mut more = true;
    let ghost increment = max_at_once as int;
    proof {
        assert(result@.pats =~= Seq::<Pattern>::empty());
        assert forall|tail: Seq<Pattern>| #[trigger]
            is_batch_run(tail, result@.res, 0, increment) implies is_batch_run(
            result@.pats + tail,
            s@,
            0,
            increment,
        ) by {
            assert(result@.pats + tail =~= tail);
        }
    }
    while more && result.pats.len() < MAX_PATTERNS
        invariant
            memo.wf(),
            memo_sound(memo@),
            increment == max_at_once,
            s.len() <= isize::MAX - 3,
            result.bytes == s.len(),
            result.res.len() <= s.len(),
            result.pats.len() <= MAX_PATTERNS,
            drive(result@, increment) == solve_model(s@, increment),
            !more ==> drive(result@, increment) == result@,
            chain_valid(result@.pats, s@),
            result@.res == chain_result(result@.pats, s@),
            forall|tail: Seq<Pattern>| #[trigger]
                is_batch_run(tail, result@.res, result@.pats.len() as int, increment)
                    ==> is_batch_run(result@.pats + tail, s@, 0, increment),
            !more ==> is_batch_run(
                Seq::<Pattern>::empty(),
                result@.res,
                result@.pats.len() as int,
                increment,
            ),
        decreases MAX_PATTERNS - result.pats.len() + if more { 1int } else { 0int },
    {
        let ghost before = result@;
        more = commit_batch(&mut memo, &mut result, max_at_once);
        proof {
            let after = result@;
            let committed = before.pats.len() as int;
            let batch = after.pats.skip(committed);
            assert(after.pats =~= before.pats + batch);
            lemma_chain_concat(before.pats, batch, s@);
            if batch.len() == 0 {
                assert(after.pats =~= before.pats);
            } else {
                assert forall|tail: Seq<Pattern>| #[trigger]
                    is_batch_run(tail, after.res, after.pats.len() as int, increment) implies is_batch_run(
                    after.pats + tail,
                    s@,
                    0,
                    increment,
                ) by {
                    let longer = batch + tail;
                    assert(longer.take(batch.len() as int) =~= batch);
                    assert(longer.skip(batch.len() as int) =~= tail);
                    assert(is_batch_run(longer, before.res, committed, increment));
                    assert(before.pats + longer =~= after.pats + tail);
                }
            }
        }
    }
    proof {
        let done = Seq::<Pattern>::empty();
        assert(is_batch_run(done, result@.res, result@.pats.len() as int, increment));
        assert(result@.pats + done =~= result@.pats);
        lemma_batch_run_pays(result@.pats, s@, 0, increment);
        lemma_literal_count_le_len(s@);
        if max_at_once >= MAX_PATTERNS {
            lemma_full_horizon_is_exact(result@.pats, s@, increment);
            lemma_full_horizon_is_one_search(s@, increment);
        }
    }
    result
}

} // verus!
