//! Chains of substitutions: what it means to apply an ordered list of
//! patterns to a sequence, and what the encoding that results costs.

use vstd::prelude::*;
use crate::apply::{
    applied,
    feasible,
    lemma_applied_len,
    literal_ref_cost,
    matches_at,
    rle_ref_cost,
    sentinel_free,
};
use crate::cost::{effective_overhead, literal_count};
use crate::types::{Pattern, Solution};

verus! {

/// The longest substring that can become a pattern.
pub const MAX_PATTERN_LEN: usize = 12;

/// `sub` can be tried on `s`: it has between one and twelve bytes, none of
/// them the placeholder, and occurs in `s`.
pub open spec fn is_candidate(sub: Seq<u8>, s: Seq<u8>) -> bool {
    &&& 1 <= sub.len() <= MAX_PATTERN_LEN
    &&& sentinel_free(sub)
    &&& exists|at: int| matches_at(sub, s, at)
}

/// `sub` can be tried on `s` and pays for itself there.
pub open spec fn admissible(sub: Seq<u8>, s: Seq<u8>) -> bool {
    is_candidate(sub, s) && feasible(sub, s)
}

/// What the pattern `p` adds to the cost when it is applied to `s`: its own
/// bytes and the references to its matches.
pub open spec fn pattern_cost(p: Pattern, s: Seq<u8>) -> nat {
    p.s.len() + if p.rle {
        rle_ref_cost(p.s, s)
    } else {
        literal_ref_cost(p.s, s)
    }
}

/// Every pattern of `chain`, applied in order from `s` on, is admissible on
/// the sequence that the patterns before it have left.
pub open spec fn chain_valid(chain: Seq<Pattern>, s: Seq<u8>) -> bool
    decreases chain.len(),
{
    chain.len() == 0 || (admissible(chain[0].s, s) && chain_valid(
        chain.drop_first(),
        applied(chain[0].s, s),
    ))
}

/// The sequence that is left when the patterns of `chain` have been applied
/// to `s` in order.
pub open spec fn chain_result(chain: Seq<Pattern>, s: Seq<u8>) -> Seq<u8>
    decreases chain.len(),
{
    if chain.len() == 0 {
        s
    } else {
        chain_result(chain.drop_first(), applied(chain[0].s, s))
    }
}

/// What the patterns of `chain` add to the cost, each on the sequence that
/// the patterns before it have left.
pub open spec fn chain_ref_cost(chain: Seq<Pattern>, s: Seq<u8>) -> nat
    decreases chain.len(),
{
    if chain.len() == 0 {
        0
    } else {
        pattern_cost(chain[0], s) + chain_ref_cost(chain.drop_first(), applied(chain[0].s, s))
    }
}

/// Cost of leaving `s` as it is, in a segment that began with `start`
/// patterns and holds `current`.
pub open spec fn baseline_cost(s: Seq<u8>, start: int, current: int) -> int {
    literal_count(s) + effective_overhead(start, current)
}

/// Total cost of encoding `s` with `chain`, in a segment that began with
/// `start` patterns and held `current` before the chain.
pub open spec fn chain_cost(chain: Seq<Pattern>, s: Seq<u8>, start: int, current: int) -> int {
    baseline_cost(chain_result(chain, s), start, current + chain.len()) + chain_ref_cost(chain, s)
}

/// `sol` encodes `s` with at most `max - current` admissible patterns, listed
/// last applied first: its sequence is what they leave, its cost is what
/// they cost, and it holds a pattern only if that beats leaving `s` alone.
pub open spec fn is_encoding(start: int, current: int, max: int, s: Seq<u8>, sol: Solution) -> bool {
    let chain = sol.pats.reverse();
    &&& chain.len() <= max - current
    &&& chain_valid(chain, s)
    &&& sol.res == chain_result(chain, s)
    &&& sol.bytes == chain_cost(chain, s, start, current)
    &&& chain.len() > 0 ==> sol.bytes < baseline_cost(s, start, current)
}

/// No chain of at most `max - current` admissible patterns encodes `s` in
/// fewer than `bytes` bytes.
pub open spec fn is_lower_bound(bytes: int, start: int, current: int, max: int, s: Seq<u8>) -> bool {
    forall|c: Seq<Pattern>| #[trigger]
        chain_valid(c, s) && c.len() <= max - current ==> bytes <= chain_cost(c, s, start, current)
}

/// `sol` is a cheapest encoding of `s` among all chains of at most
/// `max - current` admissible patterns.
pub open spec fn is_search_result(
    start: int,
    current: int,
    max: int,
    s: Seq<u8>,
    sol: Solution,
) -> bool {
    &&& is_encoding(start, current, max, s, sol)
    &&& is_lower_bound(sol.bytes, start, current, max, s)
}

/// A chain with `p` in front costs what `p` costs on `s` and what the rest
/// costs on the sequence that `p` leaves.
pub proof fn lemma_chain_cons(p: Pattern, rest: Seq<Pattern>, s: Seq<u8>, start: int, current: int)
    ensures
        chain_valid(seq![p] + rest, s) == (admissible(p.s, s) && chain_valid(
            rest,
            applied(p.s, s),
        )),
        chain_result(seq![p] + rest, s) == chain_result(rest, applied(p.s, s)),
        chain_ref_cost(seq![p] + rest, s) == pattern_cost(p, s) + chain_ref_cost(
            rest,
            applied(p.s, s),
        ),
        chain_cost(seq![p] + rest, s, start, current) == pattern_cost(p, s) + chain_cost(
            rest,
            applied(p.s, s),
            start,
            current + 1,
        ),
{
    let c = seq![p] + rest;
    assert(c.drop_first() =~= rest);
    assert(c[0] == p);
}

/// Applying `a + b` is applying `a` and then `b`.
pub proof fn lemma_chain_concat(a: Seq<Pattern>, b: Seq<Pattern>, s: Seq<u8>)
    ensures
        chain_valid(a + b, s) == (chain_valid(a, s) && chain_valid(b, chain_result(a, s))),
        chain_result(a + b, s) == chain_result(b, chain_result(a, s)),
        chain_ref_cost(a + b, s) == chain_ref_cost(a, s) + chain_ref_cost(b, chain_result(a, s)),
    decreases a.len(),
{
    if a.len() == 0 {
        assert(a + b =~= b);
    } else {
        let next = applied(a[0].s, s);
        assert((a + b).drop_first() =~= a.drop_first() + b);
        assert((a + b)[0] == a[0]);
        lemma_chain_concat(a.drop_first(), b, next);
    }
}

/// Leaving the sequence alone is always a valid encoding, and its cost is
/// the baseline.
pub proof fn lemma_empty_chain_is_baseline(s: Seq<u8>, start: int, current: int)
    ensures
        chain_valid(Seq::<Pattern>::empty(), s),
        chain_result(Seq::<Pattern>::empty(), s) == s,
        chain_cost(Seq::<Pattern>::empty(), s, start, current) == baseline_cost(s, start, current),
{
}

/// A pattern list with `p` added at its end is, last applied first, the
/// chain that applies `p` and then the rest.
pub proof fn lemma_reverse_push(pats: Seq<Pattern>, p: Pattern)
    ensures
        pats.push(p).reverse() == seq![p] + pats.reverse(),
{
    assert(pats.push(p).reverse() =~= seq![p] + pats.reverse());
}

/// An encoding of what `p` leaves of `s`, with `p` added, encodes `s`,
/// provided that `p` is admissible on `s` and the whole beats the baseline.
pub proof fn lemma_extend_encoding(
    start: int,
    current: int,
    max: int,
    s: Seq<u8>,
    child: Solution,
    p: Pattern,
)
    requires
        is_encoding(start, current + 1, max, applied(p.s, s), child),
        admissible(p.s, s),
        child.bytes + pattern_cost(p, s) < baseline_cost(s, start, current),
    ensures
        is_encoding(
            start,
            current,
            max,
            s,
            Solution {
                res: child.res,
                pats: child.pats.push(p),
                bytes: child.bytes + pattern_cost(p, s),
            },
        ),
{
    lemma_reverse_push(child.pats, p);
    lemma_chain_cons(p, child.pats.reverse(), s, start, current);
}

/// No chain lengthens the sequence.
pub proof fn lemma_chain_result_len(chain: Seq<Pattern>, s: Seq<u8>)
    ensures
        chain_result(chain, s).len() <= s.len(),
    decreases chain.len(),
{
    if chain.len() > 0 {
        lemma_applied_len(chain[0].s, s);
        lemma_chain_result_len(chain.drop_first(), applied(chain[0].s, s));
    }
}

/// Every pattern of a valid chain was admissible, and so feasible, on the
/// sequence that the patterns before it had left.
pub proof fn lemma_chain_each_admissible(chain: Seq<Pattern>, s: Seq<u8>, i: int)
    requires
        chain_valid(chain, s),
        0 <= i < chain.len(),
    ensures
        admissible(chain[i].s, chain_result(chain.take(i), s)),
        feasible(chain[i].s, chain_result(chain.take(i), s)),
    decreases i,
{
    if i == 0 {
        assert(chain.take(0) =~= Seq::<Pattern>::empty());
    } else {
        let rest = chain.drop_first();
        lemma_chain_each_admissible(rest, applied(chain[0].s, s), i - 1);
        assert(chain.take(i).drop_first() =~= rest.take(i - 1));
        assert(chain.take(i)[0] == chain[0]);
        assert(rest[i - 1] == chain[i]);
    }
}

} // verus!

