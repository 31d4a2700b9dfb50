//! The pattern applicator: one left-to-right scan that collapses every run
//! of consecutive matches of a pattern into a single placeholder.

use vstd::prelude::*;
use crate::cost::FAKE;

verus! {

/// `sub` occurs in `s` at position `at`.
pub open spec fn matches_at(sub: Seq<u8>, s: Seq<u8>, at: int) -> bool {
    &&& 0 <= at
    &&& at + sub.len() <= s.len()
    &&& s.subrange(at, at + sub.len()) == sub
}

/// What the scan emits from position `at` on. `in_run` says that the byte
/// before `at` ended a match, so that a match at `at` continues a run.
pub open spec fn scan_out(sub: Seq<u8>, s: Seq<u8>, at: int, in_run: bool) -> Seq<u8>
    decreases s.len() - at,
{
    if at < 0 || at >= s.len() || sub.len() == 0 {
        Seq::empty()
    } else if matches_at(sub, s, at) {
        let rest = scan_out(sub, s, at + sub.len(), true);
        if in_run {
            rest
        } else {
            seq![FAKE] + rest
        }
    } else {
        seq![s[at]] + scan_out(sub, s, at + 1, false)
    }
}

/// Number of matches that the scan consumes from position `at` on.
pub open spec fn scan_matches(sub: Seq<u8>, s: Seq<u8>, at: int) -> nat
    decreases s.len() - at,
{
    if at < 0 || at >= s.len() || sub.len() == 0 {
        0
    } else if matches_at(sub, s, at) {
        1 + scan_matches(sub, s, at + sub.len())
    } else {
        scan_matches(sub, s, at + 1)
    }
}

/// Number of runs that the scan opens from position `at` on.
pub open spec fn scan_runs(sub: Seq<u8>, s: Seq<u8>, at: int, in_run: bool) -> nat
    decreases s.len() - at,
{
    if at < 0 || at >= s.len() || sub.len() == 0 {
        0
    } else if matches_at(sub, s, at) {
        let rest = scan_runs(sub, s, at + sub.len(), true);
        if in_run {
            rest
        } else {
            1 + rest
        }
    } else {
        scan_runs(sub, s, at + 1, false)
    }
}

/// The sequence that is left when every run of `sub` in `s` has become one
/// placeholder.
pub open spec fn applied(sub: Seq<u8>, s: Seq<u8>) -> Seq<u8> {
    scan_out(sub, s, 0, false)
}

/// Number of non-overlapping matches of `sub` that the scan finds in `s`.
pub open spec fn match_count(sub: Seq<u8>, s: Seq<u8>) -> nat {
    scan_matches(sub, s, 0)
}

/// Number of maximal blocks of consecutive matches of `sub` in `s`.
pub open spec fn run_count(sub: Seq<u8>, s: Seq<u8>) -> nat {
    scan_runs(sub, s, 0, false)
}

/// Bytes of `s` that the matches of `sub` cover.
pub open spec fn occupied(sub: Seq<u8>, s: Seq<u8>) -> nat {
    match_count(sub, s) * sub.len()
}

/// Cost of referring to every match by itself: one unit per match.
pub open spec fn literal_ref_cost(sub: Seq<u8>, s: Seq<u8>) -> nat {
    match_count(sub, s)
}

/// Cost of referring to every run by a run-length header: three units per run.
pub open spec fn rle_ref_cost(sub: Seq<u8>, s: Seq<u8>) -> nat {
    3 * run_count(sub, s)
}

/// The cheaper of the two ways to refer to the matches of `sub` in `s`.
pub open spec fn min_ref_cost(sub: Seq<u8>, s: Seq<u8>) -> nat {
    if rle_ref_cost(sub, s) <= literal_ref_cost(sub, s) {
        rle_ref_cost(sub, s)
    } else {
        literal_ref_cost(sub, s)
    }
}

/// Defining `sub` and referring to it costs no more than the bytes that it
/// removes from `s`.
pub open spec fn feasible(sub: Seq<u8>, s: Seq<u8>) -> bool {
    occupied(sub, s) >= sub.len() + min_ref_cost(sub, s)
}

/// `sub` holds no placeholder.
pub open spec fn sentinel_free(sub: Seq<u8>) -> bool {
    forall|j: int| 0 <= j < sub.len() ==> sub[j] != FAKE
}

/// What one application of a pattern yields.
pub struct Applied {
    /// The sequence after substitution.
    pub out: Vec<u8>,
    /// Bytes of the source that the matches covered.
    pub occupied: usize,
    /// One unit per match.
    pub literal_ref_cost: usize,
    /// Three units per run.
    pub rle_ref_cost: usize,
}

impl Applied {
    /// The substitution pays for itself.
    pub open spec fn spec_is_feasible(&self, sub_len: int) -> bool {
        self.occupied >= sub_len + if self.rle_ref_cost <= self.literal_ref_cost {
            self.rle_ref_cost
        } else {
            self.literal_ref_cost
        }
    }

    /// The feasibility gate: the covered bytes pay for the definition of a
    /// pattern of `sub_len` bytes and for the cheaper way to refer to it.
    pub fn is_feasible(&self, sub_len: usize) -> (ok: bool)
        ensures
            ok == self.spec_is_feasible(sub_len as int),
    {
        let least: usize = if self.rle_ref_cost <= self.literal_ref_cost {
            self.rle_ref_cost
        } else {
            self.literal_ref_cost
        };
        self.occupied >= sub_len && self.occupied - sub_len >= least
    }
}

/// Tells whether `sub` occurs in `s` at position `at`.
pub fn starts_with_at(s: &[u8], at: usize, sub: &[u8]) -> (found: bool)
    ensures
        found == matches_at(sub@, s@, at as int),
{
    if at > s.len() || sub.len() > s.len() - at {
        return false;
    }
    let mut j: usize = 0;
    while j < sub.len()
        invariant
            j <= sub.len(),
            at + sub.len() <= s.len(),
            forall|k: int| 0 <= k < j ==> s@[at + k] == sub@[k],
        decreases sub.len() - j,
    {
        if s[at + j] != sub[j] {
            proof {
                let window = s@.subrange(at as int, at + sub@.len());
                assert(window[j as int] == s@[at + j]);
            }
            return false;
        }
        j += 1;
    }
    assert(s@.subrange(at as int, at + sub@.len()) =~= sub@);
    true
}

/// Replaces every run of consecutive matches of `sub` in `s` by one
/// placeholder and counts what the matches cover and cost.
pub fn apply_pattern(sub: &[u8], s: &[u8]) -> (r: Applied)
    requires
        sub.len() >= 1,
        s.len() <= isize::MAX,
    ensures
        r.out@ == applied(sub@, s@),
        r.occupied == occupied(sub@, s@),
        r.literal_ref_cost == literal_ref_cost(sub@, s@),
        r.rle_ref_cost == rle_ref_cost(sub@, s@),
        r.spec_is_feasible(sub@.len() as int) == feasible(sub@, s@),
        r.out.len() <= s.len(),
        r.occupied <= s.len(),
{
    let mut out: Vec<u8> = Vec::new();
    let mut at: usize = 0;
    let mut matches: usize = 0;
    let mut runs: usize = 0;
    let mut covered: usize = 0;
    let mut in_run: bool = false;
    while at < s.len()
        invariant
            sub.len() >= 1,
            s.len() <= isize::MAX,
            at <= s.len(),
            out@ + scan_out(sub@, s@, at as int, in_run) == applied(sub@, s@),
            matches + scan_matches(sub@, s@, at as int) == match_count(sub@, s@),
            runs + scan_runs(sub@, s@, at as int, in_run) == run_count(sub@, s@),
            covered == matches * sub.len(),
            covered <= at,
            matches <= covered,
            out.len() <= at,
            2 * runs <= at + if in_run { 1int } else { 0int },
        decreases s.len() - at,
    {
        if starts_with_at(s, at, sub) {
            proof {
                let rest = scan_out(sub@, s@, at + sub@.len(), true);
                assert(out@ + (seq![FAKE] + rest) =~= out@.push(FAKE) + rest);
                assert((matches + 1) * sub.len() == matches * sub.len() + sub.len())
                    by (nonlinear_arith);
            }
            if !in_run {
                out.push(FAKE);
                runs += 1;
                in_run = true;
            }
            matches += 1;
            covered += sub.len();
            at += sub.len();
        } else {
            proof {
                let rest = scan_out(sub@, s@, at + 1, false);
                assert(out@ + (seq![s@[at as int]] + rest) =~= out@.push(s@[at as int]) + rest);
            }
            out.push(s[at]);
            in_run = false;
            at += 1;
        }
    }
    assert(out@ + Seq::<u8>::empty() =~= out@);
    Applied { out, occupied: covered, literal_ref_cost: matches, rle_ref_cost: 3 * runs }
}

/// The scan emits at most one byte for each byte it reads.
pub proof fn lemma_scan_out_len(sub: Seq<u8>, s: Seq<u8>, at: int, in_run: bool)
    requires
        0 <= at <= s.len(),
    ensures
        scan_out(sub, s, at, in_run).len() <= s.len() - at,
    decreases s.len() - at,
{
    if at < s.len() && sub.len() > 0 {
        if matches_at(sub, s, at) {
            lemma_scan_out_len(sub, s, at + sub.len(), true);
        } else {
            lemma_scan_out_len(sub, s, at + 1, false);
        }
    }
}

/// Substitution never lengthens the sequence.
pub proof fn lemma_applied_len(sub: Seq<u8>, s: Seq<u8>)
    ensures
        applied(sub, s).len() <= s.len(),
{
    lemma_scan_out_len(sub, s, 0, false);
}

/// As long as the scan, started outside a run, has emitted no placeholder,
/// what it has emitted is what it has read.
proof fn lemma_literal_prefix(sub: Seq<u8>, s: Seq<u8>, at: int, t: int)
    requires
        0 <= at,
        0 <= t < scan_out(sub, s, at, false).len(),
        forall|j: int| 0 <= j <= t ==> scan_out(sub, s, at, false)[j] != FAKE,
    ensures
        at + t < s.len(),
        scan_out(sub, s, at, false)[t] == s[at + t],
    decreases t,
{
    let o = scan_out(sub, s, at, false);
    if matches_at(sub, s, at) {
        assert(o[0] == FAKE);
    } else if t > 0 {
        let rest = scan_out(sub, s, at + 1, false);
        assert forall|j: int| 0 <= j <= t - 1 implies rest[j] != FAKE by {
            assert(o[j + 1] == rest[j]);
        }
        lemma_literal_prefix(sub, s, at + 1, t - 1);
        assert(o[t] == rest[t - 1]);
    }
}

/// What the scan emits holds no match of the pattern: a match would lie
/// between two placeholders, where the scan has copied the source byte by
/// byte and found no match.
proof fn lemma_scan_out_has_no_match(sub: Seq<u8>, s: Seq<u8>, at: int, in_run: bool, k: int)
    requires
        0 <= at,
        sub.len() >= 1,
        sentinel_free(sub),
    ensures
        !matches_at(sub, scan_out(sub, s, at, in_run), k),
    decreases s.len() - at,
{
    let o = scan_out(sub, s, at, in_run);
    let n = sub.len() as int;
    if at >= s.len() {
    } else if matches_at(sub, s, at) {
        let rest = scan_out(sub, s, at + n, true);
        if in_run {
            lemma_scan_out_has_no_match(sub, s, at + n, true, k);
        } else if matches_at(sub, o, k) {
            if k == 0 {
                assert(o.subrange(0, n)[0] == o[0]);
                assert(sub[0] != FAKE);
                assert(false);
            } else {
                lemma_scan_out_has_no_match(sub, s, at + n, true, k - 1);
                assert(rest.subrange(k - 1, k - 1 + n) =~= o.subrange(k, k + n));
                assert(false);
            }
        }
    } else {
        let rest = scan_out(sub, s, at + 1, false);
        if matches_at(sub, o, k) {
            if k == 0 {
                assert forall|j: int| 0 <= j < n implies o[j] == #[trigger] sub[j] && o[j]
                    != FAKE by {
                    assert(o.subrange(0, n)[j] == o[j]);
                }
                assert forall|j: int| 0 <= j < n implies at + j < s.len() && s[at + j]
                    == #[trigger] sub[j] by {
                    if j > 0 {
                        assert forall|i: int| 0 <= i <= j - 1 implies rest[i] != FAKE by {
                            assert(o[i + 1] == rest[i]);
                            assert(o[i + 1] == sub[i + 1]);
                        }
                        lemma_literal_prefix(sub, s, at + 1, j - 1);
                        assert(o[j] == rest[j - 1]);
                    }
                }
                let last = n - 1;
                assert(sub[last] != FAKE);
                assert(s[at + last] == sub[last]);
                assert(at + last < s.len());
                assert(s.subrange(at, at + n) =~= sub);
                assert(false);
            } else {
                lemma_scan_out_has_no_match(sub, s, at + 1, false, k - 1);
                assert(rest.subrange(k - 1, k - 1 + n) =~= o.subrange(k, k + n));
                assert(false);
            }
        }
    }
}

/// On a sequence without a match the scan copies and counts nothing.
proof fn lemma_scan_without_match(sub: Seq<u8>, s: Seq<u8>, at: int, in_run: bool)
    requires
        0 <= at <= s.len(),
        sub.len() >= 1,
        forall|k: int| !matches_at(sub, s, k),
    ensures
        scan_out(sub, s, at, in_run) == s.subrange(at, s.len() as int),
        scan_matches(sub, s, at) == 0,
        scan_runs(sub, s, at, in_run) == 0,
    decreases s.len() - at,
{
    if at < s.len() {
        lemma_scan_without_match(sub, s, at + 1, false);
        assert(seq![s[at]] + s.subrange(at + 1, s.len() as int) =~= s.subrange(
            at,
            s.len() as int,
        ));
    } else {
        assert(s.subrange(at, s.len() as int) =~= Seq::<u8>::empty());
    }
}

/// Applying a pattern again to what it has left finds no match and changes
/// nothing: a placeholder never takes part in a later match.
pub proof fn lemma_reapply_finds_nothing(sub: Seq<u8>, s: Seq<u8>)
    requires
        sub.len() >= 1,
        sentinel_free(sub),
    ensures
        match_count(sub, applied(sub, s)) == 0,
        run_count(sub, applied(sub, s)) == 0,
        occupied(sub, applied(sub, s)) == 0,
        applied(sub, applied(sub, s)) == applied(sub, s),
        !feasible(sub, applied(sub, s)),
{
    let o = applied(sub, s);
    assert forall|k: int| !matches_at(sub, o, k) by {
        lemma_scan_out_has_no_match(sub, s, 0, false, k);
    }
    lemma_scan_without_match(sub, o, 0, false);
    assert(o.subrange(0, o.len() as int) =~= o);
    assert(0 * sub.len() == 0);
}

} // verus!
