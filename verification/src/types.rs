//! Patterns and solutions, and the mathematical values they stand for.

use vstd::prelude::*;

verus! {

/// A chosen substring and the way its matches are referred to.
pub struct Pattern {
    /// The substring.
    pub s: Seq<u8>,
    /// Run-length references if set, one reference per match if not.
    pub rle: bool,
}

/// A candidate encoding: the sequence that is left, the patterns that were
/// chosen, and the total cost in bytes.
pub struct Solution {
    pub res: Seq<u8>,
    pub pats: Seq<Pattern>,
    pub bytes: int,
}

/// A pattern as the search hands it out.
#[derive(Debug, PartialEq, Eq)]
pub struct Pat {
    pub s: Vec<u8>,
    pub rle: bool,
}

impl View for Pat {
    type V = Pattern;

    open spec fn view(&self) -> Pattern {
        Pattern { s: self.s@, rle: self.rle }
    }
}

impl Clone for Pat {
    fn clone(&self) -> (r: Self)
        ensures
            r@ == self@,
    {
        Pat { s: copy_bytes(self.s.as_slice()), rle: self.rle }
    }
}

/// The patterns of a list, each by its view.
pub open spec fn pats_view(pats: Seq<Pat>) -> Seq<Pattern> {
    Seq::new(pats.len(), |i: int| pats[i]@)
}

/// A solution as the search hands it out.
#[derive(Debug, PartialEq, Eq)]
pub struct Sol {
    pub res: Vec<u8>,
    pub pats: Vec<Pat>,
    pub bytes: isize,
}

impl View for Sol {
    type V = Solution;

    open spec fn view(&self) -> Solution {
        Solution { res: self.res@, pats: pats_view(self.pats@), bytes: self.bytes as int }
    }
}

impl Clone for Sol {
    fn clone(&self) -> (r: Self)
        ensures
            r@ == self@,
    {
        let r = Sol {
            res: copy_bytes(self.res.as_slice()),
            pats: copy_pats(&self.pats),
            bytes: self.bytes,
        };
        r
    }
}

/// A fresh vector with the bytes of `s`.
pub fn copy_bytes(s: &[u8]) -> (v: Vec<u8>)
    ensures
        v@ == s@,
{
    let mut v: Vec<u8> = Vec::new();
    let mut i: usize = 0;
    while i < s.len()
        invariant
            i <= s.len(),
            v@ == s@.subrange(0, i as int),
        decreases s.len() - i,
    {
        v.push(s[i]);
        i += 1;
        assert(v@ =~= s@.subrange(0, i as int));
    }
    assert(s@.subrange(0, s@.len() as int) =~= s@);
    v
}

/// A fresh vector with a copy of each pattern of `pats`, in the same order.
pub fn copy_pats(pats: &Vec<Pat>) -> (v: Vec<Pat>)
    ensures
        pats_view(v@) == pats_view(pats@),
{
    let mut v: Vec<Pat> = Vec::new();
    let mut i: usize = 0;
    while i < pats.len()
        invariant
            i <= pats.len(),
            v.len() == i,
            forall|k: int| 0 <= k < i ==> v@[k]@ == pats@[k]@,
        decreases pats.len() - i,
    {
        let p = pats[i].clone();
        v.push(p);
        i += 1;
    }
    assert(pats_view(v@) =~= pats_view(pats@));
    v
}

} // verus!
