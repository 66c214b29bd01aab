use vstd::prelude::*;
use crate::bitset::{Bitset, disjoint, within};

verus! {

/// Union of the boards of a list of commits.
pub open spec fn union_all(s: Seq<(usize, Bitset)>) -> u64
    decreases s.len(),
{
    if s.len() == 0 {
        0
    } else {
        union_all(s.drop_last()) | s.last().1.0
    }
}

/// No two commits share a cell.
pub open spec fn pairwise_disjoint(s: Seq<(usize, Bitset)>) -> bool {
    forall|i: int, j: int| 0 <= i < j < s.len() ==> disjoint(#[trigger] s[i].1.0, #[trigger] s[j].1.0)
}

/// The search's occupancy with the ordered list of committed (piece index, placement) pairs.
#[derive(Clone)]
pub struct Arrangement {
    pub occupied: Bitset,
    pub placements: Vec<(usize, Bitset)>,
}

impl Arrangement {
    /// Occupancy is the union of the commits, and no two commits overlap.
    pub open spec fn wf(&self) -> bool {
        &&& self.occupied.0 == union_all(self.placements@)
        &&& pairwise_disjoint(self.placements@)
    }

    pub fn new() -> (r: Arrangement)
        ensures
            r.wf(),
            r.occupied.0 == 0,
            r.placements@.len() == 0,
    {
        Arrangement { occupied: Bitset::empty(), placements: Vec::new() }
    }

    /// Commits `placement` for `piece`.
    pub fn push(&mut self, piece: usize, placement: Bitset)
        requires
            old(self).wf(),
            disjoint(old(self).occupied.0, placement.0),
        ensures
            final(self).wf(),
            final(self).placements@ == old(self).placements@.push((piece, placement)),
            final(self).occupied.0 == old(self).occupied.0 | placement.0,
    {
        proof {
            lemma_push_keeps(self.placements@, piece, placement);
        }
        self.occupied = self.occupied.union(placement);
        self.placements.push((piece, placement));
    }

    /// Undoes the last commit and hands it back; `None` when nothing is committed.
    pub fn pop(&mut self) -> (r: Option<(usize, Bitset)>)
        requires
            old(self).wf(),
        ensures
            final(self).wf(),
            old(self).placements@.len() == 0 ==> r is None && final(self).placements@ == old(self).placements@ && final(self).occupied == old(self).occupied,
            old(self).placements@.len() > 0 ==> {
                &&& r == Some(old(self).placements@.last())
                &&& final(self).placements@ == old(self).placements@.drop_last()
                &&& final(self).occupied.0 == union_all(old(self).placements@.drop_last())
            },
    {
        proof {
            if self.placements@.len() > 0 {
                lemma_pop_keeps(self.placements@);
            }
        }
        match self.placements.pop() {
            Some((piece, placement)) => {
                self.occupied = self.occupied.xor(placement);
                Some((piece, placement))
            },
            None => None,
        }
    }
}

proof fn lemma_within_union(s: Seq<(usize, Bitset)>, i: int)
    requires
        0 <= i < s.len(),
    ensures
        within(s[i].1.0, union_all(s)),
    decreases s.len(),
{
    let u = union_all(s.drop_last());
    let l = s.last().1.0;
    if i < s.len() - 1 {
        lemma_within_union(s.drop_last(), i);
        let a = s[i].1.0;
        assert(s.drop_last()[i] == s[i]);
        assert((a & !u) == 0 ==> (a & !(u | l)) == 0) by (bit_vector);
    } else {
        assert((l & !(u | l)) == 0) by (bit_vector);
    }
}

proof fn lemma_disjoint_union(s: Seq<(usize, Bitset)>, p: u64)
    requires
        forall|i: int| 0 <= i < s.len() ==> disjoint(#[trigger] s[i].1.0, p),
    ensures
        disjoint(union_all(s), p),
    decreases s.len(),
{
    if s.len() > 0 {
        let t = s.drop_last();
        assert forall|i: int| 0 <= i < t.len() implies disjoint(#[trigger] t[i].1.0, p) by {
            assert(t[i] == s[i]);
        }
        lemma_disjoint_union(t, p);
        let u = union_all(t);
        let l = s.last().1.0;
        assert(disjoint(s[s.len() - 1].1.0, p));
        assert((u & p) == 0 && (l & p) == 0 ==> ((u | l) & p) == 0) by (bit_vector);
    } else {
        assert((0u64 & p) == 0) by (bit_vector);
    }
}

proof fn lemma_push_keeps(s: Seq<(usize, Bitset)>, piece: usize, p: Bitset)
    requires
        pairwise_disjoint(s),
        disjoint(union_all(s), p.0),
    ensures
        pairwise_disjoint(s.push((piece, p))),
        union_all(s.push((piece, p))) == union_all(s) | p.0,
{
    let t = s.push((piece, p));
    assert(t.drop_last() =~= s);
    assert forall|i: int, j: int| 0 <= i < j < t.len() implies disjoint(#[trigger] t[i].1.0, #[trigger] t[j].1.0) by {
        if j == s.len() {
            lemma_within_union(s, i);
            let a = s[i].1.0;
            let u = union_all(s);
            let q = p.0;
            assert((a & !u) == 0 && (u & q) == 0 ==> (a & q) == 0) by (bit_vector);
        } else {
            assert(t[i] == s[i] && t[j] == s[j]);
        }
    }
}

proof fn lemma_pop_keeps(s: Seq<(usize, Bitset)>)
    requires
        s.len() > 0,
        pairwise_disjoint(s),
    ensures
        pairwise_disjoint(s.drop_last()),
        union_all(s) ^ s.last().1.0 == union_all(s.drop_last()),
{
    let t = s.drop_last();
    let l = s.last().1.0;
    assert forall|i: int, j: int| 0 <= i < j < t.len() implies disjoint(#[trigger] t[i].1.0, #[trigger] t[j].1.0) by {
        assert(t[i] == s[i] && t[j] == s[j]);
    }
    assert forall|i: int| 0 <= i < t.len() implies disjoint(#[trigger] t[i].1.0, l) by {
        assert(t[i] == s[i]);
        assert(disjoint(s[i].1.0, s[s.len() - 1].1.0));
    }
    lemma_disjoint_union(t, l);
    let u = union_all(t);
    assert((u & l) == 0 ==> ((u | l) ^ l) == u) by (bit_vector);
}

/// Committing a placement that shares no cell with the occupancy keeps the arrangement
/// consistent, and undoing it right after gives back the same arrangement, bit for bit.
pub proof fn lemma_push_then_pop(a: Arrangement, piece: usize, p: Bitset, b: Arrangement, c: Arrangement, out: Option<(usize, Bitset)>)
    requires
        a.wf(),
        disjoint(a.occupied.0, p.0),
        b.placements@ == a.placements@.push((piece, p)),
        b.occupied.0 == a.occupied.0 | p.0,
        c.placements@ == b.placements@.drop_last(),
        c.occupied.0 == union_all(b.placements@.drop_last()),
    ensures
        b.wf(),
        c.wf(),
        c.placements@ == a.placements@,
        c.occupied == a.occupied,
{
    lemma_push_keeps(a.placements@, piece, p);
    assert(b.placements@.drop_last() =~= a.placements@);
}

} // verus!
