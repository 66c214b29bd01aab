use vstd::prelude::*;
use crate::arrangement::{Arrangement, pairwise_disjoint, union_all};
use crate::bitset::{Bitset, Placement, bit, disjoint, within, lemma_within_both};
use crate::puzzle::{Puzzle, words, lemma_placement_within_full};
use crate::symmetry::canonical_among;

verus! {

/// The placements of the listed pieces, one piece after another.
pub open spec fn offered(puzzle: &Puzzle, pids: Seq<usize>) -> Seq<u64>
    decreases pids.len(),
{
    if pids.len() == 0 {
        Seq::empty()
    } else {
        offered(puzzle, pids.drop_last()) + words(puzzle.pieces@[pids.last() as int].placements@)
    }
}

/// `tmp` with every board of `s` that does not meet `tmp` added, in order.
pub open spec fn grow(tmp: u64, s: Seq<u64>) -> u64
    decreases s.len(),
{
    if s.len() == 0 {
        tmp
    } else {
        let g = grow(tmp, s.drop_last());
        if disjoint(tmp, s.last()) { g | s.last() } else { g }
    }
}

/// Greedy coverage: adding the placements that avoid `tmp` one by one, the union equals
/// `full` right after some addition, or at the end.
pub open spec fn coverage_reaches(tmp: u64, s: Seq<u64>, full: u64) -> bool {
    ||| exists|k: int| 1 <= k <= s.len() && disjoint(tmp, s[k - 1]) && #[trigger] grow(tmp, s.take(k)) == full
    ||| grow(tmp, s) == full
}

/// The piece has a placement that avoids `tmp`.
pub open spec fn placeable(puzzle: &Puzzle, tmp: u64, pid: usize) -> bool {
    exists|q: int| 0 <= q < puzzle.pieces@[pid as int].placements@.len()
        && disjoint(tmp, #[trigger] puzzle.pieces@[pid as int].placements@[q].0)
}

/// Every listed piece has a placement that avoids `tmp`.
pub open spec fn each_placeable(puzzle: &Puzzle, tmp: u64, pids: Seq<usize>) -> bool {
    forall|a: int| 0 <= a < pids.len() ==> placeable(puzzle, tmp, #[trigger] pids[a])
}

pub open spec fn valid_ids(puzzle: &Puzzle, pids: Seq<usize>) -> bool {
    forall|a: int| 0 <= a < pids.len() ==> #[trigger] pids[a] < puzzle.pieces@.len()
}

/// The commits cover `full` exactly: no overlap and no gap.
pub open spec fn exact_cover(s: Seq<(usize, Bitset)>, full: u64) -> bool {
    union_all(s) == full && pairwise_disjoint(s)
}

/// A search's result: how many nodes it visited and the solutions it found, in order.
pub type Outcome = (nat, Seq<Seq<(usize, Bitset)>>);

pub open spec fn join(a: Outcome, b: Outcome) -> Outcome {
    (a.0 + b.0, a.1 + b.1)
}

pub open spec fn none_found() -> Outcome {
    (0, Seq::empty())
}

/// `x`, capped at the largest `usize`.
pub open spec fn capped(x: int) -> int {
    if x > usize::MAX { usize::MAX as int } else { x }
}

/// The first empty cell of `occ` at or after `j`.
pub open spec fn first_empty(occ: u64, j: int) -> Option<int>
    decreases 64 - j,
{
    if j >= 64 {
        None
    } else if !bit(occ, j) {
        Some(j)
    } else {
        first_empty(occ, j + 1)
    }
}

/// Placement `m` may be committed: it avoids the occupancy, covers the target cell `c`, and
/// leaves both feasibility tests passing for the other pieces.
pub open spec fn admissible(puzzle: &Puzzle, occ: u64, m: u64, c: int, other: Seq<usize>) -> bool {
    &&& disjoint(occ, m)
    &&& !disjoint(m, 1u64 << (c as u64))
    &&& coverage_reaches(occ | m, offered(puzzle, other), puzzle.full.0)
    &&& each_placeable(puzzle, occ | m, other)
}

/// The depth-first search from the commits made so far, with the pieces `rem` left.
pub open spec fn search(puzzle: &Puzzle, commits: Seq<(usize, Bitset)>, prev: int, rem: Seq<usize>) -> Outcome
    decreases rem.len(), 2int, 0int, 0int,
{
    if rem.len() == 0 {
        (1, seq![commits])
    } else {
        match first_empty(union_all(commits), prev) {
            None => (1, Seq::empty()),
            Some(c) => join((1, Seq::empty()), pieces_from(puzzle, commits, c, rem, 0)),
        }
    }
}

/// The branches for the pieces `rem[idx..]`, filling cell `c`.
pub open spec fn pieces_from(puzzle: &Puzzle, commits: Seq<(usize, Bitset)>, c: int, rem: Seq<usize>, idx: int) -> Outcome
    decreases rem.len(), 1int, rem.len() - idx, puzzle.pieces@[rem[idx] as int].placements@.len() + 1,
{
    if idx < 0 || idx >= rem.len() {
        none_found()
    } else {
        places_from(puzzle, commits, c, rem, idx, 0)
    }
}

/// The branches for placements `q..` of piece `rem[idx]`, then for the pieces after it.
pub open spec fn places_from(puzzle: &Puzzle, commits: Seq<(usize, Bitset)>, c: int, rem: Seq<usize>, idx: int, q: int) -> Outcome
    decreases rem.len(), 1int, rem.len() - idx, puzzle.pieces@[rem[idx] as int].placements@.len() - q,
{
    let pid = rem[idx];
    let ps = puzzle.pieces@[pid as int].placements@;
    if idx < 0 || idx >= rem.len() || q < 0 {
        none_found()
    } else if q >= ps.len() {
        pieces_from(puzzle, commits, c, rem, idx + 1)
    } else {
        let m = ps[q];
        let other = rem.remove(idx);
        let here = if admissible(puzzle, union_all(commits), m.0, c, other) {
            search(puzzle, commits.push((pid, m)), c, other)
        } else {
            none_found()
        };
        join(here, places_from(puzzle, commits, c, rem, idx, q + 1))
    }
}

/// The indices `0..n` without `cid`, in order.
pub open spec fn others(n: nat, cid: usize) -> Seq<usize> {
    Seq::new((n - 1) as nat, |i: int| (if i < cid { i } else { i + 1 }) as usize)
}

/// The starting placements of piece `cid`: in a cubic volume of side 1 to 4, those least in
/// their orbit under the cube's rotations; otherwise all of them.
pub open spec fn start_seeds(puzzle: &Puzzle, cid: int) -> Seq<Bitset> {
    let pl = puzzle.pieces@[cid].placements@;
    if 1 <= puzzle.dim.x <= 4 && puzzle.dim.y == puzzle.dim.x && puzzle.dim.z == puzzle.dim.x {
        canonical_among(pl, puzzle.dim.x as int)
    } else {
        pl
    }
}

/// `cid` is the first piece with the fewest placements.
pub open spec fn fewest(puzzle: &Puzzle, cid: int) -> bool {
    &&& 0 <= cid < puzzle.pieces@.len()
    &&& forall|j: int| 0 <= j < puzzle.pieces@.len() ==> puzzle.pieces@[cid].placements@.len() <= #[trigger] puzzle.pieces@[j].placements@.len()
    &&& forall|j: int| 0 <= j < cid ==> puzzle.pieces@[cid].placements@.len() < #[trigger] puzzle.pieces@[j].placements@.len()
}

/// The searches with piece `cid` fixed to `seeds[k]`, then to each later seed.
pub open spec fn seeded(puzzle: &Puzzle, cid: usize, seeds: Seq<Bitset>, rem: Seq<usize>, k: int) -> Outcome
    decreases seeds.len() - k,
{
    if k < 0 || k >= seeds.len() {
        none_found()
    } else {
        let m = seeds[k];
        let here = if rem.len() > 0 || m.0 == puzzle.full.0 {
            search(puzzle, seq![(cid, m)], 0, rem)
        } else {
            none_found()
        };
        join(here, seeded(puzzle, cid, seeds, rem, k + 1))
    }
}

pub open spec fn sol_views(s: Seq<Vec<(usize, Placement)>>) -> Seq<Seq<(usize, Bitset)>> {
    s.map_values(|v: Vec<(usize, Placement)>| v@)
}

/// Search counters and the solutions found so far.
pub struct Solver {
    pub explored: usize,
    pub solutions: Vec<Vec<(usize, Placement)>>,
    pub verbose: bool,
}

pub open spec fn all_exact(sols: Seq<Vec<(usize, Placement)>>, full: u64) -> bool {
    forall|i: int| 0 <= i < sols.len() ==> exact_cover((#[trigger] sols[i])@, full)
}

fn copy_commits(v: &Vec<(usize, Placement)>) -> (r: Vec<(usize, Placement)>)
    ensures
        r@ == v@,
{
    let mut r: Vec<(usize, Placement)> = Vec::new();
    let mut i: usize = 0;
    while i < v.len()
        invariant
            i <= v.len(),
            r@ == v@.take(i as int),
        decreases v.len() - i,
    {
        r.push(v[i]);
        assert(v@.take(i + 1) =~= v@.take(i as int).push(v@[i as int]));
        i = i + 1;
    }
    assert(v@.take(i as int) =~= v@);
    r
}

/// The list without its entry at `idx`.
fn without(v: &Vec<usize>, idx: usize) -> (r: Vec<usize>)
    requires
        idx < v@.len(),
    ensures
        r@ == v@.remove(idx as int),
{
    let mut r: Vec<usize> = Vec::new();
    let mut i: usize = 0;
    while i < v.len()
        invariant
            i <= v.len(),
            idx < v@.len(),
            i <= idx ==> r@ == v@.take(i as int),
            i > idx ==> r@ == v@.take(i as int).remove(idx as int),
        decreases v.len() - i,
    {
        if i != idx {
            r.push(v[i]);
        }
        assert(v@.take(i + 1) =~= v@.take(i as int).push(v@[i as int]));
        proof {
            if i > idx {
                assert(v@.take(i + 1).remove(idx as int) =~= v@.take(i as int).remove(idx as int).push(v@[i as int]));
            } else if i == idx {
                assert(v@.take(i + 1).remove(idx as int) =~= v@.take(i as int));
            }
        }
        i = i + 1;
    }
    assert(v@.take(i as int) =~= v@);
    r
}

proof fn lemma_offered_step(puzzle: &Puzzle, pids: Seq<usize>, a: int)
    requires
        0 <= a < pids.len(),
    ensures
        offered(puzzle, pids.take(a + 1)) == offered(puzzle, pids.take(a)) + words(puzzle.pieces@[pids[a] as int].placements@),
{
    assert(pids.take(a + 1).drop_last() =~= pids.take(a));
}

proof fn lemma_offered_prefix(puzzle: &Puzzle, pids: Seq<usize>, a: int)
    requires
        0 <= a <= pids.len(),
    ensures
        offered(puzzle, pids.take(a)).len() <= offered(puzzle, pids).len(),
        offered(puzzle, pids).take(offered(puzzle, pids.take(a)).len() as int) == offered(puzzle, pids.take(a)),
    decreases pids.len() - a,
{
    if a < pids.len() {
        lemma_offered_prefix(puzzle, pids, a + 1);
        lemma_offered_step(puzzle, pids, a);
        let x = offered(puzzle, pids.take(a));
        let y = offered(puzzle, pids.take(a + 1));
        assert(offered(puzzle, pids).take(x.len() as int) =~= y.take(x.len() as int));
        assert(y.take(x.len() as int) =~= x);
    } else {
        assert(pids.take(a) =~= pids);
        assert(offered(puzzle, pids).take(offered(puzzle, pids).len() as int) =~= offered(puzzle, pids));
    }
}

impl Solver {
    pub fn build(verbose: bool) -> (r: Solver)
        ensures
            r.explored == 0,
            r.solutions@.len() == 0,
            r.verbose == verbose,
    {
        Solver { explored: 0, solutions: Vec::new(), verbose }
    }

    /// Greedily adds every placement of the listed pieces that avoids `tmp`; true when the
    /// growing union reaches the full volume.
    pub fn has_full_coverage(&self, puzzle: &Puzzle, tmp: Bitset, pieces: &Vec<usize>) -> (r: bool)
        requires
            valid_ids(puzzle, pieces@),
        ensures
            r == coverage_reaches(tmp.0, offered(puzzle, pieces@), puzzle.full.0),
    {
        let ghost f = offered(puzzle, pieces@);
        let ghost full = puzzle.full.0;
        let mut coverage = tmp;
        let mut a: usize = 0;
        proof {
            assert(f.take(0) =~= Seq::<u64>::empty());
        }
        while a < pieces.len()
            invariant
                a <= pieces.len(),
                valid_ids(puzzle, pieces@),
                f == offered(puzzle, pieces@),
                full == puzzle.full.0,
                offered(puzzle, pieces@.take(a as int)).len() <= f.len(),
                f.take(offered(puzzle, pieces@.take(a as int)).len() as int) == offered(puzzle, pieces@.take(a as int)),
                coverage.0 == grow(tmp.0, offered(puzzle, pieces@.take(a as int))),
                forall|k: int| 1 <= k <= offered(puzzle, pieces@.take(a as int)).len() && disjoint(tmp.0, f[k - 1]) ==> #[trigger] grow(tmp.0, f.take(k)) != full,
            decreases pieces.len() - a,
        {
            let pid = pieces[a];
            assert(pid < puzzle.pieces@.len());
            let piece = &puzzle.pieces[pid];
            let pl = piece.placements();
            proof {
                lemma_offered_step(puzzle, pieces@, a as int);
                lemma_offered_prefix(puzzle, pieces@, a + 1);
            }
            let ghost base = offered(puzzle, pieces@.take(a as int));
            let ghost n0: int = base.len() as int;
            let mut b: usize = 0;
            while b < pl.len()
                invariant
                    b <= pl.len(),
                    pl == &puzzle.pieces@[pid as int].placements,
                    f == offered(puzzle, pieces@),
                    full == puzzle.full.0,
                    offered(puzzle, pieces@.take(a + 1)) == base + words(pl@),
                    n0 + pl@.len() <= f.len(),
                    n0 == base.len(),
                    f.take((n0 + pl@.len()) as int) == base + words(pl@),
                    coverage.0 == grow(tmp.0, f.take(n0 + b)),
                    forall|k: int| 1 <= k <= n0 + b && disjoint(tmp.0, f[k - 1]) ==> #[trigger] grow(tmp.0, f.take(k)) != full,
                    pid < puzzle.pieces@.len(),
                    n0 + b <= f.len(),
                decreases pl.len() - b,
            {
                let placement = pl[b];
                let ghost s1 = f.take(n0 + b + 1);
                assert(s1.drop_last() =~= f.take(n0 + b));
                assert(s1.last() == f.take((n0 + pl@.len()) as int)[n0 + b]);
                assert(s1.last() == placement.0);
                assert(f[n0 + b] == placement.0);
                if !tmp.intersects(placement) {
                    coverage = coverage.union(placement);
                    if coverage == puzzle.full {
                        assert(grow(tmp.0, f.take(n0 + b + 1)) == full);
                        return true;
                    }
                }
                b = b + 1;
            }
            assert(f.take((n0 + pl@.len()) as int) == offered(puzzle, pieces@.take(a + 1)));
            a = a + 1;
        }
        assert(pieces@.take(a as int) =~= pieces@);
        assert(f.take(f.len() as int) =~= f);
        coverage == puzzle.full
    }

    /// True when each listed piece, taken alone, still has a placement that avoids `tmp`.
    pub fn can_pieces_fit(&self, puzzle: &Puzzle, tmp: Bitset, pieces: &Vec<usize>) -> (r: bool)
        requires
            valid_ids(puzzle, pieces@),
        ensures
            r == each_placeable(puzzle, tmp.0, pieces@),
    {
        let mut a: usize = 0;
        while a < pieces.len()
            invariant
                a <= pieces.len(),
                valid_ids(puzzle, pieces@),
                each_placeable(puzzle, tmp.0, pieces@.take(a as int)),
            decreases pieces.len() - a,
        {
            let pid = pieces[a];
            let pl = &puzzle.pieces[pid].placements;
            let mut found = false;
            let mut q: usize = 0;
            while q < pl.len()
                invariant
                    q <= pl.len(),
                    pl == &puzzle.pieces@[pid as int].placements,
                    found ==> placeable(puzzle, tmp.0, pid),
                    !found ==> forall|k: int| 0 <= k < q ==> !disjoint(tmp.0, #[trigger] pl@[k].0),
                decreases pl.len() - q,
            {
                if !tmp.intersects(pl[q]) {
                    assert(pl@[q as int] == puzzle.pieces@[pid as int].placements@[q as int]);
                    found = true;
                }
                q = q + 1;
            }
            if !found {
                assert(pieces@[a as int] == pid);
                assert(!placeable(puzzle, tmp.0, pid));
                assert(!each_placeable(puzzle, tmp.0, pieces@));
                return false;
            }
            assert forall|i: int| 0 <= i < a + 1 implies placeable(puzzle, tmp.0, #[trigger] pieces@.take(a + 1)[i]) by {
                if i < a {
                    assert(pieces@.take(a + 1)[i] == pieces@.take(a as int)[i]);
                }
            }
            a = a + 1;
        }
        assert(pieces@.take(a as int) =~= pieces@);
        true
    }

    /// Depth-first search: fills the first empty cell at or after `prev` with every placement
    /// of every remaining piece that passes both feasibility tests, records each arrangement
    /// that uses all pieces, and leaves `arrangement` as it found it.
    pub fn solve_board(&mut self, puzzle: &Puzzle, arrangement: &mut Arrangement, prev: usize, remaining: &Vec<usize>)
        requires
            old(arrangement).wf(),
            valid_ids(puzzle, remaining@),
        ensures
            final(arrangement).placements@ == old(arrangement).placements@,
            final(arrangement).occupied == old(arrangement).occupied,
            final(self).explored == capped(old(self).explored + search(puzzle, old(arrangement).placements@, prev as int, remaining@).0),
            sol_views(final(self).solutions@) == sol_views(old(self).solutions@) + search(puzzle, old(arrangement).placements@, prev as int, remaining@).1,
            all_exact(old(self).solutions@, puzzle.full.0) && (remaining@.len() == 0 ==> old(arrangement).occupied.0 == puzzle.full.0)
                ==> all_exact(final(self).solutions@, puzzle.full.0),
            final(self).verbose == old(self).verbose,
        decreases remaining@.len(),
    {
        let ghost commits = arrangement.placements@;
        let ghost good = all_exact(self.solutions@, puzzle.full.0);
        let ghost e0 = self.explored as int;
        let ghost s0 = sol_views(self.solutions@);
        self.explored = self.explored.saturating_add(1);
        if remaining.len() == 0 {
            let sol = copy_commits(&arrangement.placements);
            self.solutions.push(sol);
            assert(sol_views(self.solutions@) =~= s0 + seq![commits]);
            return;
        }
        let (cube, mask) = match self.new_cube(arrangement, prev) {
            Some((c, m)) => (c, m),
            None => {
                assert(sol_views(self.solutions@) =~= s0 + Seq::<Seq<(usize, Bitset)>>::empty());
                return;
            },
        };
        let ghost a0 = *arrangement;
        let ghost total = pieces_from(puzzle, commits, cube as int, remaining@, 0);
        let ghost mut acc_n: nat = 0;
        let ghost mut acc_s: Seq<Seq<(usize, Bitset)>> = Seq::empty();
        let mut idx: usize = 0;
        while idx < remaining.len()
            invariant
                idx <= remaining.len(),
                remaining@.len() > 0,
                valid_ids(puzzle, remaining@),
                arrangement.wf(),
                arrangement.placements@ == a0.placements@,
                arrangement.occupied == a0.occupied,
                a0.placements@ == commits,
                a0.occupied.0 == union_all(commits),
                mask.0 == 1u64 << cube as u64,
                good == all_exact(old(self).solutions@, puzzle.full.0),
                good ==> all_exact(self.solutions@, puzzle.full.0),
                self.verbose == old(self).verbose,
                self.explored == capped(e0 + 1 + acc_n),
                sol_views(self.solutions@) == s0 + acc_s,
                acc_n + pieces_from(puzzle, commits, cube as int, remaining@, idx as int).0 == total.0,
                acc_s + pieces_from(puzzle, commits, cube as int, remaining@, idx as int).1 == total.1,
            decreases remaining.len() - idx,
        {
            let pid = remaining[idx];
            let other_pieces = without(remaining, idx);
            assert(valid_ids(puzzle, other_pieces@)) by {
                assert forall|a: int| 0 <= a < other_pieces@.len() implies #[trigger] other_pieces@[a] < puzzle.pieces@.len() by {
                    if a < idx {
                        assert(other_pieces@[a] == remaining@[a]);
                    } else {
                        assert(other_pieces@[a] == remaining@[a + 1]);
                    }
                }
            }
            let pl = &puzzle.pieces[pid].placements;
            let mut q: usize = 0;
            while q < pl.len()
                invariant
                    q <= pl.len(),
                    idx < remaining@.len(),
                    pid == remaining@[idx as int],
                    pl == &puzzle.pieces@[pid as int].placements,
                    remaining@.len() > 0,
                    other_pieces@ == remaining@.remove(idx as int),
                    valid_ids(puzzle, other_pieces@),
                    arrangement.wf(),
                    arrangement.placements@ == a0.placements@,
                    arrangement.occupied == a0.occupied,
                    a0.placements@ == commits,
                    a0.occupied.0 == union_all(commits),
                    mask.0 == 1u64 << cube as u64,
                    good == all_exact(old(self).solutions@, puzzle.full.0),
                    good ==> all_exact(self.solutions@, puzzle.full.0),
                    self.verbose == old(self).verbose,
                    self.explored == capped(e0 + 1 + acc_n),
                    sol_views(self.solutions@) == s0 + acc_s,
                    acc_n + places_from(puzzle, commits, cube as int, remaining@, idx as int, q as int).0 == total.0,
                    acc_s + places_from(puzzle, commits, cube as int, remaining@, idx as int, q as int).1 == total.1,
                decreases pl.len() - q,
            {
                let placement = pl[q];
                let ghost rest = places_from(puzzle, commits, cube as int, remaining@, idx as int, q + 1);
                let ghost adm = admissible(puzzle, union_all(commits), placement.0, cube as int, other_pieces@);
                let new_board = arrangement.occupied.union(placement);
                if !arrangement.occupied.intersects(placement) && placement.intersects(mask)
                    && self.has_full_coverage(puzzle, new_board, &other_pieces)
                    && self.can_pieces_fit(puzzle, new_board, &other_pieces) {
                    assert(adm);
                    arrangement.push(pid, placement);
                    let ghost here = search(puzzle, commits.push((pid, placement)), cube as int, other_pieces@);
                    let ghost sv = sol_views(self.solutions@);
                    self.solve_board(puzzle, arrangement, cube, &other_pieces);
                    arrangement.pop();
                    assert(arrangement.placements@ =~= a0.placements@);
                    proof {
                        assert(acc_s + here.1 + rest.1 =~= acc_s + (here.1 + rest.1));
                        acc_n = acc_n + here.0;
                        acc_s = acc_s + here.1;
                    }
                } else {
                    assert(!adm);
                    assert(acc_s + Seq::<Seq<(usize, Bitset)>>::empty() + rest.1 =~= acc_s + rest.1);
                    assert(Seq::<Seq<(usize, Bitset)>>::empty() + rest.1 =~= rest.1);
                }
                q = q + 1;
            }
            idx = idx + 1;
        }
        assert(acc_s + Seq::<Seq<(usize, Bitset)>>::empty() =~= acc_s);
        assert(sol_views(self.solutions@) =~= s0 + (Seq::<Seq<(usize, Bitset)>>::empty() + total.1));
    }

    /// Runs the search with piece `cid` fixed, in turn, to each placement of `seeds`.
    pub fn begin_from(&mut self, puzzle: &Puzzle, cid: usize, seeds: &Vec<Placement>)
        requires
            cid < puzzle.pieces@.len(),
        ensures
            final(self).explored == capped(old(self).explored + seeded(puzzle, cid, seeds@, others(puzzle.pieces@.len(), cid), 0).0),
            sol_views(final(self).solutions@) == sol_views(old(self).solutions@) + seeded(puzzle, cid, seeds@, others(puzzle.pieces@.len(), cid), 0).1,
            all_exact(old(self).solutions@, puzzle.full.0) ==> all_exact(final(self).solutions@, puzzle.full.0),
            final(self).verbose == old(self).verbose,
    {
        let ghost n = puzzle.pieces@.len();
        let mut remaining: Vec<usize> = Vec::new();
        let mut i: usize = 0;
        while i < puzzle.pieces.len()
            invariant
                i <= puzzle.pieces@.len(),
                n == puzzle.pieces@.len(),
                cid < n,
                remaining@ == others(n, cid).take(if i <= cid { i as int } else { i - 1 }),
            decreases puzzle.pieces.len() - i,
        {
            if i != cid {
                let ghost k: int = if i < cid { i as int } else { i - 1 };
                assert(others(n, cid).take(k + 1) =~= others(n, cid).take(k).push(i));
                remaining.push(i);
            }
            i = i + 1;
        }
        assert(remaining@ =~= others(n, cid));
        assert(valid_ids(puzzle, remaining@));
        let ghost rem = remaining@;
        let ghost e0 = self.explored as int;
        let ghost s0 = sol_views(self.solutions@);
        let ghost total = seeded(puzzle, cid, seeds@, rem, 0);
        let ghost mut acc_n: nat = 0;
        let ghost mut acc_s: Seq<Seq<(usize, Bitset)>> = Seq::empty();
        let mut arrangement = Arrangement::new();
        let mut k: usize = 0;
        while k < seeds.len()
            invariant
                k <= seeds.len(),
                rem == remaining@,
                valid_ids(puzzle, remaining@),
                arrangement.wf(),
                arrangement.placements@.len() == 0,
                arrangement.occupied.0 == 0,
                all_exact(old(self).solutions@, puzzle.full.0) ==> all_exact(self.solutions@, puzzle.full.0),
                self.verbose == old(self).verbose,
                self.explored == capped(e0 + acc_n),
                sol_views(self.solutions@) == s0 + acc_s,
                acc_n + seeded(puzzle, cid, seeds@, rem, k as int).0 == total.0,
                acc_s + seeded(puzzle, cid, seeds@, rem, k as int).1 == total.1,
            decreases seeds.len() - k,
        {
            let placement = seeds[k];
            let ghost rest = seeded(puzzle, cid, seeds@, rem, k + 1);
            assert((0u64 & placement.0) == 0) by (bit_vector);
            arrangement.push(cid, placement);
            assert((0u64 | placement.0) == placement.0) by (bit_vector);
            assert(arrangement.placements@ =~= seq![(cid, placement)]);
            if remaining.len() > 0 || placement == puzzle.full {
                let ghost here = search(puzzle, seq![(cid, placement)], 0, rem);
                self.solve_board(puzzle, &mut arrangement, 0, &remaining);
                proof {
                    assert(acc_s + here.1 + rest.1 =~= acc_s + (here.1 + rest.1));
                    acc_n = acc_n + here.0;
                    acc_s = acc_s + here.1;
                }
            } else {
                assert(Seq::<Seq<(usize, Bitset)>>::empty() + rest.1 =~= rest.1);
            }
            arrangement.pop();
            assert(arrangement.placements@ =~= Seq::<(usize, Bitset)>::empty());
            k = k + 1;
        }
        assert(acc_s + Seq::<Seq<(usize, Bitset)>>::empty() =~= acc_s);
    }

    /// Runs the whole search: the piece with the fewest placements (the first such) is fixed
    /// to each of its starting placements in turn, and the other pieces are searched for
    /// around it.
    pub fn begin(&mut self, puzzle: &Puzzle)
        ensures
            puzzle.pieces@.len() == 0 ==> final(self).explored == old(self).explored
                && final(self).solutions@ == old(self).solutions@,
            forall|cid: int| #[trigger] fewest(puzzle, cid) ==> {
                let out = seeded(puzzle, cid as usize, start_seeds(puzzle, cid), others(puzzle.pieces@.len(), cid as usize), 0);
                &&& final(self).explored == capped(old(self).explored + out.0)
                &&& sol_views(final(self).solutions@) == sol_views(old(self).solutions@) + out.1
            },
            all_exact(old(self).solutions@, puzzle.full.0) ==> all_exact(final(self).solutions@, puzzle.full.0),
            final(self).verbose == old(self).verbose,
    {
        if puzzle.pieces.len() == 0 {
            return;
        }
        let mut cid: usize = 0;
        let mut i: usize = 1;
        while i < puzzle.pieces.len()
            invariant
                1 <= i <= puzzle.pieces@.len(),
                cid < i,
                forall|j: int| 0 <= j < i ==> puzzle.pieces@[cid as int].placements@.len() <= #[trigger] puzzle.pieces@[j].placements@.len(),
                forall|j: int| 0 <= j < cid ==> puzzle.pieces@[cid as int].placements@.len() < #[trigger] puzzle.pieces@[j].placements@.len(),
            decreases puzzle.pieces.len() - i,
        {
            if puzzle.pieces[i].placements.len() < puzzle.pieces[cid].placements.len() {
                cid = i;
            }
            i = i + 1;
        }
        assert(fewest(puzzle, cid as int));
        assert forall|c: int| #[trigger] fewest(puzzle, c) implies c == cid by {
            if c < cid {
                assert(puzzle.pieces@[cid as int].placements@.len() < puzzle.pieces@[c].placements@.len());
            } else if c > cid {
                assert(puzzle.pieces@[c].placements@.len() < puzzle.pieces@[cid as int].placements@.len());
            }
        }
        if 1 <= puzzle.dim.x && puzzle.dim.x <= 4 && puzzle.dim.y == puzzle.dim.x && puzzle.dim.z == puzzle.dim.x {
            let seeds = puzzle.canonical_seeds(cid);
            self.begin_from(puzzle, cid, &seeds);
        } else {
            self.begin_from(puzzle, cid, &puzzle.pieces[cid].placements);
        }
    }

    /// The first empty cell at or after `prev`, with its one-cell board; `None` when every
    /// cell from `prev` on is occupied.
    fn new_cube(&self, arrangement: &Arrangement, prev: usize) -> (r: Option<(usize, Bitset)>)
        ensures
            r matches Some((c, m)) ==> first_empty(arrangement.occupied.0, prev as int) == Some(c as int) && c < 64
                && m.0 == 1u64 << c as u64,
            r is None ==> first_empty(arrangement.occupied.0, prev as int) is None,
    {
        let mut cube = prev;
        while cube < 64 && arrangement.occupied.get(cube)
            invariant
                prev <= cube,
                first_empty(arrangement.occupied.0, prev as int) == first_empty(arrangement.occupied.0, cube as int),
            decreases 64 - cube,
        {
            cube = cube + 1;
        }
        if cube >= 64 {
            None
        } else {
            Some((cube, Bitset(1u64 << cube as u64)))
        }
    }
}


/// Determinism: two runs of the seeded search on the same puzzle, piece and seeds, started
/// from the same counter and solution list, report the same node count and the same
/// solutions, in the same order.
pub proof fn lemma_runs_agree(puzzle: &Puzzle, cid: usize, seeds: Seq<Bitset>, before: Solver, first: Solver, second: Solver)
    requires
        first.explored == capped(before.explored + seeded(puzzle, cid, seeds, others(puzzle.pieces@.len(), cid), 0).0),
        sol_views(first.solutions@) == sol_views(before.solutions@) + seeded(puzzle, cid, seeds, others(puzzle.pieces@.len(), cid), 0).1,
        second.explored == capped(before.explored + seeded(puzzle, cid, seeds, others(puzzle.pieces@.len(), cid), 0).0),
        sol_views(second.solutions@) == sol_views(before.solutions@) + seeded(puzzle, cid, seeds, others(puzzle.pieces@.len(), cid), 0).1,
    ensures
        first.explored == second.explored,
        first.solutions@.len() == second.solutions@.len(),
        sol_views(first.solutions@) == sol_views(second.solutions@),
{
    assert(sol_views(first.solutions@).len() == first.solutions@.len());
    assert(sol_views(second.solutions@).len() == second.solutions@.len());
}


/// Union of a list of boards.
pub open spec fn union_of(s: Seq<u64>) -> u64
    decreases s.len(),
{
    if s.len() == 0 { 0 } else { union_of(s.drop_last()) | s.last() }
}

/// The pieces `pids` can still complete the cover of `occ`: `choice[a]` is a placement of
/// piece `pids[a]` that avoids `occ`, and together with `occ` they fill the volume.
pub open spec fn completes(puzzle: &Puzzle, occ: u64, pids: Seq<usize>, choice: Seq<u64>) -> bool {
    &&& choice.len() == pids.len()
    &&& forall|a: int| 0 <= a < pids.len() ==> exists|q: int| 0 <= q < puzzle.pieces@[pids[a] as int].placements@.len()
        && puzzle.pieces@[pids[a] as int].placements@[q].0 == #[trigger] choice[a]
    &&& forall|a: int| 0 <= a < pids.len() ==> disjoint(occ, #[trigger] choice[a])
    &&& occ | union_of(choice) == puzzle.full.0
}

proof fn lemma_grow_bounds(tmp: u64, s: Seq<u64>, full: u64)
    requires
        within(tmp, full),
        forall|k: int| 0 <= k < s.len() ==> within(#[trigger] s[k], full),
    ensures
        within(grow(tmp, s), full),
        within(tmp, grow(tmp, s)),
        forall|k: int| 0 <= k < s.len() && disjoint(tmp, s[k]) ==> within(#[trigger] s[k], grow(tmp, s)),
    decreases s.len(),
{
    if s.len() > 0 {
        let t = s.drop_last();
        assert forall|k: int| 0 <= k < t.len() implies within(#[trigger] t[k], full) by {
            assert(t[k] == s[k]);
        }
        lemma_grow_bounds(tmp, t, full);
        let g = grow(tmp, t);
        let l = s.last();
        assert(within(s[s.len() - 1], full));
        assert(within(g, full) && within(l, full) ==> within(g | l, full)) by (bit_vector);
        assert(within(tmp, g) ==> within(tmp, g | l)) by (bit_vector);
        assert(within(l, g | l)) by (bit_vector);
        assert forall|k: int| 0 <= k < s.len() && disjoint(tmp, s[k]) implies within(#[trigger] s[k], grow(tmp, s)) by {
            if k < s.len() - 1 {
                assert(t[k] == s[k]);
                let x = s[k];
                assert(within(x, g) ==> within(x, g | l)) by (bit_vector);
            }
        }
    } else {
        assert(within(tmp, tmp)) by (bit_vector);
    }
}

proof fn lemma_offered_has(puzzle: &Puzzle, pids: Seq<usize>, a: int, q: int)
    requires
        0 <= a < pids.len(),
        0 <= q < puzzle.pieces@[pids[a] as int].placements@.len(),
    ensures
        exists|k: int| 0 <= k < offered(puzzle, pids).len()
            && #[trigger] offered(puzzle, pids)[k] == puzzle.pieces@[pids[a] as int].placements@[q].0,
    decreases pids.len(),
{
    let t = pids.drop_last();
    let base = offered(puzzle, t);
    if a < pids.len() - 1 {
        assert(t[a] == pids[a]);
        lemma_offered_has(puzzle, t, a, q);
        let k = choose|k: int| 0 <= k < base.len() && #[trigger] base[k] == puzzle.pieces@[t[a] as int].placements@[q].0;
        assert(offered(puzzle, pids)[k] == base[k]);
    } else {
        let k = base.len() + q;
        assert(offered(puzzle, pids)[k] == words(puzzle.pieces@[pids[a] as int].placements@)[q]);
    }
}

proof fn lemma_union_within(s: Seq<u64>, g: u64)
    requires
        forall|k: int| 0 <= k < s.len() ==> within(#[trigger] s[k], g),
    ensures
        within(union_of(s), g),
    decreases s.len(),
{
    if s.len() > 0 {
        let t = s.drop_last();
        assert forall|k: int| 0 <= k < t.len() implies within(#[trigger] t[k], g) by {
            assert(t[k] == s[k]);
        }
        lemma_union_within(t, g);
        let u = union_of(t);
        let l = s.last();
        assert(within(s[s.len() - 1], g));
        assert(within(u, g) && within(l, g) ==> within(u | l, g)) by (bit_vector);
    } else {
        assert(within(0u64, g)) by (bit_vector);
    }
}

/// Pruning loses no tiling: when the remaining pieces can still complete the cover of an
/// occupancy inside the volume, both feasibility tests pass on it.
pub proof fn lemma_pruning_keeps_tilings(puzzle: &Puzzle, occ: u64, pids: Seq<usize>, choice: Seq<u64>)
    requires
        puzzle.wf(),
        valid_ids(puzzle, pids),
        within(occ, puzzle.full.0),
        completes(puzzle, occ, pids, choice),
    ensures
        coverage_reaches(occ, offered(puzzle, pids), puzzle.full.0),
        each_placeable(puzzle, occ, pids),
{
    let full = puzzle.full.0;
    let s = offered(puzzle, pids);
    assert forall|a: int| 0 <= a < pids.len() implies placeable(puzzle, occ, #[trigger] pids[a]) by {
        let q = choose|q: int| 0 <= q < puzzle.pieces@[pids[a] as int].placements@.len()
            && puzzle.pieces@[pids[a] as int].placements@[q].0 == choice[a];
        assert(disjoint(occ, choice[a]));
    }
    lemma_offered_within(puzzle, pids);
    lemma_grow_bounds(occ, s, full);
    let g = grow(occ, s);
    assert forall|a: int| 0 <= a < choice.len() implies within(#[trigger] choice[a], g) by {
        let q = choose|q: int| 0 <= q < puzzle.pieces@[pids[a] as int].placements@.len()
            && puzzle.pieces@[pids[a] as int].placements@[q].0 == choice[a];
        lemma_offered_has(puzzle, pids, a, q);
        let k = choose|k: int| 0 <= k < s.len() && #[trigger] s[k] == puzzle.pieces@[pids[a] as int].placements@[q].0;
        assert(disjoint(occ, s[k]));
    }
    lemma_union_within(choice, g);
    let u = union_of(choice);
    assert(within(occ, g) && within(u, g) ==> within(occ | u, g)) by (bit_vector);
    lemma_within_both(g, full);
}

proof fn lemma_offered_within(puzzle: &Puzzle, pids: Seq<usize>)
    requires
        puzzle.wf(),
        valid_ids(puzzle, pids),
    ensures
        forall|k: int| 0 <= k < offered(puzzle, pids).len() ==> within(#[trigger] offered(puzzle, pids)[k], puzzle.full.0),
    decreases pids.len(),
{
    if pids.len() > 0 {
        let t = pids.drop_last();
        assert forall|a: int| 0 <= a < t.len() implies #[trigger] t[a] < puzzle.pieces@.len() by {
            assert(t[a] == pids[a]);
        }
        lemma_offered_within(puzzle, t);
        let pid = pids.last();
        assert(pids[pids.len() - 1] < puzzle.pieces@.len());
        let base = offered(puzzle, t);
        let w = words(puzzle.pieces@[pid as int].placements@);
        assert forall|k: int| 0 <= k < offered(puzzle, pids).len() implies within(#[trigger] offered(puzzle, pids)[k], puzzle.full.0) by {
            if k < base.len() {
                assert(offered(puzzle, pids)[k] == base[k]);
            } else {
                assert(offered(puzzle, pids)[k] == w[k - base.len()]);
                lemma_placement_within_full(puzzle, pid as int, k - base.len());
            }
        }
    }
}

} // verus!
