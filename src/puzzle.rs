use vstd::prelude::*;
use itertools::Itertools;
use crate::bitset::{Bitset, Placement, bit, cells_of, lemma_bit_ops, lemma_single_bit, lemma_within_by_bits, within};
use crate::geometry::{
    Cell, Coord, Orientation, grounded, grounded_cell, high_corner, lemma_min_max, axis, max_on,
    translate, SPAN, normalize, turned, shape_ok, lemma_grounded_ok, turn, pow_x, pow_y, pow_z,
    lemma_turned_ok, lemma_normalize_grounded, min_on,
};
use crate::placement::{
    block_x, dim_ok, lemma_dim_small, fits_in, inside, mask_of, placements_of, plane_y,
    room, row_z, lemma_translate_distinct, lemma_placement_source, lemma_mask_count, lemma_mask_bits,
    index_of, lemma_index_bound, lemma_placements_distinct,
};

verus! {

/// The words of a list of boards.
pub open spec fn words(v: Seq<Bitset>) -> Seq<u64> {
    v.map_values(|b: Bitset| b.0)
}

/// Index `i` holds the first occurrence of its key.
pub open spec fn first_of(keys: Seq<u64>, i: int) -> bool {
    forall|j: int| 0 <= j < i ==> keys[j] != keys[i]
}

/// Relies on itertools' `Itertools::unique_by`: it yields, in their order, the items whose
/// key was not produced before, so the indices kept are those of each key's first occurrence.
#[verifier::external_body]
fn first_occurrences(keys: &Vec<u64>) -> (r: Vec<usize>)
    ensures
        forall|p: int, q: int| 0 <= p < q < r@.len() ==> r@[p] < r@[q],
        forall|p: int| 0 <= p < r@.len() ==> r@[p] < keys@.len() && first_of(keys@, r@[p] as int),
        forall|i: int| 0 <= i < keys@.len() && first_of(keys@, i) ==> r@.contains(i as usize),
{
    keys.iter().enumerate().unique_by(|&(_, k)| *k).map(|(i, _)| i).collect()
}

/// The shapes that lie inside the volume, in order.
pub open spec fn fitting(s: Seq<Seq<Cell>>, d: Cell) -> Seq<Seq<Cell>>
    decreases s.len(),
{
    if s.len() == 0 {
        Seq::empty()
    } else {
        let f = fitting(s.drop_last(), d);
        if fits_in(s.last(), d) { f.push(s.last()) } else { f }
    }
}

pub open spec fn masks(s: Seq<Seq<Cell>>, d: Cell) -> Seq<u64> {
    s.map_values(|c: Seq<Cell>| mask_of(c, d))
}

/// The shapes whose mask did not occur earlier, in order.
pub open spec fn distinct_shapes(s: Seq<Seq<Cell>>, d: Cell) -> Seq<Seq<Cell>>
    decreases s.len(),
{
    if s.len() == 0 {
        Seq::empty()
    } else {
        let u = distinct_shapes(s.drop_last(), d);
        if first_of(masks(s, d), s.len() - 1) { u.push(s.last()) } else { u }
    }
}

/// The placements of each shape, one shape after another.
pub open spec fn all_placements(u: Seq<Seq<Cell>>, d: Cell) -> Seq<u64>
    decreases u.len(),
{
    if u.len() == 0 {
        Seq::empty()
    } else {
        all_placements(u.drop_last(), d) + placements_of(u.last(), d)
    }
}

/// The reference frame in which orientations are told apart by mask.
pub open spec fn frame() -> Cell {
    (4, 4, 4)
}

/// Every rotation of `b` lies in the reference frame.
pub open spec fn frame_fits(b: Seq<Cell>) -> bool {
    forall|k: int| 0 <= k < candidates(b).len() ==> fits_in(#[trigger] candidates(b)[k], frame())
}

/// The geometrically distinct rotations of `b`: each rotation whose mask in the reference
/// frame did not occur earlier in the list.
pub open spec fn distinct_rotations(b: Seq<Cell>) -> Seq<Seq<Cell>> {
    distinct_shapes(candidates(b), frame())
}

/// Every placement of a piece with base shape `b`: each distinct rotation that fits the
/// volume, at every translation.
pub open spec fn piece_placements_of(b: Seq<Cell>, d: Cell) -> Seq<u64> {
    all_placements(fitting(distinct_rotations(b), d), d)
}

/// Why a set of pieces does not make a puzzle.
#[derive(Clone, Copy, Debug, PartialEq, Eq, Structural)]
pub enum PuzzleError {
    /// The piece at this index has no cells, a cell outside `0..=SPAN` on some axis, or a
    /// rotation that leaves the 4×4×4 reference frame.
    BadShape(usize),
    /// The pieces' cells, counted first (up to the largest `usize`), do not fill a cube of
    /// side 1 to 4; second, the volume of the smallest such cube that would hold them (64 when
    /// none would).
    VolumeMismatch(usize, usize),
}

/// Sum of the cell counts of the first `n` bases.
pub open spec fn cells_total(pieces: Seq<Piece>, n: int) -> int
    decreases n,
{
    if n <= 0 {
        0
    } else {
        cells_total(pieces, n - 1) + pieces[n - 1].base.view().len()
    }
}

/// A base shape that the puzzle accepts: in the nonnegative octant, and with every rotation
/// inside the reference frame.
pub open spec fn valid_base(s: Seq<Cell>) -> bool {
    grounded(s) && frame_fits(s)
}

/// A count, capped at the largest `usize`.
pub open spec fn capped_count(n: int) -> int {
    if n > usize::MAX { usize::MAX as int } else { n }
}

/// The volume of the smallest cube of side 1 to 4 that holds `n` cells; 64 when none does.
pub open spec fn expected_volume(n: int) -> int {
    if n <= 1 { 1 } else if n <= 8 { 8 } else if n <= 27 { 27 } else { 64 }
}

/// The word with exactly the first `n` cells set.
pub open spec fn low_cells(w: u64, n: int) -> bool {
    forall|j: int| 0 <= j < 64 ==> (bit(w, j) <==> j < n)
}

/// A cube side whose volume is `n` and fits a board word.
pub open spec fn cube_side(n: int, side: int) -> bool {
    1 <= side <= 4 && side * side * side == n
}

proof fn lemma_total_grows(pieces: Seq<Piece>, i: int, n: int)
    requires
        0 <= i <= n,
    ensures
        cells_total(pieces, i) <= cells_total(pieces, n),
    decreases n - i,
{
    if i < n {
        lemma_total_grows(pieces, i, n - 1);
    }
}

proof fn lemma_cube_small(side: int)
    requires
        1 <= side <= 4,
    ensures
        side * side <= 16,
        side * side * side <= 64,
{
    assert(side * side <= 16 && side * side * side <= 64) by (nonlinear_arith)
        requires
            1 <= side <= 4,
    ;
}

/// A piece: display name, short label, base shape and every placement in the volume.
#[derive(Clone)]
pub struct Piece {
    pub name: String,
    pub id: String,
    pub base: Orientation,
    pub placements: Vec<Placement>,
}

/// Turned, then normalized.
pub open spec fn spin(s: Seq<Cell>, x: nat, y: nat, z: nat) -> Seq<Cell> {
    normalize(turned(s, x, y, z))
}

/// The shape after `i` quarter turns about the x axis, starting from its normalized form.
pub open spec fn stage(b: Seq<Cell>, i: nat) -> Seq<Cell>
    decreases i,
{
    if i == 0 {
        normalize(b)
    } else {
        spin(stage(b, (i - 1) as nat), 1, 0, 0)
    }
}

/// Six rotations that bring each face of `c` in turn to the front.
pub open spec fn faces(c: Seq<Cell>) -> Seq<Seq<Cell>> {
    seq![c, spin(c, 0, 1, 0), spin(c, 0, 3, 0), spin(c, 0, 0, 1), spin(c, 0, 0, 2), spin(c, 0, 0, 3)]
}

/// The 24 rotations of a shape, each normalized, possibly repeated.
pub open spec fn candidates(b: Seq<Cell>) -> Seq<Seq<Cell>> {
    faces(stage(b, 0)) + faces(stage(b, 1)) + faces(stage(b, 2)) + faces(stage(b, 3))
}

pub open spec fn views(v: Seq<Orientation>) -> Seq<Seq<Cell>> {
    v.map_values(|o: Orientation| o.view())
}

impl Piece {
    pub fn new(name: String, id: String, base: Orientation) -> (r: Piece)
        ensures
            r.name == name,
            r.id == id,
            r.base == base,
            r.placements@.len() == 0,
    {
        Piece { name, id, base, placements: Vec::new() }
    }

    /// Every rotation of the base shape, normalized, in a fixed order, repeats included.
    pub fn rotations(&self) -> (r: Vec<Orientation>)
        requires
            shape_ok(self.base.view()),
        ensures
            views(r@) == candidates(self.base.view()),
            forall|k: int| 0 <= k < r@.len() ==> grounded(#[trigger] r@[k].view()),
    {
        let ghost b = self.base.view();
        let mut current_orientation = self.base.normalise();
        let mut orientations: Vec<Orientation> = Vec::new();
        let mut i: usize = 0;
        while i < 4
            invariant
                i <= 4,
                current_orientation.view() == stage(b, i as nat),
                grounded(current_orientation.view()),
                views(orientations@) == candidates(b).take(6 * i),
                forall|k: int| 0 <= k < orientations@.len() ==> grounded(#[trigger] orientations@[k].view()),
            decreases 4 - i,
        {
            let ghost c = current_orientation.view();
            proof {
                lemma_grounded_ok(c);
            }
            let ghost before = views(orientations@);
            orientations.push(current_orientation.duplicate());
            let mut o = current_orientation.duplicate();
            o.rotate(0, 1, 0);
            orientations.push(o);
            let mut o = current_orientation.duplicate();
            o.rotate(0, 3, 0);
            orientations.push(o);
            let mut o = current_orientation.duplicate();
            o.rotate(0, 0, 1);
            orientations.push(o);
            let mut o = current_orientation.duplicate();
            o.rotate(0, 0, 2);
            orientations.push(o);
            let mut o = current_orientation.duplicate();
            o.rotate(0, 0, 3);
            orientations.push(o);
            assert(views(orientations@) =~= before + faces(c));
            assert(candidates(b).take(6 * (i + 1)) =~= candidates(b).take(6 * i) + faces(stage(b, i as nat)));
            current_orientation.rotate(1, 0, 0);
            i = i + 1;
        }
        assert(candidates(b).take(24) =~= candidates(b));
        orientations
    }

    /// The geometrically distinct rotations of the base shape, normalized: of rotations with
    /// the same mask in the reference frame, only the first is kept.
    pub fn orientations(&self) -> (r: Vec<Orientation>)
        requires
            shape_ok(self.base.view()),
            frame_fits(self.base.view()),
        ensures
            views(r@) == distinct_rotations(self.base.view()),
            forall|k: int| 0 <= k < r@.len() ==> grounded(#[trigger] r@[k].view()),
            forall|i: int, j: int| 0 <= i < j < r@.len()
                ==> mask_of((#[trigger] r@[i]).view(), frame()) != mask_of((#[trigger] r@[j]).view(), frame()),
            forall|k: int| 0 <= k < candidates(self.base.view()).len() ==> exists|i: int| 0 <= i < r@.len()
                && mask_of((#[trigger] r@[i]).view(), frame()) == mask_of(#[trigger] candidates(self.base.view())[k], frame()),
    {
        let ghost b = self.base.view();
        let ghost f = frame();
        let cands = self.rotations();
        let ghost cs = views(cands@);
        let reference = Coord { x: 4, y: 4, z: 4 };
        let mut keys: Vec<u64> = Vec::new();
        assert(dim_ok(f)) by {
            assert(4 * 4 * 4 == 64int) by (nonlinear_arith);
        }
        let mut i: usize = 0;
        while i < cands.len()
            invariant
                i <= cands.len(),
                cs == views(cands@),
                cs == candidates(b),
                reference.view() == f,
                f == frame(),
                dim_ok(f),
                frame_fits(b),
                keys@ == masks(cs.take(i as int), f),
            decreases cands.len() - i,
        {
            assert(cs[i as int] == cands@[i as int].view());
            assert(fits_in(candidates(b)[i as int], frame()));
            let key = Bitset::from_orientation(&cands[i], &reference);
            let ghost before = keys@;
            keys.push(key.0);
            assert(keys@ =~= masks(cs.take(i + 1), f));
            i = i + 1;
        }
        assert(cs.take(i as int) =~= cs);
        let firsts = first_occurrences(&keys);
        let mut result: Vec<Orientation> = Vec::new();
        let mut p: usize = 0;
        let mut i: usize = 0;
        assert(cs.take(0) =~= Seq::<Seq<Cell>>::empty());
        while i < cands.len()
            invariant
                i <= cands.len(),
                p <= firsts@.len(),
                cs == views(cands@),
                keys@ == masks(cs, f),
                forall|k: int| 0 <= k < cands@.len() ==> grounded(#[trigger] cands@[k].view()),
                forall|k: int| 0 <= k < result@.len() ==> grounded(#[trigger] result@[k].view()),
                forall|a: int, c: int| 0 <= a < c < firsts@.len() ==> firsts@[a] < firsts@[c],
                forall|a: int| 0 <= a < firsts@.len() ==> firsts@[a] < keys@.len() && first_of(keys@, firsts@[a] as int),
                forall|k: int| 0 <= k < keys@.len() && first_of(keys@, k) ==> firsts@.contains(k as usize),
                forall|q: int| 0 <= q < p ==> firsts@[q] < i,
                forall|q: int| p <= q < firsts@.len() ==> firsts@[q] >= i,
                views(result@) == distinct_shapes(cs.take(i as int), f),
            decreases cands.len() - i,
        {
            let ghost keep = first_of(keys@, i as int);
            assert(cs.take(i + 1).drop_last() =~= cs.take(i as int));
            assert(cs.take(i + 1).last() == cs[i as int]);
            assert(first_of(masks(cs.take(i + 1), f), i as int) == keep) by {
                let m = masks(cs.take(i + 1), f);
                assert(m == keys@.take(i + 1));
                assert(m[i as int] == keys@[i as int]);
                if keep {
                    assert forall|j: int| 0 <= j < i implies m[j] != m[i as int] by {
                        assert(m[j] == keys@[j]);
                    }
                } else {
                    let j = choose|j: int| 0 <= j < i && keys@[j] == keys@[i as int];
                    assert(m[j] == keys@[j]);
                }
            }
            if p < firsts.len() && firsts[p] == i {
                let ghost before = views(result@);
                result.push(cands[i].duplicate());
                assert(views(result@) =~= before.push(cs[i as int]));
                p = p + 1;
            } else {
                assert(!keep) by {
                    if keep {
                        let q = choose|q: int| 0 <= q < firsts@.len() && firsts@[q] == i;
                        if q > p {
                            assert(firsts@[p as int] < firsts@[q]);
                        }
                    }
                }
                assert forall|q: int| p <= q < firsts@.len() implies firsts@[q] >= i + 1 by {
                    if firsts@[q] == i {
                        assert(first_of(keys@, i as int));
                    }
                }
            }
            i = i + 1;
        }
        assert(cs.take(i as int) =~= cs);
        proof {
            lemma_distinct_masks(cs, f);
            let u = distinct_shapes(cs, f);
            assert forall|k: int| 0 <= k < result@.len() implies (#[trigger] result@[k]).view() == u[k] by {
                assert(views(result@)[k] == result@[k].view());
            }
        }
        result
    }

    pub fn placements(&self) -> (r: &Vec<Placement>)
        ensures
            r == &self.placements,
    {
        &self.placements
    }
}

/// The volume, its pieces with their placements, and the mask of all its cells.
pub struct Puzzle {
    pub name: String,
    pub pieces: Vec<Piece>,
    pub dim: Coord,
    pub full: Bitset,
}

impl Puzzle {
    /// The volume's size, its pieces' placements and its full mask are consistent.
    pub open spec fn wf(&self) -> bool {
        &&& dim_ok(self.dim.view())
        &&& low_cells(self.full.0, self.dim.x * self.dim.y * self.dim.z)
        &&& forall|i: int| 0 <= i < self.pieces@.len() ==> {
            &&& valid_base(#[trigger] self.pieces@[i].base.view())
            &&& words(self.pieces@[i].placements@) == piece_placements_of(self.pieces@[i].base.view(), self.dim.view())
        }
    }

    /// The board with every cell of a volume of size `dim` set.
    pub fn full(dim: &Coord) -> (r: Bitset)
        requires
            dim_ok(dim.view()),
        ensures
            low_cells(r.0, dim.x * dim.y * dim.z),
    {
        let mut full = Bitset::empty();
        proof {
            lemma_dim_small(dim.view());
            assert forall|j: int| 0 <= j < 64 implies !bit(0u64, j) by {
                let k = j as u64;
                assert((0u64 >> k) & 1 == 0) by (bit_vector);
            }
        }
        assert(0 <= dim.x * dim.y <= dim.x * dim.y * dim.z) by (nonlinear_arith)
            requires
                1 <= dim.x,
                1 <= dim.y,
                1 <= dim.z,
        ;
        let n = (dim.x * dim.y * dim.z) as usize;
        let mut i: usize = 0;
        while i < n
            invariant
                i <= n,
                n == dim.x * dim.y * dim.z,
                n <= 64,
                low_cells(full.0, i as int),
            decreases n - i,
        {
            let ghost w = full.0;
            full.set(i);
            assert forall|j: int| 0 <= j < 64 implies (bit(full.0, j) <==> j < i + 1) by {
                lemma_bit_ops(w, 1u64 << i as u64, j as u64);
                lemma_single_bit(i as u64, j as u64);
            }
            i = i + 1;
        }
        full
    }

    /// Whether every rotation of the piece's base lies in the reference frame.
    pub fn fits_frame(piece: &Piece) -> (r: bool)
        requires
            grounded(piece.base.view()),
        ensures
            r == frame_fits(piece.base.view()),
    {
        proof {
            lemma_grounded_ok(piece.base.view());
        }
        let rots = piece.rotations();
        let ghost cs = views(rots@);
        let mut i: usize = 0;
        while i < rots.len()
            invariant
                i <= rots.len(),
                cs == views(rots@),
                cs == candidates(piece.base.view()),
                forall|k: int| 0 <= k < rots@.len() ==> grounded(#[trigger] rots@[k].view()),
                forall|k: int| 0 <= k < i ==> fits_in(#[trigger] cs[k], frame()),
            decreases rots.len() - i,
        {
            let c = &rots[i];
            let ghost cv = c.view();
            assert(cv == cs[i as int]);
            assert(grounded(rots@[i as int].view()));
            let b = c.bounds();
            proof {
                lemma_min_max(cv, 0);
                lemma_min_max(cv, 1);
                lemma_min_max(cv, 2);
            }
            if !(b.x < 4 && b.y < 4 && b.z < 4) {
                assert(!fits_in(cv, frame())) by {
                    let a: int = if b.x >= 4 { 0 } else if b.y >= 4 { 1 } else { 2 };
                    let k = choose|k: int| 0 <= k < cv.len() && axis(cv[k], a) == max_on(cv, a);
                    assert(!inside(cv[k], frame()));
                }
                return false;
            }
            assert forall|k: int| 0 <= k < cv.len() implies inside(#[trigger] cv[k], frame()) by {
                assert(grounded_cell(cv[k]));
                assert(axis(cv[k], 0) <= max_on(cv, 0));
                assert(axis(cv[k], 1) <= max_on(cv, 1));
                assert(axis(cv[k], 2) <= max_on(cv, 2));
            }
            i = i + 1;
        }
        true
    }

    /// Builds a cubic puzzle from pieces given by name, label and base shape: the side is the
    /// cube root of the total cell count, and each piece gets every placement in that cube.
    pub fn new(name: String, pieces: Vec<Piece>) -> (r: Result<Puzzle, PuzzleError>)
        ensures
            match r {
                Ok(p) => {
                    &&& p.wf()
                    &&& p.name == name
                    &&& p.pieces@.len() == pieces@.len()
                    &&& forall|i: int| 0 <= i < pieces@.len() ==> {
                        &&& (#[trigger] p.pieces@[i]).name == pieces@[i].name
                        &&& p.pieces@[i].id == pieces@[i].id
                        &&& p.pieces@[i].base.view() == pieces@[i].base.view()
                    }
                    &&& p.dim.x == p.dim.y == p.dim.z
                    &&& cube_side(cells_total(pieces@, pieces@.len() as int), p.dim.x as int)
                },
                Err(PuzzleError::BadShape(i)) => {
                    &&& i < pieces@.len()
                    &&& !valid_base(pieces@[i as int].base.view())
                    &&& forall|k: int| 0 <= k < i ==> valid_base(#[trigger] pieces@[k].base.view())
                },
                Err(PuzzleError::VolumeMismatch(n, e)) => {
                    &&& forall|k: int| 0 <= k < pieces@.len() ==> valid_base(#[trigger] pieces@[k].base.view())
                    &&& forall|side: int| !cube_side(cells_total(pieces@, pieces@.len() as int), side)
                    &&& n == capped_count(cells_total(pieces@, pieces@.len() as int))
                    &&& e == expected_volume(n as int)
                },
            },
    {
        let mut i: usize = 0;
        while i < pieces.len()
            invariant
                i <= pieces.len(),
                forall|k: int| 0 <= k < i ==> valid_base(#[trigger] pieces@[k].base.view()),
            decreases pieces.len() - i,
        {
            let base = &pieces[i].base;
            if base.0.len() == 0 {
                return Err(PuzzleError::BadShape(i));
            }
            let mut j: usize = 0;
            while j < base.0.len()
                invariant
                    j <= base.0.len(),
                    i < pieces.len(),
                    forall|k: int| 0 <= k < i ==> valid_base(#[trigger] pieces@[k].base.view()),
                    base == pieces@[i as int].base,
                    base.view().len() > 0,
                    forall|k: int| 0 <= k < j ==> grounded_cell(#[trigger] base.view()[k]),
                decreases base.0.len() - j,
            {
                let c = base.0[j];
                if !(0 <= c.x && c.x <= SPAN && 0 <= c.y && c.y <= SPAN && 0 <= c.z && c.z <= SPAN) {
                    assert(!grounded_cell(base.view()[j as int]));
                    return Err(PuzzleError::BadShape(i));
                }
                j = j + 1;
            }
            assert(base.view() =~= pieces@[i as int].base.view());
            if !Self::fits_frame(&pieces[i]) {
                return Err(PuzzleError::BadShape(i));
            }
            i = i + 1;
        }
        let mut blocks: usize = 0;
        let mut i: usize = 0;
        while i < pieces.len()
            invariant
                i <= pieces.len(),
                blocks == capped_count(cells_total(pieces@, i as int)),
                forall|k: int| 0 <= k < pieces@.len() ==> valid_base(#[trigger] pieces@[k].base.view()),
            decreases pieces.len() - i,
        {
            blocks = blocks.saturating_add(pieces[i].base.0.len());
            i = i + 1;
        }
        let mut side: usize = 0;
        let mut d: usize = 1;
        while d <= 4
            invariant
                1 <= d <= 5,
                blocks == capped_count(cells_total(pieces@, pieces@.len() as int)),
                forall|k: int| 0 <= k < pieces@.len() ==> valid_base(#[trigger] pieces@[k].base.view()),
                side == 0 ==> forall|k: int| 1 <= k < d ==> !#[trigger] cube_side(blocks as int, k),
                side != 0 ==> cube_side(blocks as int, side as int),
            decreases 5 - d,
        {
            proof {
                lemma_cube_small(d as int);
            }
            if side == 0 && d * d * d == blocks {
                side = d;
            }
            d = d + 1;
        }
        if side == 0 {
            assert forall|k: int| !cube_side(cells_total(pieces@, pieces@.len() as int), k) by {
                if 1 <= k <= 4 {
                    assert(!cube_side(blocks as int, k));
                    lemma_cube_small(k);
                }
            }
            let expected: usize = if blocks <= 1 { 1 } else if blocks <= 8 { 8 } else if blocks <= 27 { 27 } else { 64 };
            return Err(PuzzleError::VolumeMismatch(blocks, expected));
        }
        let d = side;
        assert(cube_side(cells_total(pieces@, pieces@.len() as int), d as int)) by {
            lemma_cube_small(d as int);
        }
        let dim = Coord::new(d, d, d);
        assert(dim_ok(dim.view())) by {
            assert(d * d * d <= 64) by (nonlinear_arith)
                requires
                    1 <= d <= 4,
            ;
        }
        let mut placed: Vec<Piece> = Vec::new();
        let mut i: usize = 0;
        while i < pieces.len()
            invariant
                i <= pieces.len(),
                dim_ok(dim.view()),
                forall|k: int| 0 <= k < pieces@.len() ==> valid_base(#[trigger] pieces@[k].base.view()),
                placed@.len() == i,
                forall|k: int| 0 <= k < i ==> {
                    &&& (#[trigger] placed@[k]).name == pieces@[k].name
                    &&& placed@[k].id == pieces@[k].id
                    &&& placed@[k].base.view() == pieces@[k].base.view()
                    &&& words(placed@[k].placements@) == piece_placements_of(placed@[k].base.view(), dim.view())
                },
            decreases pieces.len() - i,
        {
            let src = &pieces[i];
            assert(grounded(src.base.view()));
            proof {
                lemma_grounded_ok(src.base.view());
            }
            let placements = Self::piece_placements(src, &dim);
            placed.push(Piece { name: src.name.clone(), id: src.id.clone(), base: src.base.duplicate(), placements });
            i = i + 1;
        }
        let full = Self::full(&dim);
        Ok(Puzzle { name, pieces: placed, dim, full })
    }
    /// Every placement of `piece` in a volume of size `dim`: each of its distinct rotations
    /// that fits the volume, at every translation.
    pub fn piece_placements(piece: &Piece, dim: &Coord) -> (r: Vec<Placement>)
        requires
            shape_ok(piece.base.view()),
            frame_fits(piece.base.view()),
            dim_ok(dim.view()),
        ensures
            words(r@) == piece_placements_of(piece.base.view(), dim.view()),
    {
        let ghost d = dim.view();
        let orients = piece.orientations();
        let ghost us = views(orients@);
        let mut result: Vec<Placement> = Vec::new();
        let mut i: usize = 0;
        assert(us.take(0) =~= Seq::<Seq<Cell>>::empty());
        while i < orients.len()
            invariant
                i <= orients.len(),
                d == dim.view(),
                dim_ok(d),
                us == views(orients@),
                forall|k: int| 0 <= k < orients@.len() ==> grounded(#[trigger] orients@[k].view()),
                words(result@) == all_placements(fitting(us.take(i as int), d), d),
            decreases orients.len() - i,
        {
            let c = &orients[i];
            let ghost cv = c.view();
            assert(us.take(i + 1).drop_last() =~= us.take(i as int));
            assert(us.take(i + 1).last() == cv);
            assert(grounded(orients@[i as int].view()));
            let b = c.bounds();
            proof {
                lemma_min_max(cv, 0);
                lemma_min_max(cv, 1);
                lemma_min_max(cv, 2);
            }
            if b.x < dim.x && b.y < dim.y && b.z < dim.z {
                assert forall|k: int| 0 <= k < cv.len() implies inside(#[trigger] cv[k], d) by {
                    assert(grounded_cell(cv[k]));
                    assert(axis(cv[k], 0) <= max_on(cv, 0));
                    assert(axis(cv[k], 1) <= max_on(cv, 1));
                    assert(axis(cv[k], 2) <= max_on(cv, 2));
                }
                let ghost before = words(result@);
                let mut more = Self::unique_placements(c, dim);
                result.append(&mut more);
                assert(words(result@) =~= before + placements_of(cv, d));
                let ghost fv = fitting(us.take(i as int), d).push(cv);
                assert(fv.drop_last() =~= fitting(us.take(i as int), d));
            } else {
                assert(!fits_in(cv, d)) by {
                    let a: int = if b.x >= dim.x { 0 } else if b.y >= dim.y { 1 } else { 2 };
                    let k = choose|k: int| 0 <= k < cv.len() && axis(cv[k], a) == max_on(cv, a);
                    assert(!inside(cv[k], d));
                }
            }
            i = i + 1;
        }
        assert(us.take(i as int) =~= us);
        result
    }

    /// Every translation of `ori` that stays inside a volume of size `dim`, as boards.
    pub fn unique_placements(ori: &Orientation, dim: &Coord) -> (r: Vec<Placement>)
        requires
            grounded(ori.view()),
            dim_ok(dim.view()),
        ensures
            words(r@) == placements_of(ori.view(), dim.view()),
            forall|i: int, j: int| 0 <= i < j < r@.len() ==> #[trigger] r@[i] != #[trigger] r@[j],
    {
        let ghost s = ori.view();
        let ghost d = dim.view();
        let mut placements: Vec<Placement> = Vec::new();
        let bounds = ori.bounds();
        proof {
            lemma_min_max(s, 0);
            lemma_min_max(s, 1);
            lemma_min_max(s, 2);
            assert(grounded_cell(s[0]));
            lemma_dim_small(d);
        }
        let ghost h = high_corner(s);
        let ghost nx = room(d.0, h.0);
        let ghost ny = room(d.1, h.1);
        let ghost nz = room(d.2, h.2);
        assert forall|i: int| 0 <= i < s.len() implies (#[trigger] s[i]).0 <= h.0 && s[i].1 <= h.1 && s[i].2 <= h.2 by {
            assert(axis(s[i], 0) <= max_on(s, 0));
            assert(axis(s[i], 1) <= max_on(s, 1));
            assert(axis(s[i], 2) <= max_on(s, 2));
        }
        let mut x_off: i64 = 0;
        while x_off < dim.x - bounds.x
            invariant
                s == ori.view(),
                d == dim.view(),
                grounded(s),
                dim_ok(d),
                bounds.view() == h,
                h == high_corner(s),
                0 <= h.0 && 0 <= h.1 && 0 <= h.2,
                forall|i: int| 0 <= i < s.len() ==> (#[trigger] s[i]).0 <= h.0 && s[i].1 <= h.1 && s[i].2 <= h.2,
                d.0 <= 64 && d.1 <= 64 && d.2 <= 64,
                nx == room(d.0, h.0),
                ny == room(d.1, h.1),
                nz == room(d.2, h.2),
                0 <= x_off <= nx,
                words(placements@) == block_x(s, d, x_off as nat, ny, nz),
            decreases nx - x_off,
        {
            let mut y_off: i64 = 0;
            while y_off < dim.y - bounds.y
                invariant
                    s == ori.view(),
                    d == dim.view(),
                    grounded(s),
                    dim_ok(d),
                    bounds.view() == h,
                    0 <= h.0 && 0 <= h.1 && 0 <= h.2,
                    forall|i: int| 0 <= i < s.len() ==> (#[trigger] s[i]).0 <= h.0 && s[i].1 <= h.1 && s[i].2 <= h.2,
                d.0 <= 64 && d.1 <= 64 && d.2 <= 64,
                    h == high_corner(s),
                    nx == room(d.0, h.0),
                    ny == room(d.1, h.1),
                    nz == room(d.2, h.2),
                    0 <= x_off < nx,
                    0 <= y_off <= ny,
                    words(placements@) == block_x(s, d, x_off as nat, ny, nz) + plane_y(s, d, x_off as int, y_off as nat, nz),
                decreases ny - y_off,
            {
                let mut z_off: i64 = 0;
                while z_off < dim.z - bounds.z
                    invariant
                        s == ori.view(),
                        d == dim.view(),
                        grounded(s),
                        dim_ok(d),
                        bounds.view() == h,
                        0 <= h.0 && 0 <= h.1 && 0 <= h.2,
                        forall|i: int| 0 <= i < s.len() ==> (#[trigger] s[i]).0 <= h.0 && s[i].1 <= h.1 && s[i].2 <= h.2,
                d.0 <= 64 && d.1 <= 64 && d.2 <= 64,
                        h == high_corner(s),
                        nx == room(d.0, h.0),
                        ny == room(d.1, h.1),
                        nz == room(d.2, h.2),
                        0 <= x_off < nx,
                        0 <= y_off < ny,
                        0 <= z_off <= nz,
                        words(placements@) == block_x(s, d, x_off as nat, ny, nz) + plane_y(s, d, x_off as int, y_off as nat, nz)
                            + row_z(s, d, x_off as int, y_off as int, z_off as nat),
                    decreases nz - z_off,
                {
                    let t = Coord { x: x_off, y: y_off, z: z_off };
                    let new_pos = ori.translated(&t);
                    assert forall|i: int| 0 <= i < new_pos.view().len() implies inside(#[trigger] new_pos.view()[i], d) by {
                        assert(grounded_cell(s[i]));
                    }
                    let p = Bitset::from_orientation(&new_pos, dim);
                    let ghost before = words(placements@);
                    placements.push(p);
                    assert(words(placements@) =~= before.push(p.0));
                    assert(row_z(s, d, x_off as int, y_off as int, (z_off + 1) as nat) =~= row_z(s, d, x_off as int, y_off as int, z_off as nat).push(p.0));
                    z_off = z_off + 1;
                }
                assert(plane_y(s, d, x_off as int, (y_off + 1) as nat, nz) == plane_y(s, d, x_off as int, y_off as nat, nz) + row_z(s, d, x_off as int, y_off as int, nz));
                assert(words(placements@) =~= block_x(s, d, x_off as nat, ny, nz) + plane_y(s, d, x_off as int, (y_off + 1) as nat, nz));
                y_off = y_off + 1;
            }
            assert(block_x(s, d, (x_off + 1) as nat, ny, nz) == block_x(s, d, x_off as nat, ny, nz) + plane_y(s, d, x_off as int, ny, nz));
            x_off = x_off + 1;
        }
        proof {
            lemma_placements_distinct(s, d);
            assert(words(placements@) == placements_of(s, d));
            assert forall|i: int, j: int| 0 <= i < j < placements@.len() implies #[trigger] placements@[i] != #[trigger] placements@[j] by {
                assert(placements_of(s, d)[i] != placements_of(s, d)[j]);
                assert(words(placements@)[i] == placements@[i].0);
                assert(words(placements@)[j] == placements@[j].0);
            }
        }
        placements
    }
}


proof fn lemma_turn_injective(a: Cell, b: Cell, x: nat, y: nat, z: nat)
    requires
        turn(a, x, y, z) == turn(b, x, y, z),
    ensures
        a == b,
{
    lemma_pow_z_injective(pow_y(pow_x(a, x), y), pow_y(pow_x(b, x), y), z);
    lemma_pow_y_injective(pow_x(a, x), pow_x(b, x), y);
    lemma_pow_x_injective(a, b, x);
}

proof fn lemma_pow_x_injective(a: Cell, b: Cell, n: nat)
    requires
        pow_x(a, n) == pow_x(b, n),
    ensures
        a == b,
    decreases n,
{
    if n > 0 {
        lemma_pow_x_injective(a, b, (n - 1) as nat);
    }
}

proof fn lemma_pow_y_injective(a: Cell, b: Cell, n: nat)
    requires
        pow_y(a, n) == pow_y(b, n),
    ensures
        a == b,
    decreases n,
{
    if n > 0 {
        lemma_pow_y_injective(a, b, (n - 1) as nat);
    }
}

proof fn lemma_pow_z_injective(a: Cell, b: Cell, n: nat)
    requires
        pow_z(a, n) == pow_z(b, n),
    ensures
        a == b,
    decreases n,
{
    if n > 0 {
        lemma_pow_z_injective(a, b, (n - 1) as nat);
    }
}

/// Turning and normalizing keep a shape's cells distinct, its size, and its well-formedness.
proof fn lemma_spin_keeps(s: Seq<Cell>, x: nat, y: nat, z: nat)
    requires
        shape_ok(s),
        s.no_duplicates(),
    ensures
        grounded(spin(s, x, y, z)),
        spin(s, x, y, z).no_duplicates(),
        spin(s, x, y, z).len() == s.len(),
{
    let t = turned(s, x, y, z);
    lemma_turned_ok(s, x, y, z);
    assert forall|i: int, k: int| 0 <= i < t.len() && 0 <= k < t.len() && i != k implies t[i] != t[k] by {
        if t[i] == t[k] {
            lemma_turn_injective(s[i], s[k], x, y, z);
        }
    }
    lemma_normalize_grounded(t);
    lemma_translate_distinct(t, (-min_on(t, 0), -min_on(t, 1), -min_on(t, 2)));
}

proof fn lemma_stage_keeps(b: Seq<Cell>, i: nat)
    requires
        shape_ok(b),
        b.no_duplicates(),
    ensures
        grounded(stage(b, i)),
        stage(b, i).no_duplicates(),
        stage(b, i).len() == b.len(),
    decreases i,
{
    if i == 0 {
        lemma_normalize_grounded(b);
        lemma_translate_distinct(b, (-min_on(b, 0), -min_on(b, 1), -min_on(b, 2)));
    } else {
        lemma_stage_keeps(b, (i - 1) as nat);
        lemma_grounded_ok(stage(b, (i - 1) as nat));
        lemma_spin_keeps(stage(b, (i - 1) as nat), 1, 0, 0);
    }
}

proof fn lemma_faces_keep(c: Seq<Cell>, n: int, k: int)
    requires
        grounded(c),
        c.no_duplicates(),
        c.len() == n,
        0 <= k < 6,
    ensures
        grounded(faces(c)[k]),
        faces(c)[k].no_duplicates(),
        faces(c)[k].len() == n,
{
    lemma_grounded_ok(c);
    lemma_spin_keeps(c, 0, 1, 0);
    lemma_spin_keeps(c, 0, 3, 0);
    lemma_spin_keeps(c, 0, 0, 1);
    lemma_spin_keeps(c, 0, 0, 2);
    lemma_spin_keeps(c, 0, 0, 3);
}

proof fn lemma_candidate_keeps(b: Seq<Cell>, k: int)
    requires
        shape_ok(b),
        b.no_duplicates(),
        0 <= k < candidates(b).len(),
    ensures
        grounded(candidates(b)[k]),
        candidates(b)[k].no_duplicates(),
        candidates(b)[k].len() == b.len(),
{
    let q = k / 6;
    lemma_stage_keeps(b, q as nat);
    lemma_faces_keep(stage(b, q as nat), b.len() as int, k % 6);
    assert(candidates(b)[k] == faces(stage(b, q as nat))[k % 6]);
}

proof fn lemma_fitting_source(s: Seq<Seq<Cell>>, d: Cell, k: int)
    requires
        0 <= k < fitting(s, d).len(),
    ensures
        exists|i: int| 0 <= i < s.len() && #[trigger] s[i] == fitting(s, d)[k] && fits_in(s[i], d),
    decreases s.len(),
{
    let t = s.drop_last();
    if k < fitting(t, d).len() {
        lemma_fitting_source(t, d, k);
        let i = choose|i: int| 0 <= i < t.len() && #[trigger] t[i] == fitting(t, d)[k] && fits_in(t[i], d);
        assert(s[i] == t[i]);
    } else {
        assert(s[s.len() - 1] == fitting(s, d)[k]);
    }
}

proof fn lemma_distinct_source(s: Seq<Seq<Cell>>, d: Cell, k: int)
    requires
        0 <= k < distinct_shapes(s, d).len(),
    ensures
        exists|i: int| 0 <= i < s.len() && #[trigger] s[i] == distinct_shapes(s, d)[k],
    decreases s.len(),
{
    let t = s.drop_last();
    if k < distinct_shapes(t, d).len() {
        lemma_distinct_source(t, d, k);
        let i = choose|i: int| 0 <= i < t.len() && #[trigger] t[i] == distinct_shapes(t, d)[k];
        assert(s[i] == t[i]);
    } else {
        assert(s[s.len() - 1] == distinct_shapes(s, d)[k]);
    }
}

proof fn lemma_all_source(u: Seq<Seq<Cell>>, d: Cell, k: int)
    requires
        0 <= k < all_placements(u, d).len(),
    ensures
        exists|i: int, m: int| 0 <= i < u.len() && 0 <= m < placements_of(u[i], d).len()
            && #[trigger] placements_of(u[i], d)[m] == all_placements(u, d)[k],
    decreases u.len(),
{
    let t = u.drop_last();
    if k < all_placements(t, d).len() {
        lemma_all_source(t, d, k);
        let (i, m) = choose|i: int, m: int| 0 <= i < t.len() && 0 <= m < placements_of(t[i], d).len()
            && #[trigger] placements_of(t[i], d)[m] == all_placements(t, d)[k];
        assert(u[i] == t[i]);
        assert(placements_of(u[i], d)[m] == all_placements(u, d)[k]);
    } else {
        let m = k - all_placements(t, d).len();
        assert(placements_of(u[u.len() - 1], d)[m] == all_placements(u, d)[k]);
    }
}

/// Rotation and translation neither add nor remove cells: every placement of a piece whose
/// base lists distinct cells has exactly as many set bits as the base has cells.
pub proof fn lemma_placements_keep_cells(b: Seq<Cell>, d: Cell, k: int)
    requires
        shape_ok(b),
        b.no_duplicates(),
        dim_ok(d),
        0 <= k < piece_placements_of(b, d).len(),
    ensures
        cells_of(piece_placements_of(b, d)[k]).finite(),
        cells_of(piece_placements_of(b, d)[k]).len() == b.len(),
{
    let cs = candidates(b);
    let us = distinct_shapes(cs, frame());
    let fs = fitting(us, d);
    lemma_all_source(fs, d, k);
    let (i, m) = choose|i: int, m: int| 0 <= i < fs.len() && 0 <= m < placements_of(fs[i], d).len()
        && #[trigger] placements_of(fs[i], d)[m] == all_placements(fs, d)[k];
    lemma_fitting_source(us, d, i);
    let i2 = choose|j: int| 0 <= j < us.len() && #[trigger] us[j] == fs[i] && fits_in(us[j], d);
    lemma_distinct_source(cs, frame(), i2);
    let i3 = choose|j: int| 0 <= j < cs.len() && #[trigger] cs[j] == us[i2];
    lemma_candidate_keeps(b, i3);
    let u = fs[i];
    lemma_placement_source(u, d, m);
    let t = choose|t: Cell| 0 <= t.0 && 0 <= t.1 && 0 <= t.2 && fits_in(translate(u, t), d)
        && #[trigger] mask_of(translate(u, t), d) == placements_of(u, d)[m];
    lemma_translate_distinct(u, t);
    lemma_mask_count(translate(u, t), d);
}


/// The shapes kept by `distinct_shapes` have pairwise different masks, and every shape of the
/// input has a kept shape with its mask.
pub proof fn lemma_distinct_masks(s: Seq<Seq<Cell>>, d: Cell)
    ensures
        forall|i: int, j: int| 0 <= i < j < distinct_shapes(s, d).len()
            ==> mask_of(#[trigger] distinct_shapes(s, d)[i], d) != mask_of(#[trigger] distinct_shapes(s, d)[j], d),
        forall|k: int| 0 <= k < s.len() ==> exists|i: int| 0 <= i < distinct_shapes(s, d).len()
            && mask_of(#[trigger] distinct_shapes(s, d)[i], d) == mask_of(#[trigger] s[k], d),
    decreases s.len(),
{
    if s.len() > 0 {
        let t = s.drop_last();
        let ut = distinct_shapes(t, d);
        let u = distinct_shapes(s, d);
        let n = s.len() - 1;
        lemma_distinct_masks(t, d);
        let keep = first_of(masks(s, d), n);
        assert forall|k: int| 0 <= k < t.len() implies #[trigger] t[k] == s[k] by {}
        if keep {
            assert(u == ut.push(s[n]));
            assert forall|i: int, j: int| 0 <= i < j < u.len()
                implies mask_of(#[trigger] u[i], d) != mask_of(#[trigger] u[j], d) by {
                if j == u.len() - 1 {
                    lemma_distinct_source(t, d, i);
                    let k = choose|k: int| 0 <= k < t.len() && #[trigger] t[k] == ut[i];
                    assert(masks(s, d)[k] != masks(s, d)[n]);
                } else {
                    assert(u[i] == ut[i] && u[j] == ut[j]);
                }
            }
            assert forall|k: int| 0 <= k < s.len() implies exists|i: int| 0 <= i < u.len()
                && mask_of(#[trigger] u[i], d) == mask_of(#[trigger] s[k], d) by {
                if k == n {
                    assert(u[u.len() - 1] == s[k]);
                } else {
                    assert(t[k] == s[k]);
                    let i = choose|i: int| 0 <= i < ut.len() && mask_of(#[trigger] ut[i], d) == mask_of(t[k], d);
                    assert(u[i] == ut[i]);
                }
            }
        } else {
            assert(u == ut);
            assert forall|k: int| 0 <= k < s.len() implies exists|i: int| 0 <= i < u.len()
                && mask_of(#[trigger] u[i], d) == mask_of(#[trigger] s[k], d) by {
                if k == n {
                    let j = choose|j: int| 0 <= j < n && masks(s, d)[j] == masks(s, d)[n];
                    assert(t[j] == s[j]);
                    let i = choose|i: int| 0 <= i < ut.len() && mask_of(#[trigger] ut[i], d) == mask_of(t[j], d);
                } else {
                    assert(t[k] == s[k]);
                }
            }
        }
    }
}


/// Every placement of a piece of a consistent puzzle lies within the full volume.
pub proof fn lemma_placement_within_full(puzzle: &Puzzle, pid: int, q: int)
    requires
        puzzle.wf(),
        0 <= pid < puzzle.pieces@.len(),
        0 <= q < puzzle.pieces@[pid].placements@.len(),
    ensures
        within(puzzle.pieces@[pid].placements@[q].0, puzzle.full.0),
{
    let b = puzzle.pieces@[pid].base.view();
    let d = puzzle.dim.view();
    assert(valid_base(b));
    lemma_grounded_ok(b);
    let w = puzzle.pieces@[pid].placements@[q].0;
    assert(words(puzzle.pieces@[pid].placements@)[q] == w);
    let cs = candidates(b);
    let us = distinct_shapes(cs, frame());
    let fs = fitting(us, d);
    lemma_all_source(fs, d, q);
    let (i, m) = choose|i: int, m: int| 0 <= i < fs.len() && 0 <= m < placements_of(fs[i], d).len()
        && #[trigger] placements_of(fs[i], d)[m] == all_placements(fs, d)[q];
    lemma_fitting_source(us, d, i);
    let i2 = choose|j: int| 0 <= j < us.len() && #[trigger] us[j] == fs[i] && fits_in(us[j], d);
    lemma_distinct_source(cs, frame(), i2);
    let i3 = choose|j: int| 0 <= j < cs.len() && #[trigger] cs[j] == us[i2];
    lemma_candidate_grounded(b, i3);
    let u = fs[i];
    lemma_placement_source(u, d, m);
    let t = choose|t: Cell| 0 <= t.0 && 0 <= t.1 && 0 <= t.2 && fits_in(translate(u, t), d)
        && #[trigger] mask_of(translate(u, t), d) == placements_of(u, d)[m];
    let v = translate(u, t);
    lemma_mask_bits(v, d);
    assert forall|j: int| 0 <= j < 64 && bit(w, j) implies #[trigger] bit(puzzle.full.0, j) by {
        let c = choose|c: int| 0 <= c < v.len() && index_of(v[c], d) == j;
        assert(inside(v[c], d));
        lemma_index_bound(v[c], d);
    }
    lemma_within_by_bits(w, puzzle.full.0);
}

proof fn lemma_candidate_grounded(b: Seq<Cell>, k: int)
    requires
        shape_ok(b),
        0 <= k < candidates(b).len(),
    ensures
        grounded(candidates(b)[k]),
{
    let q = k / 6;
    lemma_stage_grounded(b, q as nat);
    let st = stage(b, q as nat);
    lemma_grounded_ok(st);
    lemma_turned_ok(st, 0, 1, 0);
    lemma_turned_ok(st, 0, 3, 0);
    lemma_turned_ok(st, 0, 0, 1);
    lemma_turned_ok(st, 0, 0, 2);
    lemma_turned_ok(st, 0, 0, 3);
    lemma_normalize_grounded(turned(st, 0, 1, 0));
    lemma_normalize_grounded(turned(st, 0, 3, 0));
    lemma_normalize_grounded(turned(st, 0, 0, 1));
    lemma_normalize_grounded(turned(st, 0, 0, 2));
    lemma_normalize_grounded(turned(st, 0, 0, 3));
    assert(candidates(b)[k] == faces(st)[k % 6]);
}

proof fn lemma_stage_grounded(b: Seq<Cell>, i: nat)
    requires
        shape_ok(b),
    ensures
        grounded(stage(b, i)),
    decreases i,
{
    if i == 0 {
        lemma_normalize_grounded(b);
    } else {
        lemma_stage_grounded(b, (i - 1) as nat);
        lemma_grounded_ok(stage(b, (i - 1) as nat));
        lemma_turned_ok(stage(b, (i - 1) as nat), 1, 0, 0);
        lemma_normalize_grounded(turned(stage(b, (i - 1) as nat), 1, 0, 0));
    }
}

} // verus!
