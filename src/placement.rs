use vstd::prelude::*;
use crate::bitset::{Bitset, bit, cells_of, lemma_bit_ops, lemma_single_bit};
use crate::geometry::{
    Cell, Coord, Orientation, grounded, grounded_cell, high_corner, lemma_min_max, axis, max_on,
    shift, translate,
};

verus! {

/// A volume of at least one cell per axis that fits in one board word.
pub open spec fn dim_ok(d: Cell) -> bool {
    1 <= d.0 && 1 <= d.1 && 1 <= d.2 && d.0 * d.1 * d.2 <= 64
}

pub open spec fn inside(c: Cell, d: Cell) -> bool {
    0 <= c.0 < d.0 && 0 <= c.1 < d.1 && 0 <= c.2 < d.2
}

/// Every cell of the shape lies in the volume.
pub open spec fn fits_in(s: Seq<Cell>, d: Cell) -> bool {
    forall|i: int| 0 <= i < s.len() ==> inside(#[trigger] s[i], d)
}

/// Linear index of a cell: `z·Y·X + y·X + x`.
pub open spec fn index_of(c: Cell, d: Cell) -> int {
    c.2 * d.1 * d.0 + c.1 * d.0 + c.0
}

/// The board word with the cells of `s` set.
pub open spec fn mask_of(s: Seq<Cell>, d: Cell) -> u64
    decreases s.len(),
{
    if s.len() == 0 {
        0
    } else {
        mask_of(s.drop_last(), d) | (1u64 << (index_of(s.last(), d) as u64))
    }
}

/// Number of translations along one axis that keep a shape with greatest coordinate `h` inside `d`.
pub open spec fn room(d: int, h: int) -> nat {
    if d > h { (d - h) as nat } else { 0 }
}

pub open spec fn row_z(s: Seq<Cell>, d: Cell, x: int, y: int, nz: nat) -> Seq<u64> {
    Seq::new(nz, |z: int| mask_of(translate(s, (x, y, z)), d))
}

pub open spec fn plane_y(s: Seq<Cell>, d: Cell, x: int, ny: nat, nz: nat) -> Seq<u64>
    decreases ny,
{
    if ny == 0 {
        Seq::empty()
    } else {
        plane_y(s, d, x, (ny - 1) as nat, nz) + row_z(s, d, x, ny - 1, nz)
    }
}

pub open spec fn block_x(s: Seq<Cell>, d: Cell, nx: nat, ny: nat, nz: nat) -> Seq<u64>
    decreases nx,
{
    if nx == 0 {
        Seq::empty()
    } else {
        block_x(s, d, (nx - 1) as nat, ny, nz) + plane_y(s, d, nx - 1, ny, nz)
    }
}

/// Masks of every translation of `s` that stays inside `d`: x offsets outermost, then y, then z.
pub open spec fn placements_of(s: Seq<Cell>, d: Cell) -> Seq<u64> {
    let h = high_corner(s);
    block_x(s, d, room(d.0, h.0), room(d.1, h.1), room(d.2, h.2))
}

pub proof fn lemma_dim_small(d: Cell)
    requires
        dim_ok(d),
    ensures
        d.0 <= 64,
        d.1 <= 64,
        d.2 <= 64,
{
    assert(d.0 <= d.0 * d.1 * d.2 && d.1 <= d.0 * d.1 * d.2 && d.2 <= d.0 * d.1 * d.2) by (nonlinear_arith)
        requires
            1 <= d.0,
            1 <= d.1,
            1 <= d.2,
    ;
}

pub proof fn lemma_index_bound(c: Cell, d: Cell)
    requires
        dim_ok(d),
        inside(c, d),
    ensures
        0 <= c.2 * d.1 <= 64,
        0 <= c.2 * d.1 * d.0 <= 64,
        0 <= c.1 * d.0 <= 64,
        0 <= index_of(c, d) < d.0 * d.1 * d.2,
        index_of(c, d) < 64,
{
    assert(0 <= c.2 * d.1 * d.0 <= (d.2 - 1) * d.1 * d.0) by (nonlinear_arith)
        requires
            0 <= c.2 < d.2,
            1 <= d.1,
            1 <= d.0,
    ;
    assert(0 <= c.1 * d.0 <= (d.1 - 1) * d.0) by (nonlinear_arith)
        requires
            0 <= c.1 < d.1,
            1 <= d.0,
    ;
    assert((d.2 - 1) * d.1 * d.0 + (d.1 - 1) * d.0 + d.0 == d.0 * d.1 * d.2) by (nonlinear_arith);
    assert(0 <= c.2 * d.1 <= c.2 * d.1 * d.0) by (nonlinear_arith)
        requires
            0 <= c.2,
            1 <= d.1,
            1 <= d.0,
    ;
}

impl Bitset {
    /// The board with the cells of `orientation` set, in a volume of size `dim`.
    pub fn from_orientation(orientation: &Orientation, dim: &Coord) -> (r: Bitset)
        requires
            dim_ok(dim.view()),
            fits_in(orientation.view(), dim.view()),
        ensures
            r.0 == mask_of(orientation.view(), dim.view()),
    {
        let ghost s = orientation.view();
        let ghost d = dim.view();
        let mut mask = Bitset(0);
        let mut i: usize = 0;
        assert(s.take(0) =~= Seq::<Cell>::empty());
        while i < orientation.0.len()
            invariant
                i <= orientation.0.len(),
                s == orientation.view(),
                d == dim.view(),
                dim_ok(d),
                fits_in(s, d),
                mask.0 == mask_of(s.take(i as int), d),
            decreases orientation.0.len() - i,
        {
            let coord = orientation.0[i];
            assert(coord.view() == s[i as int]);
            assert(inside(s[i as int], d));
            proof {
                lemma_index_bound(coord.view(), d);
            }
            let index = coord.z * dim.y * dim.x + coord.y * dim.x + coord.x;
            mask.0 = mask.0 | (1u64 << index as u64);
            assert(s.take(i + 1).drop_last() =~= s.take(i as int));
            assert(s.take(i + 1).last() == s[i as int]);
            i = i + 1;
        }
        assert(s.take(i as int) =~= s);
        mask
    }
}

impl Orientation {
    /// The shape moved by `t`.
    pub fn translated(&self, t: &Coord) -> (r: Orientation)
        requires
            grounded(self.view()),
            grounded_cell(t.view()),
        ensures
            r.view() == translate(self.view(), t.view()),
    {
        let ghost s = self.view();
        let mut blocks: Vec<Coord> = Vec::new();
        let mut i: usize = 0;
        while i < self.0.len()
            invariant
                i <= self.0.len(),
                s == self.view(),
                grounded(s),
                grounded_cell(t.view()),
                blocks@.len() == i,
                forall|k: int| 0 <= k < i ==> (#[trigger] blocks@[k]).view() == shift(s[k], t.view()),
            decreases self.0.len() - i,
        {
            let c = self.0[i];
            assert(grounded_cell(s[i as int]));
            blocks.push(Coord { x: c.x + t.x, y: c.y + t.y, z: c.z + t.z });
            i = i + 1;
        }
        let r = Orientation(blocks);
        assert(r.view() =~= translate(s, t.view()));
        r
    }
}


/// Within a volume, a set bit of a shape's mask is exactly the index of one of its cells.
pub proof fn lemma_mask_bits(s: Seq<Cell>, d: Cell)
    requires
        dim_ok(d),
        fits_in(s, d),
    ensures
        forall|j: int| 0 <= j < 64 ==> (bit(#[trigger] mask_of(s, d), j) <==> exists|i: int| 0 <= i < s.len() && index_of(s[i], d) == j),
    decreases s.len(),
{
    if s.len() == 0 {
        assert forall|j: int| 0 <= j < 64 implies !bit(#[trigger] mask_of(s, d), j) by {
            let k = j as u64;
            assert((0u64 >> k) & 1 == 0) by (bit_vector);
        }
    } else {
        let t = s.drop_last();
        assert forall|i: int| 0 <= i < t.len() implies inside(#[trigger] t[i], d) by {
            assert(t[i] == s[i]);
        }
        lemma_mask_bits(t, d);
        assert(inside(s[s.len() - 1], d));
        lemma_index_bound(s.last(), d);
        let last = index_of(s.last(), d) as u64;
        assert forall|j: int| 0 <= j < 64 implies (bit(#[trigger] mask_of(s, d), j) <==> exists|i: int| 0 <= i < s.len() && index_of(s[i], d) == j) by {
            lemma_bit_ops(mask_of(t, d), 1u64 << last, j as u64);
            lemma_single_bit(last, j as u64);
            if exists|i: int| 0 <= i < s.len() && index_of(s[i], d) == j {
                let i = choose|i: int| 0 <= i < s.len() && index_of(s[i], d) == j;
                if i < s.len() - 1 {
                    assert(t[i] == s[i]);
                }
            }
            if exists|i: int| 0 <= i < t.len() && index_of(t[i], d) == j {
                let i = choose|i: int| 0 <= i < t.len() && index_of(t[i], d) == j;
                assert(t[i] == s[i]);
            }
        }
    }
}

/// Some cell of a nonempty shape has the least index.
proof fn lemma_least_index(s: Seq<Cell>, d: Cell) -> (m: int)
    requires
        s.len() > 0,
    ensures
        0 <= m < s.len(),
        forall|k: int| 0 <= k < s.len() ==> index_of(s[m], d) <= #[trigger] index_of(s[k], d),
    decreases s.len(),
{
    if s.len() == 1 {
        0
    } else {
        let t = s.drop_last();
        let m0 = lemma_least_index(t, d);
        let m = if index_of(s.last(), d) < index_of(s[m0], d) { s.len() - 1 } else { m0 };
        assert(t[m0] == s[m0]);
        assert forall|k: int| 0 <= k < s.len() implies index_of(s[m], d) <= #[trigger] index_of(s[k], d) by {
            if k < s.len() - 1 {
                assert(t[k] == s[k]);
                assert(index_of(t[m0], d) <= index_of(t[k], d));
            }
        }
        m
    }
}

/// Linear indices add up under translation.
proof fn lemma_index_shift(c: Cell, t: Cell, d: Cell)
    ensures
        index_of(shift(c, t), d) == index_of(c, d) + index_of(t, d),
{
    assert((c.2 + t.2) * d.1 * d.0 == c.2 * d.1 * d.0 + t.2 * d.1 * d.0) by (nonlinear_arith);
    assert((c.1 + t.1) * d.0 == c.1 * d.0 + t.1 * d.0) by (nonlinear_arith);
}

/// Distinct cells of a volume have distinct linear indices.
pub proof fn lemma_index_injective(a: Cell, b: Cell, d: Cell)
    requires
        dim_ok(d),
        inside(a, d),
        inside(b, d),
        index_of(a, d) == index_of(b, d),
    ensures
        a == b,
{
    let xy = d.1 * d.0;
    assert(0 <= a.1 * d.0 + a.0 < xy && 0 <= b.1 * d.0 + b.0 < xy) by (nonlinear_arith)
        requires
            0 <= a.1 < d.1,
            0 <= b.1 < d.1,
            0 <= a.0 < d.0,
            0 <= b.0 < d.0,
            xy == d.1 * d.0,
    ;
    assert(a.2 * d.1 * d.0 == a.2 * xy && b.2 * d.1 * d.0 == b.2 * xy) by (nonlinear_arith)
        requires
            xy == d.1 * d.0,
    ;
    assert(a.2 == b.2) by (nonlinear_arith)
        requires
            a.2 * xy + (a.1 * d.0 + a.0) == b.2 * xy + (b.1 * d.0 + b.0),
            0 <= a.1 * d.0 + a.0 < xy,
            0 <= b.1 * d.0 + b.0 < xy,
    ;
    assert(a.1 == b.1) by (nonlinear_arith)
        requires
            a.1 * d.0 + a.0 == b.1 * d.0 + b.0,
            0 <= a.0 < d.0,
            0 <= b.0 < d.0,
    ;
}

/// Two translations of one shape by distinct offsets that both stay inside the volume give
/// distinct masks.
pub proof fn lemma_translations_differ(s: Seq<Cell>, d: Cell, t1: Cell, t2: Cell)
    requires
        s.len() > 0,
        dim_ok(d),
        0 <= t1.0 && 0 <= t1.1 && 0 <= t1.2,
        0 <= t2.0 && 0 <= t2.1 && 0 <= t2.2,
        forall|i: int| 0 <= i < s.len() ==> 0 <= (#[trigger] s[i]).0 && 0 <= s[i].1 && 0 <= s[i].2,
        fits_in(translate(s, t1), d),
        fits_in(translate(s, t2), d),
        t1 != t2,
    ensures
        mask_of(translate(s, t1), d) != mask_of(translate(s, t2), d),
{
    let u1 = translate(s, t1);
    let u2 = translate(s, t2);
    lemma_mask_bits(u1, d);
    lemma_mask_bits(u2, d);
    let m = lemma_least_index(s, d);
    assert(inside(u1[m], d) && inside(u2[m], d));
    lemma_index_bound(u1[m], d);
    lemma_index_bound(u2[m], d);
    lemma_index_shift(s[m], t1, d);
    lemma_index_shift(s[m], t2, d);
    if mask_of(u1, d) == mask_of(u2, d) {
        let j1 = index_of(u1[m], d);
        assert(bit(mask_of(u1, d), j1));
        let i2 = choose|i: int| 0 <= i < u2.len() && index_of(u2[i], d) == j1;
        lemma_index_shift(s[i2], t2, d);
        let j2 = index_of(u2[m], d);
        assert(bit(mask_of(u2, d), j2));
        let i1 = choose|i: int| 0 <= i < u1.len() && index_of(u1[i], d) == j2;
        lemma_index_shift(s[i1], t1, d);
        assert(index_of(t1, d) == index_of(t2, d));
        assert(inside(t1, d) && inside(t2, d));
        lemma_index_injective(t1, t2, d);
    }
}


/// A mask of distinct cells inside the volume has one set bit per cell.
pub proof fn lemma_mask_count(u: Seq<Cell>, d: Cell)
    requires
        dim_ok(d),
        fits_in(u, d),
        u.no_duplicates(),
    ensures
        cells_of(mask_of(u, d)).finite(),
        cells_of(mask_of(u, d)).len() == u.len(),
    decreases u.len(),
{
    lemma_mask_bits(u, d);
    if u.len() == 0 {
        assert(cells_of(mask_of(u, d)) =~= Set::<int>::empty());
    } else {
        let t = u.drop_last();
        assert forall|i: int| 0 <= i < t.len() implies inside(#[trigger] t[i], d) by {
            assert(t[i] == u[i]);
        }
        assert(t.no_duplicates()) by {
            assert forall|i: int, k: int| 0 <= i < t.len() && 0 <= k < t.len() && i != k implies t[i] != t[k] by {
                assert(t[i] == u[i] && t[k] == u[k]);
            }
        }
        lemma_mask_count(t, d);
        lemma_mask_bits(t, d);
        assert(inside(u[u.len() - 1], d));
        lemma_index_bound(u.last(), d);
        let j = index_of(u.last(), d);
        assert(cells_of(mask_of(u, d)) =~= cells_of(mask_of(t, d)).insert(j)) by {
            assert forall|x: int| #[trigger] cells_of(mask_of(u, d)).contains(x) <==> cells_of(mask_of(t, d)).insert(j).contains(x) by {
                if 0 <= x < 64 {
                    if exists|i: int| 0 <= i < u.len() && index_of(u[i], d) == x {
                        let i = choose|i: int| 0 <= i < u.len() && index_of(u[i], d) == x;
                        if i < u.len() - 1 {
                            assert(t[i] == u[i]);
                        }
                    }
                    if exists|i: int| 0 <= i < t.len() && index_of(t[i], d) == x {
                        let i = choose|i: int| 0 <= i < t.len() && index_of(t[i], d) == x;
                        assert(t[i] == u[i]);
                    }
                }
            }
        }
        assert(!cells_of(mask_of(t, d)).contains(j)) by {
            if cells_of(mask_of(t, d)).contains(j) {
                let i = choose|i: int| 0 <= i < t.len() && index_of(t[i], d) == j;
                assert(t[i] == u[i]);
                assert(inside(u[i], d));
                lemma_index_injective(u[i], u.last(), d);
            }
        }
    }
}

/// A shift keeps distinct cells distinct.
pub proof fn lemma_translate_distinct(s: Seq<Cell>, t: Cell)
    requires
        s.no_duplicates(),
    ensures
        translate(s, t).no_duplicates(),
        translate(s, t).len() == s.len(),
{
    let u = translate(s, t);
    assert forall|i: int, k: int| 0 <= i < u.len() && 0 <= k < u.len() && i != k implies u[i] != u[k] by {
        assert(s[i] != s[k]);
    }
}

/// Every entry of the translation list is the mask of a translation by a nonnegative offset
/// that keeps the shape inside the volume.
pub proof fn lemma_placement_source(s: Seq<Cell>, d: Cell, k: int)
    requires
        grounded(s),
        0 <= k < placements_of(s, d).len(),
    ensures
        exists|t: Cell| 0 <= t.0 && 0 <= t.1 && 0 <= t.2 && fits_in(translate(s, t), d)
            && #[trigger] mask_of(translate(s, t), d) == placements_of(s, d)[k],
{
    let h = high_corner(s);
    lemma_min_max(s, 0);
    lemma_min_max(s, 1);
    lemma_min_max(s, 2);
    lemma_block_source(s, d, room(d.0, h.0), room(d.1, h.1), room(d.2, h.2), k);
    let t = choose|t: Cell| 0 <= t.0 < room(d.0, h.0) && 0 <= t.1 < room(d.1, h.1) && 0 <= t.2 < room(d.2, h.2)
        && #[trigger] mask_of(translate(s, t), d) == block_x(s, d, room(d.0, h.0), room(d.1, h.1), room(d.2, h.2))[k];
    assert forall|i: int| 0 <= i < translate(s, t).len() implies inside(#[trigger] translate(s, t)[i], d) by {
        assert(grounded_cell(s[i]));
        assert(axis(s[i], 0) <= max_on(s, 0));
        assert(axis(s[i], 1) <= max_on(s, 1));
        assert(axis(s[i], 2) <= max_on(s, 2));
    }
}

proof fn lemma_block_source(s: Seq<Cell>, d: Cell, nx: nat, ny: nat, nz: nat, k: int)
    requires
        0 <= k < block_x(s, d, nx, ny, nz).len(),
    ensures
        exists|t: Cell| 0 <= t.0 < nx && 0 <= t.1 < ny && 0 <= t.2 < nz
            && #[trigger] mask_of(translate(s, t), d) == block_x(s, d, nx, ny, nz)[k],
    decreases nx,
{
    let prev = block_x(s, d, (nx - 1) as nat, ny, nz);
    if k < prev.len() {
        lemma_block_source(s, d, (nx - 1) as nat, ny, nz, k);
        let t = choose|t: Cell| 0 <= t.0 < nx - 1 && 0 <= t.1 < ny && 0 <= t.2 < nz
            && #[trigger] mask_of(translate(s, t), d) == prev[k];
        assert(mask_of(translate(s, t), d) == block_x(s, d, nx, ny, nz)[k]);
    } else {
        lemma_plane_source(s, d, nx - 1, ny, nz, k - prev.len());
        let t = choose|t: Cell| t.0 == nx - 1 && 0 <= t.1 < ny && 0 <= t.2 < nz
            && #[trigger] mask_of(translate(s, t), d) == plane_y(s, d, nx - 1, ny, nz)[k - prev.len()];
        assert(mask_of(translate(s, t), d) == block_x(s, d, nx, ny, nz)[k]);
    }
}

proof fn lemma_plane_source(s: Seq<Cell>, d: Cell, x: int, ny: nat, nz: nat, k: int)
    requires
        0 <= k < plane_y(s, d, x, ny, nz).len(),
    ensures
        exists|t: Cell| t.0 == x && 0 <= t.1 < ny && 0 <= t.2 < nz
            && #[trigger] mask_of(translate(s, t), d) == plane_y(s, d, x, ny, nz)[k],
    decreases ny,
{
    let prev = plane_y(s, d, x, (ny - 1) as nat, nz);
    if k < prev.len() {
        lemma_plane_source(s, d, x, (ny - 1) as nat, nz, k);
        let t = choose|t: Cell| t.0 == x && 0 <= t.1 < ny - 1 && 0 <= t.2 < nz
            && #[trigger] mask_of(translate(s, t), d) == prev[k];
        assert(mask_of(translate(s, t), d) == plane_y(s, d, x, ny, nz)[k]);
    } else {
        let t = (x, ny - 1, k - prev.len());
        assert(mask_of(translate(s, t), d) == plane_y(s, d, x, ny, nz)[k]);
    }
}


/// A translation by an offset below the room on each axis keeps a grounded shape inside.
proof fn lemma_offset_fits(s: Seq<Cell>, d: Cell, t: Cell)
    requires
        grounded(s),
        0 <= t.0 < room(d.0, high_corner(s).0),
        0 <= t.1 < room(d.1, high_corner(s).1),
        0 <= t.2 < room(d.2, high_corner(s).2),
    ensures
        fits_in(translate(s, t), d),
{
    lemma_min_max(s, 0);
    lemma_min_max(s, 1);
    lemma_min_max(s, 2);
    assert forall|i: int| 0 <= i < translate(s, t).len() implies inside(#[trigger] translate(s, t)[i], d) by {
        assert(grounded_cell(s[i]));
        assert(axis(s[i], 0) <= max_on(s, 0));
        assert(axis(s[i], 1) <= max_on(s, 1));
        assert(axis(s[i], 2) <= max_on(s, 2));
    }
}

proof fn lemma_differ_at(s: Seq<Cell>, d: Cell, t1: Cell, t2: Cell)
    requires
        grounded(s),
        dim_ok(d),
        0 <= t1.0 < room(d.0, high_corner(s).0),
        0 <= t1.1 < room(d.1, high_corner(s).1),
        0 <= t1.2 < room(d.2, high_corner(s).2),
        0 <= t2.0 < room(d.0, high_corner(s).0),
        0 <= t2.1 < room(d.1, high_corner(s).1),
        0 <= t2.2 < room(d.2, high_corner(s).2),
        t1 != t2,
    ensures
        mask_of(translate(s, t1), d) != mask_of(translate(s, t2), d),
{
    lemma_offset_fits(s, d, t1);
    lemma_offset_fits(s, d, t2);
    assert forall|i: int| 0 <= i < s.len() implies 0 <= (#[trigger] s[i]).0 && 0 <= s[i].1 && 0 <= s[i].2 by {
        assert(grounded_cell(s[i]));
    }
    lemma_translations_differ(s, d, t1, t2);
}

proof fn lemma_plane_distinct(s: Seq<Cell>, d: Cell, x: int, ny: nat, nz: nat)
    requires
        grounded(s),
        dim_ok(d),
        0 <= x < room(d.0, high_corner(s).0),
        ny <= room(d.1, high_corner(s).1),
        nz <= room(d.2, high_corner(s).2),
    ensures
        forall|i: int, j: int| 0 <= i < j < plane_y(s, d, x, ny, nz).len()
            ==> #[trigger] plane_y(s, d, x, ny, nz)[i] != #[trigger] plane_y(s, d, x, ny, nz)[j],
    decreases ny,
{
    if ny > 0 {
        let prev = plane_y(s, d, x, (ny - 1) as nat, nz);
        let row = row_z(s, d, x, ny - 1, nz);
        let p = plane_y(s, d, x, ny, nz);
        lemma_plane_distinct(s, d, x, (ny - 1) as nat, nz);
        assert forall|i: int, j: int| 0 <= i < j < p.len() implies #[trigger] p[i] != #[trigger] p[j] by {
            if j < prev.len() {
                assert(p[i] == prev[i] && p[j] == prev[j]);
            } else if i >= prev.len() {
                lemma_differ_at(s, d, (x, ny - 1, i - prev.len()), (x, ny - 1, j - prev.len()));
            } else {
                lemma_plane_source(s, d, x, (ny - 1) as nat, nz, i);
                let t = choose|t: Cell| t.0 == x && 0 <= t.1 < ny - 1 && 0 <= t.2 < nz
                    && #[trigger] mask_of(translate(s, t), d) == prev[i];
                assert(p[i] == prev[i]);
                lemma_differ_at(s, d, t, (x, ny - 1, j - prev.len()));
            }
        }
    }
}

proof fn lemma_block_distinct(s: Seq<Cell>, d: Cell, nx: nat, ny: nat, nz: nat)
    requires
        grounded(s),
        dim_ok(d),
        nx <= room(d.0, high_corner(s).0),
        ny <= room(d.1, high_corner(s).1),
        nz <= room(d.2, high_corner(s).2),
    ensures
        forall|i: int, j: int| 0 <= i < j < block_x(s, d, nx, ny, nz).len()
            ==> #[trigger] block_x(s, d, nx, ny, nz)[i] != #[trigger] block_x(s, d, nx, ny, nz)[j],
    decreases nx,
{
    if nx > 0 {
        let prev = block_x(s, d, (nx - 1) as nat, ny, nz);
        let pl = plane_y(s, d, nx - 1, ny, nz);
        let b = block_x(s, d, nx, ny, nz);
        lemma_block_distinct(s, d, (nx - 1) as nat, ny, nz);
        lemma_plane_distinct(s, d, nx - 1, ny, nz);
        assert forall|i: int, j: int| 0 <= i < j < b.len() implies #[trigger] b[i] != #[trigger] b[j] by {
            if j < prev.len() {
                assert(b[i] == prev[i] && b[j] == prev[j]);
            } else if i >= prev.len() {
                assert(b[i] == pl[i - prev.len()] && b[j] == pl[j - prev.len()]);
            } else {
                lemma_block_source(s, d, (nx - 1) as nat, ny, nz, i);
                let t1 = choose|t: Cell| 0 <= t.0 < nx - 1 && 0 <= t.1 < ny && 0 <= t.2 < nz
                    && #[trigger] mask_of(translate(s, t), d) == prev[i];
                lemma_plane_source(s, d, nx - 1, ny, nz, j - prev.len());
                let t2 = choose|t: Cell| t.0 == nx - 1 && 0 <= t.1 < ny && 0 <= t.2 < nz
                    && #[trigger] mask_of(translate(s, t), d) == pl[j - prev.len()];
                assert(b[i] == prev[i] && b[j] == pl[j - prev.len()]);
                lemma_differ_at(s, d, t1, t2);
            }
        }
    }
}

/// The translations of one orientation that stay inside the volume are pairwise distinct
/// boards: entries at different positions of the list differ.
pub proof fn lemma_placements_distinct(s: Seq<Cell>, d: Cell)
    requires
        grounded(s),
        dim_ok(d),
    ensures
        forall|i: int, j: int| 0 <= i < j < placements_of(s, d).len()
            ==> #[trigger] placements_of(s, d)[i] != #[trigger] placements_of(s, d)[j],
{
    let h = high_corner(s);
    lemma_block_distinct(s, d, room(d.0, h.0), room(d.1, h.1), room(d.2, h.2));
}

} // verus!
