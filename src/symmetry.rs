use vstd::prelude::*;
use crate::geometry::{
    Cell, Coord, Orientation, axis, min_on, small, normalize, pow_x, pow_y, pow_z, rot_x, rot_y, rot_z, shift,
    translate, turn, turned,
};
use crate::puzzle::{Puzzle, candidates, faces, spin, stage};
use crate::bitset::{Bitset, Placement, bit};
use crate::placement::{dim_ok, fits_in, inside, mask_of};

verus! {

/// The quarter turn of `face` that brings a face to the front: none, about y once or three
/// times, or about z once, twice or three times.
pub open spec fn face_turn(face: int, c: Cell) -> Cell {
    if face == 0 {
        c
    } else if face == 1 {
        turn(c, 0, 1, 0)
    } else if face == 2 {
        turn(c, 0, 3, 0)
    } else if face == 3 {
        turn(c, 0, 0, 1)
    } else if face == 4 {
        turn(c, 0, 0, 2)
    } else {
        turn(c, 0, 0, 3)
    }
}

/// Rotation `k` of the 24, in the order in which a piece's orientations are listed.
pub open spec fn rotation(k: int, c: Cell) -> Cell {
    face_turn(k % 6, pow_x(c, (k / 6) as nat))
}

/// Which rotation results from following rotation `k` by a quarter turn about x, y or z.
#[verifier::opaque]
pub open spec fn after_x(k: int) -> int {
    seq![6, 9, 11, 8, 22, 7, 12, 15, 17, 14, 4, 13, 18, 21, 23, 20, 10, 19, 0, 3, 5, 2, 16, 1][k]
}

#[verifier::opaque]
pub open spec fn after_y(k: int) -> int {
    seq![1, 16, 0, 9, 14, 23, 7, 22, 6, 15, 20, 5, 13, 4, 12, 21, 2, 11, 19, 10, 18, 3, 8, 17][k]
}

#[verifier::opaque]
pub open spec fn after_z(k: int) -> int {
    seq![3, 19, 8, 4, 5, 0, 9, 1, 14, 10, 11, 6, 15, 7, 20, 16, 17, 12, 21, 13, 2, 22, 23, 18][k]
}

/// A quarter turn after any of the 24 rotations is again one of them.
pub proof fn lemma_quarter_turns(c: Cell)
    ensures
        forall|k: int| 0 <= k < 24 ==> rot_x(#[trigger] rotation(k, c)) == rotation(after_x(k), c)
            && rot_y(rotation(k, c)) == rotation(after_y(k), c) && rot_z(rotation(k, c)) == rotation(after_z(k), c),
        forall|k: int| 0 <= k < 24 ==> 0 <= #[trigger] after_x(k) < 24 && 0 <= after_y(k) < 24 && 0 <= after_z(k) < 24,
{
    reveal(after_x);
    reveal(after_y);
    reveal(after_z);
    reveal_with_fuel(pow_x, 4);
    reveal_with_fuel(pow_y, 4);
    reveal_with_fuel(pow_z, 4);
    assert(rot_x(rotation(0, c)) == rotation(6, c));
    assert(rot_y(rotation(0, c)) == rotation(1, c));
    assert(rot_z(rotation(0, c)) == rotation(3, c));
    assert(rot_x(rotation(1, c)) == rotation(9, c));
    assert(rot_y(rotation(1, c)) == rotation(16, c));
    assert(rot_z(rotation(1, c)) == rotation(19, c));
    assert(rot_x(rotation(2, c)) == rotation(11, c));
    assert(rot_y(rotation(2, c)) == rotation(0, c));
    assert(rot_z(rotation(2, c)) == rotation(8, c));
    assert(rot_x(rotation(3, c)) == rotation(8, c));
    assert(rot_y(rotation(3, c)) == rotation(9, c));
    assert(rot_z(rotation(3, c)) == rotation(4, c));
    assert(rot_x(rotation(4, c)) == rotation(22, c));
    assert(rot_y(rotation(4, c)) == rotation(14, c));
    assert(rot_z(rotation(4, c)) == rotation(5, c));
    assert(rot_x(rotation(5, c)) == rotation(7, c));
    assert(rot_y(rotation(5, c)) == rotation(23, c));
    assert(rot_z(rotation(5, c)) == rotation(0, c));
    assert(rot_x(rotation(6, c)) == rotation(12, c));
    assert(rot_y(rotation(6, c)) == rotation(7, c));
    assert(rot_z(rotation(6, c)) == rotation(9, c));
    assert(rot_x(rotation(7, c)) == rotation(15, c));
    assert(rot_y(rotation(7, c)) == rotation(22, c));
    assert(rot_z(rotation(7, c)) == rotation(1, c));
    assert(rot_x(rotation(8, c)) == rotation(17, c));
    assert(rot_y(rotation(8, c)) == rotation(6, c));
    assert(rot_z(rotation(8, c)) == rotation(14, c));
    assert(rot_x(rotation(9, c)) == rotation(14, c));
    assert(rot_y(rotation(9, c)) == rotation(15, c));
    assert(rot_z(rotation(9, c)) == rotation(10, c));
    assert(rot_x(rotation(10, c)) == rotation(4, c));
    assert(rot_y(rotation(10, c)) == rotation(20, c));
    assert(rot_z(rotation(10, c)) == rotation(11, c));
    assert(rot_x(rotation(11, c)) == rotation(13, c));
    assert(rot_y(rotation(11, c)) == rotation(5, c));
    assert(rot_z(rotation(11, c)) == rotation(6, c));
    assert(rot_x(rotation(12, c)) == rotation(18, c));
    assert(rot_y(rotation(12, c)) == rotation(13, c));
    assert(rot_z(rotation(12, c)) == rotation(15, c));
    assert(rot_x(rotation(13, c)) == rotation(21, c));
    assert(rot_y(rotation(13, c)) == rotation(4, c));
    assert(rot_z(rotation(13, c)) == rotation(7, c));
    assert(rot_x(rotation(14, c)) == rotation(23, c));
    assert(rot_y(rotation(14, c)) == rotation(12, c));
    assert(rot_z(rotation(14, c)) == rotation(20, c));
    assert(rot_x(rotation(15, c)) == rotation(20, c));
    assert(rot_y(rotation(15, c)) == rotation(21, c));
    assert(rot_z(rotation(15, c)) == rotation(16, c));
    assert(rot_x(rotation(16, c)) == rotation(10, c));
    assert(rot_y(rotation(16, c)) == rotation(2, c));
    assert(rot_z(rotation(16, c)) == rotation(17, c));
    assert(rot_x(rotation(17, c)) == rotation(19, c));
    assert(rot_y(rotation(17, c)) == rotation(11, c));
    assert(rot_z(rotation(17, c)) == rotation(12, c));
    assert(rot_x(rotation(18, c)) == rotation(0, c));
    assert(rot_y(rotation(18, c)) == rotation(19, c));
    assert(rot_z(rotation(18, c)) == rotation(21, c));
    assert(rot_x(rotation(19, c)) == rotation(3, c));
    assert(rot_y(rotation(19, c)) == rotation(10, c));
    assert(rot_z(rotation(19, c)) == rotation(13, c));
    assert(rot_x(rotation(20, c)) == rotation(5, c));
    assert(rot_y(rotation(20, c)) == rotation(18, c));
    assert(rot_z(rotation(20, c)) == rotation(2, c));
    assert(rot_x(rotation(21, c)) == rotation(2, c));
    assert(rot_y(rotation(21, c)) == rotation(3, c));
    assert(rot_z(rotation(21, c)) == rotation(22, c));
    assert(rot_x(rotation(22, c)) == rotation(16, c));
    assert(rot_y(rotation(22, c)) == rotation(8, c));
    assert(rot_z(rotation(22, c)) == rotation(23, c));
    assert(rot_x(rotation(23, c)) == rotation(1, c));
    assert(rot_y(rotation(23, c)) == rotation(17, c));
    assert(rot_z(rotation(23, c)) == rotation(18, c));
    assert forall|k: int| 0 <= k < 24 implies rot_x(#[trigger] rotation(k, c)) == rotation(after_x(k), c)
        && rot_y(rotation(k, c)) == rotation(after_y(k), c) && rot_z(rotation(k, c)) == rotation(after_z(k), c) by {
        assert(0 <= k < 24);
    }
}


proof fn lemma_quarter_turn_at(c: Cell, k: int)
    requires
        0 <= k < 24,
    ensures
        rot_x(rotation(k, c)) == rotation(after_x(k), c),
        rot_y(rotation(k, c)) == rotation(after_y(k), c),
        rot_z(rotation(k, c)) == rotation(after_z(k), c),
        0 <= after_x(k) < 24,
        0 <= after_y(k) < 24,
        0 <= after_z(k) < 24,
{
    lemma_quarter_turns(c);
}

pub open spec fn iter_x(k: int, n: nat) -> int
    decreases n,
{
    if n == 0 { k } else { after_x(iter_x(k, (n - 1) as nat)) }
}

pub open spec fn iter_y(k: int, n: nat) -> int
    decreases n,
{
    if n == 0 { k } else { after_y(iter_y(k, (n - 1) as nat)) }
}

pub open spec fn iter_z(k: int, n: nat) -> int
    decreases n,
{
    if n == 0 { k } else { after_z(iter_z(k, (n - 1) as nat)) }
}

/// Which rotation results from following rotation `k` by rotation `r`.
pub open spec fn compose(r: int, k: int) -> int {
    let k1 = iter_x(k, (r / 6) as nat);
    let f = r % 6;
    if f == 0 {
        k1
    } else if f == 1 {
        iter_y(k1, 1)
    } else if f == 2 {
        iter_y(k1, 3)
    } else if f == 3 {
        iter_z(k1, 1)
    } else if f == 4 {
        iter_z(k1, 2)
    } else {
        iter_z(k1, 3)
    }
}

/// Every cell of the shape under rotation `k`.
pub open spec fn rotated(s: Seq<Cell>, k: int) -> Seq<Cell> {
    s.map_values(|c: Cell| rotation(k, c))
}

proof fn lemma_iter_x(c: Cell, k: int, n: nat)
    requires
        0 <= k < 24,
    ensures
        pow_x(rotation(k, c), n) == rotation(iter_x(k, n), c),
        0 <= iter_x(k, n) < 24,
    decreases n,
{
    if n > 0 {
        lemma_iter_x(c, k, (n - 1) as nat);
        let k0 = iter_x(k, (n - 1) as nat);
        lemma_quarter_turn_at(c, k0);
    }
}

proof fn lemma_iter_y(c: Cell, k: int, n: nat)
    requires
        0 <= k < 24,
    ensures
        pow_y(rotation(k, c), n) == rotation(iter_y(k, n), c),
        0 <= iter_y(k, n) < 24,
    decreases n,
{
    if n > 0 {
        lemma_iter_y(c, k, (n - 1) as nat);
        let k0 = iter_y(k, (n - 1) as nat);
        lemma_quarter_turn_at(c, k0);
    }
}

proof fn lemma_iter_z(c: Cell, k: int, n: nat)
    requires
        0 <= k < 24,
    ensures
        pow_z(rotation(k, c), n) == rotation(iter_z(k, n), c),
        0 <= iter_z(k, n) < 24,
    decreases n,
{
    if n > 0 {
        lemma_iter_z(c, k, (n - 1) as nat);
        let k0 = iter_z(k, (n - 1) as nat);
        lemma_quarter_turn_at(c, k0);
    }
}

/// Any two of the 24 rotations compose to one of them.
pub proof fn lemma_compose(c: Cell, r: int, k: int)
    requires
        0 <= r < 24,
        0 <= k < 24,
    ensures
        rotation(r, rotation(k, c)) == rotation(compose(r, k), c),
        0 <= compose(r, k) < 24,
{
    let i = (r / 6) as nat;
    lemma_iter_x(c, k, i);
    let k1 = iter_x(k, i);
    lemma_iter_y(c, k1, 1);
    lemma_iter_y(c, k1, 3);
    lemma_iter_z(c, k1, 1);
    lemma_iter_z(c, k1, 2);
    lemma_iter_z(c, k1, 3);
}

proof fn lemma_pow_x_shift(c: Cell, t: Cell, n: nat)
    ensures
        pow_x(shift(c, t), n) == shift(pow_x(c, n), pow_x(t, n)),
    decreases n,
{
    if n > 0 {
        lemma_pow_x_shift(c, t, (n - 1) as nat);
    }
}

proof fn lemma_pow_y_shift(c: Cell, t: Cell, n: nat)
    ensures
        pow_y(shift(c, t), n) == shift(pow_y(c, n), pow_y(t, n)),
    decreases n,
{
    if n > 0 {
        lemma_pow_y_shift(c, t, (n - 1) as nat);
    }
}

proof fn lemma_pow_z_shift(c: Cell, t: Cell, n: nat)
    ensures
        pow_z(shift(c, t), n) == shift(pow_z(c, n), pow_z(t, n)),
    decreases n,
{
    if n > 0 {
        lemma_pow_z_shift(c, t, (n - 1) as nat);
    }
}

/// Rotations are linear: they carry a shifted cell to the shifted rotated cell.
proof fn lemma_rotation_shift(c: Cell, t: Cell, k: int)
    ensures
        rotation(k, shift(c, t)) == shift(rotation(k, c), rotation(k, t)),
{
    let i = (k / 6) as nat;
    lemma_pow_x_shift(c, t, i);
    let a = pow_x(c, i);
    let b = pow_x(t, i);
    lemma_pow_y_shift(a, b, 1);
    lemma_pow_y_shift(a, b, 3);
    lemma_pow_z_shift(a, b, 1);
    lemma_pow_z_shift(a, b, 2);
    lemma_pow_z_shift(a, b, 3);
}

proof fn lemma_min_translate(s: Seq<Cell>, t: Cell, a: int)
    requires
        s.len() > 0,
    ensures
        min_on(translate(s, t), a) == min_on(s, a) + axis(t, a),
    decreases s.len(),
{
    let u = translate(s, t);
    if s.len() > 1 {
        lemma_min_translate(s.drop_last(), t, a);
        assert(u.drop_last() =~= translate(s.drop_last(), t));
    }
}

/// Normalizing forgets a translation.
proof fn lemma_normalize_translate(s: Seq<Cell>, t: Cell)
    requires
        s.len() > 0,
    ensures
        normalize(translate(s, t)) == normalize(s),
{
    lemma_min_translate(s, t, 0);
    lemma_min_translate(s, t, 1);
    lemma_min_translate(s, t, 2);
    assert(normalize(translate(s, t)) =~= normalize(s));
}

/// Rotating a normalized shape and normalizing again is rotating and normalizing once.
proof fn lemma_normalize_rotated(s: Seq<Cell>, k: int)
    requires
        s.len() > 0,
    ensures
        normalize(rotated(normalize(s), k)) == normalize(rotated(s, k)),
{
    let t = (-min_on(s, 0), -min_on(s, 1), -min_on(s, 2));
    let u = rotated(normalize(s), k);
    assert forall|i: int| 0 <= i < s.len() implies #[trigger] u[i] == shift(rotated(s, k)[i], rotation(k, t)) by {
        lemma_rotation_shift(s[i], t, k);
    }
    assert(u =~= translate(rotated(s, k), rotation(k, t)));
    lemma_normalize_translate(rotated(s, k), rotation(k, t));
}

/// Orientation `k` of the list is the base under rotation `k`, normalized.
proof fn lemma_candidate_is_rotation(b: Seq<Cell>, k: int)
    requires
        b.len() > 0,
        0 <= k < 24,
    ensures
        candidates(b)[k] == normalize(rotated(b, k)),
{
    let i = k / 6;
    let f = k % 6;
    lemma_stage_is_rotation(b, i as nat);
    let st = stage(b, i as nat);
    assert(candidates(b)[k] == faces(st)[f]);
    if f == 0 {
        assert(rotated(b, k) =~= rotated(b, 6 * i));
    } else {
        let g = if f == 1 { (0nat, 1nat, 0nat) } else if f == 2 { (0nat, 3nat, 0nat) } else if f == 3 { (0nat, 0nat, 1nat) } else if f == 4 { (0nat, 0nat, 2nat) } else { (0nat, 0nat, 3nat) };
        assert(faces(st)[f] == spin(st, g.0, g.1, g.2));
        assert(turned(st, g.0, g.1, g.2) =~= rotated(st, f));
        lemma_normalize_rotated(rotated(b, 6 * i), f);
        assert(rotated(rotated(b, 6 * i), f) =~= rotated(b, k));
    }
}

proof fn lemma_stage_is_rotation(b: Seq<Cell>, i: nat)
    requires
        b.len() > 0,
        i < 4,
    ensures
        stage(b, i) == normalize(rotated(b, 6 * i as int)),
    decreases i,
{
    if i == 0 {
        assert(rotated(b, 0) =~= b);
    } else {
        lemma_stage_is_rotation(b, (i - 1) as nat);
        let prev = rotated(b, 6 * (i - 1));
        assert(turned(stage(b, (i - 1) as nat), 1, 0, 0) =~= rotated(stage(b, (i - 1) as nat), 6));
        lemma_normalize_rotated(prev, 6);
        assert((6 * (i - 1)) % 6 == 0 && (6 * (i - 1)) / 6 == i - 1 && (6 * i) % 6 == 0 && (6 * i) / 6 == i) by (nonlinear_arith)
            requires
                1 <= i < 4,
        ;
        assert forall|j: int| 0 <= j < b.len() implies #[trigger] rotated(prev, 6)[j] == rotated(b, 6 * i as int)[j] by {
            reveal_with_fuel(pow_x, 2);
            assert(pow_x(pow_x(b[j], (i - 1) as nat), 1) == pow_x(b[j], i));
        }
        assert(rotated(prev, 6) =~= rotated(b, 6 * i as int));
    }
}

/// Closure: turning any listed orientation of a piece by any of the 24 rotations and
/// normalizing gives, cell for cell, an orientation already in the list (so also the same
/// mask in any frame).
pub proof fn lemma_orientation_closure(b: Seq<Cell>, k: int, r: int)
    requires
        b.len() > 0,
        0 <= k < 24,
        0 <= r < 24,
    ensures
        exists|j: int| 0 <= j < 24 && #[trigger] candidates(b)[j] == normalize(rotated(candidates(b)[k], r)),
{
    lemma_candidate_is_rotation(b, k);
    let j = compose(r, k);
    assert forall|i: int| 0 <= i < b.len() implies #[trigger] rotated(rotated(b, k), r)[i] == rotated(b, j)[i] by {
        lemma_compose(b[i], r, k);
    }
    assert(rotated(rotated(b, k), r) =~= rotated(b, j));
    lemma_normalize_rotated(rotated(b, k), r);
    lemma_compose(b[0], r, k);
    lemma_candidate_is_rotation(b, j);
}


/// The cell of linear index `j` in a cube of side `d`.
pub open spec fn cell_at(j: int, d: int) -> Cell {
    (j % d, (j / d) % d, j / (d * d))
}

/// The cells of the first `n` indices of a cube of side `d` that are set in `w`, in index order.
pub open spec fn listed(w: u64, d: int, n: nat) -> Seq<Cell>
    decreases n,
{
    if n == 0 {
        Seq::empty()
    } else {
        let s = listed(w, d, (n - 1) as nat);
        if bit(w, n - 1) { s.push(cell_at(n - 1, d)) } else { s }
    }
}

/// The shift that brings the cube of side `d` back onto itself after rotation `k`.
pub open spec fn back_shift(k: int, d: int) -> Cell {
    let r = rotation(k, (d - 1, d - 1, d - 1));
    (if r.0 < 0 { d - 1 } else { 0 }, if r.1 < 0 { d - 1 } else { 0 }, if r.2 < 0 { d - 1 } else { 0 })
}

/// The cells of `w` carried by rotation `k` of the cube of side `d`.
pub open spec fn carried(w: u64, k: int, d: int) -> Seq<Cell> {
    listed(w, d, (d * d * d) as nat).map_values(|c: Cell| shift(rotation(k, c), back_shift(k, d)))
}

/// The image of board `w` under rotation `k` of the cube of side `d`, when it stays in the cube.
pub open spec fn cube_image(w: u64, k: int, d: int) -> Option<u64> {
    if fits_in(carried(w, k, d), (d, d, d)) {
        Some(mask_of(carried(w, k, d), (d, d, d)))
    } else {
        None
    }
}

/// No rotation of the cube carries `w` to a smaller board.
pub open spec fn least_in_orbit(w: u64, d: int) -> bool {
    forall|k: int| 0 <= k < 24 ==> (#[trigger] cube_image(w, k, d) matches Some(v) ==> w <= v)
}

/// The boards of `s` that are least in their orbit, in order.
pub open spec fn canonical_among(s: Seq<Bitset>, d: int) -> Seq<Bitset>
    decreases s.len(),
{
    if s.len() == 0 {
        Seq::empty()
    } else {
        let r = canonical_among(s.drop_last(), d);
        if least_in_orbit(s.last().0, d) { r.push(s.last()) } else { r }
    }
}

impl Coord {
    /// Applies rotation `k` of the 24.
    pub fn rotate_by(&mut self, k: usize)
        requires
            k < 24,
            small(old(self).view()),
        ensures
            final(self).view() == rotation(k as int, old(self).view()),
            small(final(self).view()),
    {
        let f = k % 6;
        let (y, z): (usize, usize) = if f == 0 {
            (0, 0)
        } else if f == 1 {
            (1, 0)
        } else if f == 2 {
            (3, 0)
        } else if f == 3 {
            (0, 1)
        } else if f == 4 {
            (0, 2)
        } else {
            (0, 3)
        };
        self.turn(k / 6, y, z);
    }
}

/// The image of `w` under rotation `k` of the cube of side `side`; `None` when a cell would
/// leave the cube.
pub fn image_in_cube(w: Bitset, k: usize, side: i64) -> (r: Option<Bitset>)
    requires
        k < 24,
        1 <= side <= 4,
    ensures
        r matches Some(b) ==> cube_image(w.0, k as int, side as int) == Some(b.0),
        r is None ==> cube_image(w.0, k as int, side as int) is None,
{
    let ghost d = side as int;
    assert(1 <= side * side <= 16 && side * side * side <= 64 && side * side * side == d * d * d) by (nonlinear_arith)
        requires
            1 <= side <= 4,
            d == side,
    ;
    let sq = side * side;
    let n = (sq * side) as usize;
    let mut corner = Coord { x: side - 1, y: side - 1, z: side - 1 };
    corner.rotate_by(k);
    let t = Coord {
        x: if corner.x < 0 { side - 1 } else { 0 },
        y: if corner.y < 0 { side - 1 } else { 0 },
        z: if corner.z < 0 { side - 1 } else { 0 },
    };
    assert(t.view() == back_shift(k as int, d));
    let mut cells: Vec<Coord> = Vec::new();
    let mut j: usize = 0;
    while j < n
        invariant
            j <= n,
            n == d * d * d,
            sq == side * side,
            1 <= sq <= 16,
            n <= 64,
            1 <= d <= 4,
            d == side,
            k < 24,
            t.view() == back_shift(k as int, d),
            cells@.map_values(|c: Coord| c.view()) == listed(w.0, d, j as nat).map_values(|c: Cell| shift(rotation(k as int, c), t.view())),
        decreases n - j,
    {
        let ghost before = cells@.map_values(|c: Coord| c.view());
        if w.get(j) {
            let js = j as i64;
            let mut c = Coord { x: js % side, y: (js / side) % side, z: js / sq };
            assert(0 <= js / sq <= js / side <= js <= 64) by (nonlinear_arith)
                requires
                    0 <= js <= 64,
                    1 <= side,
                    sq == side * side,
            ;
            assert(c.view() == cell_at(j as int, d));
            c.rotate_by(k);
            let moved = Coord { x: c.x + t.x, y: c.y + t.y, z: c.z + t.z };
            cells.push(moved);
            assert(cells@.map_values(|c: Coord| c.view()) =~= before.push(moved.view()));
            assert(listed(w.0, d, (j + 1) as nat).map_values(|c: Cell| shift(rotation(k as int, c), t.view())) =~= listed(w.0, d, j as nat).map_values(|c: Cell| shift(rotation(k as int, c), t.view())).push(moved.view()));
        } else {
            assert(listed(w.0, d, (j + 1) as nat) == listed(w.0, d, j as nat));
        }
        j = j + 1;
    }
    let o = Orientation(cells);
    assert(o.view() =~= carried(w.0, k as int, d));
    let dim = Coord { x: side, y: side, z: side };
    let mut i: usize = 0;
    while i < o.0.len()
        invariant
            i <= o.0.len(),
            dim.view() == (d, d, d),
            d == side,
            1 <= d <= 4,
            k < 24,
            o.view() == carried(w.0, k as int, d),
            forall|q: int| 0 <= q < i ==> inside(#[trigger] o.view()[q], dim.view()),
        decreases o.0.len() - i,
    {
        let c = o.0[i];
        assert(o.view()[i as int] == c.view());
        if !(0 <= c.x && c.x < side && 0 <= c.y && c.y < side && 0 <= c.z && c.z < side) {
            assert(!inside(o.view()[i as int], dim.view()));
            return None;
        }
        i = i + 1;
    }
    assert(dim_ok(dim.view())) by (nonlinear_arith)
        requires
            1 <= d <= 4,
            dim.view() == (d, d, d),
    ;
    Some(Bitset::from_orientation(&o, &dim))
}


impl Puzzle {
    /// The placements of piece `cid` that no rotation of the cubic volume carries to a smaller
    /// board: one start for each class of placements that the volume's symmetry identifies.
    pub fn canonical_seeds(&self, cid: usize) -> (r: Vec<Placement>)
        requires
            cid < self.pieces@.len(),
            1 <= self.dim.x <= 4,
            self.dim.y == self.dim.x,
            self.dim.z == self.dim.x,
        ensures
            r@ == canonical_among(self.pieces@[cid as int].placements@, self.dim.x as int),
    {
        let side = self.dim.x;
        let ghost d = side as int;
        let pl = &self.pieces[cid].placements;
        let mut seeds: Vec<Placement> = Vec::new();
        let mut i: usize = 0;
        assert(pl@.take(0) =~= Seq::<Bitset>::empty());
        while i < pl.len()
            invariant
                i <= pl.len(),
                1 <= side <= 4,
                d == side,
                seeds@ == canonical_among(pl@.take(i as int), d),
            decreases pl.len() - i,
        {
            let p = pl[i];
            let mut least = true;
            let mut k: usize = 0;
            while k < 24
                invariant
                    k <= 24,
                    1 <= side <= 4,
                    d == side,
                    least <==> forall|q: int| 0 <= q < k ==> (#[trigger] cube_image(p.0, q, d) matches Some(v) ==> p.0 <= v),
                decreases 24 - k,
            {
                match image_in_cube(p, k, side) {
                    Some(v) => {
                        if v.0 < p.0 {
                            least = false;
                        }
                    },
                    None => {},
                }
                k = k + 1;
            }
            assert(pl@.take(i + 1).drop_last() =~= pl@.take(i as int));
            assert(pl@.take(i + 1).last() == p);
            if least {
                seeds.push(p);
            }
            i = i + 1;
        }
        assert(pl@.take(i as int) =~= pl@);
        seeds
    }
}

} // verus!
