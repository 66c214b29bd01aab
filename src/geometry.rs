use vstd::prelude::*;

verus! {

/// Largest coordinate magnitude, and largest extent along an axis, that a shape may have.
pub const SPAN: i64 = 1048576;

/// A cell as a triple of integers.
pub type Cell = (int, int, int);

/// Integer 3D coordinate.
#[derive(Clone, Copy, Debug, PartialEq, Eq, Structural)]
pub struct Coord {
    pub x: i64,
    pub y: i64,
    pub z: i64,
}

/// Quarter turn about the x axis: (x, y, z) to (x, -z, y).
pub open spec fn rot_x(c: Cell) -> Cell {
    (c.0, -c.2, c.1)
}

/// Quarter turn about the y axis: (x, y, z) to (z, y, -x).
pub open spec fn rot_y(c: Cell) -> Cell {
    (c.2, c.1, -c.0)
}

/// Quarter turn about the z axis: (x, y, z) to (-y, x, z).
pub open spec fn rot_z(c: Cell) -> Cell {
    (-c.1, c.0, c.2)
}

pub open spec fn pow_x(c: Cell, n: nat) -> Cell
    decreases n,
{
    if n == 0 { c } else { rot_x(pow_x(c, (n - 1) as nat)) }
}

pub open spec fn pow_y(c: Cell, n: nat) -> Cell
    decreases n,
{
    if n == 0 { c } else { rot_y(pow_y(c, (n - 1) as nat)) }
}

pub open spec fn pow_z(c: Cell, n: nat) -> Cell
    decreases n,
{
    if n == 0 { c } else { rot_z(pow_z(c, (n - 1) as nat)) }
}

/// `x` turns about the x axis, then `y` about the y axis, then `z` about the z axis.
pub open spec fn turn(c: Cell, x: nat, y: nat, z: nat) -> Cell {
    pow_z(pow_y(pow_x(c, x), y), z)
}

pub open spec fn small(c: Cell) -> bool {
    -SPAN <= c.0 <= SPAN && -SPAN <= c.1 <= SPAN && -SPAN <= c.2 <= SPAN
}

pub open spec fn close(a: Cell, b: Cell) -> bool {
    -SPAN <= a.0 - b.0 <= SPAN && -SPAN <= a.1 - b.1 <= SPAN && -SPAN <= a.2 - b.2 <= SPAN
}

pub open spec fn grounded_cell(c: Cell) -> bool {
    0 <= c.0 <= SPAN && 0 <= c.1 <= SPAN && 0 <= c.2 <= SPAN
}

/// A nonempty shape whose coordinates and extents stay within `SPAN`.
pub open spec fn shape_ok(s: Seq<Cell>) -> bool {
    &&& s.len() > 0
    &&& forall|i: int| 0 <= i < s.len() ==> small(#[trigger] s[i])
    &&& forall|i: int, j: int| 0 <= i < s.len() && 0 <= j < s.len() ==> close(#[trigger] s[i], #[trigger] s[j])
}

/// A nonempty shape in the nonnegative octant, within `SPAN` of the origin.
pub open spec fn grounded(s: Seq<Cell>) -> bool {
    &&& s.len() > 0
    &&& forall|i: int| 0 <= i < s.len() ==> grounded_cell(#[trigger] s[i])
}

pub open spec fn axis(c: Cell, a: int) -> int {
    if a == 0 { c.0 } else if a == 1 { c.1 } else { c.2 }
}

/// Least coordinate of a shape along axis `a`.
pub open spec fn min_on(s: Seq<Cell>, a: int) -> int
    decreases s.len(),
{
    if s.len() <= 1 {
        axis(s[0], a)
    } else {
        let m = min_on(s.drop_last(), a);
        let v = axis(s.last(), a);
        if v < m { v } else { m }
    }
}

/// Greatest coordinate of a shape along axis `a`.
pub open spec fn max_on(s: Seq<Cell>, a: int) -> int
    decreases s.len(),
{
    if s.len() <= 1 {
        axis(s[0], a)
    } else {
        let m = max_on(s.drop_last(), a);
        let v = axis(s.last(), a);
        if v > m { v } else { m }
    }
}

pub open spec fn shift(c: Cell, t: Cell) -> Cell {
    (c.0 + t.0, c.1 + t.1, c.2 + t.2)
}

pub open spec fn translate(s: Seq<Cell>, t: Cell) -> Seq<Cell> {
    s.map_values(|c: Cell| shift(c, t))
}

/// The per-axis least corner of a shape.
pub open spec fn low_corner(s: Seq<Cell>) -> Cell {
    (min_on(s, 0), min_on(s, 1), min_on(s, 2))
}

/// The per-axis greatest corner of a shape.
pub open spec fn high_corner(s: Seq<Cell>) -> Cell {
    (max_on(s, 0), max_on(s, 1), max_on(s, 2))
}

/// The shape moved so that its least coordinate on each axis is zero.
pub open spec fn normalize(s: Seq<Cell>) -> Seq<Cell> {
    translate(s, (-min_on(s, 0), -min_on(s, 1), -min_on(s, 2)))
}

/// The shape with every cell turned.
pub open spec fn turned(s: Seq<Cell>, x: nat, y: nat, z: nat) -> Seq<Cell> {
    s.map_values(|c: Cell| turn(c, x, y, z))
}

pub proof fn lemma_min_max(s: Seq<Cell>, a: int)
    requires
        s.len() > 0,
    ensures
        forall|i: int| 0 <= i < s.len() ==> min_on(s, a) <= #[trigger] axis(s[i], a) <= max_on(s, a),
        exists|i: int| 0 <= i < s.len() && axis(s[i], a) == min_on(s, a),
        exists|i: int| 0 <= i < s.len() && axis(s[i], a) == max_on(s, a),
    decreases s.len(),
{
    if s.len() > 1 {
        let t = s.drop_last();
        lemma_min_max(t, a);
        assert forall|i: int| 0 <= i < s.len() implies min_on(s, a) <= #[trigger] axis(s[i], a) <= max_on(s, a) by {
            if i < s.len() - 1 {
                assert(s[i] == t[i]);
            }
        }
        let i1 = choose|i: int| 0 <= i < t.len() && axis(t[i], a) == min_on(t, a);
        let i2 = choose|i: int| 0 <= i < t.len() && axis(t[i], a) == max_on(t, a);
        assert(s[i1] == t[i1]);
        assert(s[i2] == t[i2]);
        assert(axis(s[s.len() - 1], a) == axis(s.last(), a));
    } else {
        assert(axis(s[0], a) == min_on(s, a));
        assert(axis(s[0], a) == max_on(s, a));
    }
}

/// A normalized well-formed shape lies in the nonnegative octant within `SPAN`.
pub proof fn lemma_normalize_grounded(s: Seq<Cell>)
    requires
        shape_ok(s),
    ensures
        grounded(normalize(s)),
        normalize(s).len() == s.len(),
{
    lemma_min_max(s, 0);
    lemma_min_max(s, 1);
    lemma_min_max(s, 2);
    let n = normalize(s);
    assert forall|i: int| 0 <= i < n.len() implies grounded_cell(#[trigger] n[i]) by {
        let i0 = choose|k: int| 0 <= k < s.len() && axis(s[k], 0) == min_on(s, 0);
        let i1 = choose|k: int| 0 <= k < s.len() && axis(s[k], 1) == min_on(s, 1);
        let i2 = choose|k: int| 0 <= k < s.len() && axis(s[k], 2) == min_on(s, 2);
        assert(close(s[i], s[i0]));
        assert(close(s[i], s[i1]));
        assert(close(s[i], s[i2]));
        assert(axis(s[i], 0) >= min_on(s, 0));
        assert(axis(s[i], 1) >= min_on(s, 1));
        assert(axis(s[i], 2) >= min_on(s, 2));
    }
}

/// Turning keeps cells small and pairs close.
pub proof fn lemma_turn_pair(a: Cell, b: Cell, x: nat, y: nat, z: nat)
    requires
        small(a),
        small(b),
        close(a, b),
    ensures
        small(turn(a, x, y, z)),
        close(turn(a, x, y, z), turn(b, x, y, z)),
{
    lemma_pow_x_pair(a, b, x);
    lemma_pow_y_pair(pow_x(a, x), pow_x(b, x), y);
    lemma_pow_z_pair(pow_y(pow_x(a, x), y), pow_y(pow_x(b, x), y), z);
}

proof fn lemma_pow_x_pair(a: Cell, b: Cell, n: nat)
    requires
        small(a),
        small(b),
        close(a, b),
    ensures
        small(pow_x(a, n)),
        small(pow_x(b, n)),
        close(pow_x(a, n), pow_x(b, n)),
    decreases n,
{
    if n > 0 {
        lemma_pow_x_pair(a, b, (n - 1) as nat);
    }
}

proof fn lemma_pow_y_pair(a: Cell, b: Cell, n: nat)
    requires
        small(a),
        small(b),
        close(a, b),
    ensures
        small(pow_y(a, n)),
        small(pow_y(b, n)),
        close(pow_y(a, n), pow_y(b, n)),
    decreases n,
{
    if n > 0 {
        lemma_pow_y_pair(a, b, (n - 1) as nat);
    }
}

proof fn lemma_pow_z_pair(a: Cell, b: Cell, n: nat)
    requires
        small(a),
        small(b),
        close(a, b),
    ensures
        small(pow_z(a, n)),
        small(pow_z(b, n)),
        close(pow_z(a, n), pow_z(b, n)),
    decreases n,
{
    if n > 0 {
        lemma_pow_z_pair(a, b, (n - 1) as nat);
    }
}

/// A turned well-formed shape is well formed.
pub proof fn lemma_turned_ok(s: Seq<Cell>, x: nat, y: nat, z: nat)
    requires
        shape_ok(s),
    ensures
        shape_ok(turned(s, x, y, z)),
{
    let t = turned(s, x, y, z);
    assert forall|i: int, j: int| 0 <= i < t.len() && 0 <= j < t.len() implies small(#[trigger] t[i]) && close(t[i], #[trigger] t[j]) by {
        assert(small(s[i]) && small(s[j]) && close(s[i], s[j]));
        lemma_turn_pair(s[i], s[j], x, y, z);
    }
    assert forall|i: int| 0 <= i < t.len() implies small(#[trigger] t[i]) by {
        assert(small(t[i]) && close(t[i], t[i]));
    }
}

/// A grounded shape is well formed.
pub proof fn lemma_grounded_ok(s: Seq<Cell>)
    requires
        grounded(s),
    ensures
        shape_ok(s),
{
    assert forall|i: int, j: int| 0 <= i < s.len() && 0 <= j < s.len() implies close(#[trigger] s[i], #[trigger] s[j]) by {
        assert(grounded_cell(s[i]) && grounded_cell(s[j]));
    }
    assert forall|i: int| 0 <= i < s.len() implies small(#[trigger] s[i]) by {
        assert(grounded_cell(s[i]));
    }
}

pub open spec fn is_digit(c: u8) -> bool {
    48 <= c <= 57
}

/// A shape descriptor: three-digit codes `xyz` separated by `-`.
pub open spec fn valid_codes(b: Seq<u8>) -> bool {
    &&& b.len() % 4 == 3
    &&& forall|i: int| 0 <= i < b.len() ==> if i % 4 == 3 { b[i] == 45 } else { is_digit(#[trigger] b[i]) }
}

/// The cells that a valid shape descriptor lists.
pub open spec fn decode_codes(b: Seq<u8>) -> Seq<Cell> {
    Seq::new(((b.len() + 1) / 4) as nat, |k: int| (b[4 * k] - 48, b[4 * k + 1] - 48, b[4 * k + 2] - 48))
}

impl Coord {
    /// Reads a shape descriptor; `None` when it is not a `-`-separated list of three-digit codes.
    pub fn parse_list(s: &[u8]) -> (r: Option<Vec<Coord>>)
        ensures
            r is Some <==> valid_codes(s@),
            r matches Some(v) ==> v@.map_values(|c: Coord| c.view()) == decode_codes(s@),
    {
        if s.len() % 4 != 3 {
            return None;
        }
        let mut coords: Vec<Coord> = Vec::new();
        let mut i: usize = 0;
        while i < s.len()
            invariant
                s@.len() % 4 == 3,
                i % 4 == 0 || i == s.len(),
                i <= s.len(),
                i < s.len() ==> coords@.len() == i / 4,
                i == s.len() ==> coords@.len() == (i + 1) / 4,
                forall|j: int| 0 <= j < i && j < s@.len() ==> if j % 4 == 3 { s@[j] == 45 } else { is_digit(#[trigger] s@[j]) },
                forall|k: int| 0 <= k < coords@.len() ==> (#[trigger] coords@[k]).view() == (s@[4 * k] - 48, s@[4 * k + 1] - 48, s@[4 * k + 2] - 48),
            decreases s.len() - i,
        {
            let a = s[i];
            let b = s[i + 1];
            let c = s[i + 2];
            if !(48 <= a && a <= 57 && 48 <= b && b <= 57 && 48 <= c && c <= 57) {
                assert(!is_digit(s@[i as int]) || !is_digit(s@[i + 1]) || !is_digit(s@[i + 2]));
                return None;
            }
            if i + 3 < s.len() && s[i + 3] != 45 {
                assert((i + 3) % 4 == 3);
                return None;
            }
            coords.push(Coord { x: (a - 48) as i64, y: (b - 48) as i64, z: (c - 48) as i64 });
            if i + 3 == s.len() {
                i = i + 3;
            } else {
                i = i + 4;
            }
        }
        let ghost v = coords@.map_values(|c: Coord| c.view());
        assert(v =~= decode_codes(s@));
        Some(coords)
    }

    pub open spec fn view(self) -> Cell {
        (self.x as int, self.y as int, self.z as int)
    }

    pub fn new(x: usize, y: usize, z: usize) -> (r: Coord)
        requires
            x <= i64::MAX,
            y <= i64::MAX,
            z <= i64::MAX,
        ensures
            r.view() == (x as int, y as int, z as int),
    {
        Coord { x: x as i64, y: y as i64, z: z as i64 }
    }

    pub fn rotate_x(&mut self)
        requires
            old(self).z != i64::MIN,
        ensures
            final(self).view() == rot_x(old(self).view()),
    {
        let new_x = self.x;
        let new_y = -self.z;
        let new_z = self.y;
        self.x = new_x;
        self.y = new_y;
        self.z = new_z;
    }

    pub fn rotate_y(&mut self)
        requires
            old(self).x != i64::MIN,
        ensures
            final(self).view() == rot_y(old(self).view()),
    {
        let new_x = self.z;
        let new_y = self.y;
        let new_z = -self.x;
        self.x = new_x;
        self.y = new_y;
        self.z = new_z;
    }

    pub fn rotate_z(&mut self)
        requires
            old(self).y != i64::MIN,
        ensures
            final(self).view() == rot_z(old(self).view()),
    {
        let new_x = -self.y;
        let new_y = self.x;
        let new_z = self.z;
        self.x = new_x;
        self.y = new_y;
        self.z = new_z;
    }

    /// Applies `x` turns about the x axis, then `y` about y, then `z` about z.
    pub fn turn(&mut self, x: usize, y: usize, z: usize)
        requires
            small(old(self).view()),
        ensures
            final(self).view() == turn(old(self).view(), x as nat, y as nat, z as nat),
            small(final(self).view()),
    {
        let ghost c0 = self.view();
        proof {
            lemma_turn_pair(c0, c0, x as nat, 0, 0);
        }
        let mut i: usize = 0;
        while i < x
            invariant
                i <= x,
                self.view() == pow_x(c0, i as nat),
                small(self.view()),
            decreases x - i,
        {
            self.rotate_x();
            i = i + 1;
        }
        let ghost c1 = self.view();
        let mut i: usize = 0;
        while i < y
            invariant
                i <= y,
                c1 == pow_x(c0, x as nat),
                small(c1),
                self.view() == pow_y(c1, i as nat),
                small(self.view()),
            decreases y - i,
        {
            self.rotate_y();
            i = i + 1;
        }
        let ghost c2 = self.view();
        let mut i: usize = 0;
        while i < z
            invariant
                i <= z,
                c2 == pow_y(c1, y as nat),
                c1 == pow_x(c0, x as nat),
                self.view() == pow_z(c2, i as nat),
                small(self.view()),
            decreases z - i,
        {
            self.rotate_z();
            i = i + 1;
        }
    }
}


/// One rotation of a piece: an ordered list of cells.
#[derive(Clone, Debug)]
pub struct Orientation(pub Vec<Coord>);

impl Orientation {
    pub open spec fn view(self) -> Seq<Cell> {
        self.0@.map_values(|c: Coord| c.view())
    }

    /// A copy of the shape.
    pub fn duplicate(&self) -> (r: Orientation)
        ensures
            r.view() == self.view(),
    {
        let mut blocks: Vec<Coord> = Vec::new();
        let mut i: usize = 0;
        while i < self.0.len()
            invariant
                i <= self.0.len(),
                blocks@ == self.0@.take(i as int),
            decreases self.0.len() - i,
        {
            blocks.push(self.0[i]);
            assert(self.0@.take(i + 1) =~= self.0@.take(i as int).push(self.0@[i as int]));
            i = i + 1;
        }
        assert(self.0@.take(i as int) =~= self.0@);
        Orientation(blocks)
    }

    /// The per-axis least coordinates.
    pub fn offset(&self) -> (r: Coord)
        requires
            self.view().len() > 0,
        ensures
            r.view() == low_corner(self.view()),
    {
        let ghost s = self.view();
        let mut m = self.0[0];
        assert(s.take(1).drop_last() =~= s.take(0));
        let mut i: usize = 1;
        while i < self.0.len()
            invariant
                1 <= i <= self.0.len(),
                s == self.view(),
                m.view() == low_corner(s.take(i as int)),
            decreases self.0.len() - i,
        {
            let c = self.0[i];
            assert(s.take(i + 1).drop_last() =~= s.take(i as int));
            assert(s.take(i + 1).last() == c.view());
            if c.x < m.x {
                m.x = c.x;
            }
            if c.y < m.y {
                m.y = c.y;
            }
            if c.z < m.z {
                m.z = c.z;
            }
            i = i + 1;
        }
        assert(s.take(i as int) =~= s);
        m
    }

    /// The per-axis greatest coordinates.
    pub fn bounds(&self) -> (r: Coord)
        requires
            self.view().len() > 0,
        ensures
            r.view() == high_corner(self.view()),
    {
        let ghost s = self.view();
        let mut m = self.0[0];
        let mut i: usize = 1;
        while i < self.0.len()
            invariant
                1 <= i <= self.0.len(),
                s == self.view(),
                m.view() == high_corner(s.take(i as int)),
            decreases self.0.len() - i,
        {
            let c = self.0[i];
            assert(s.take(i + 1).drop_last() =~= s.take(i as int));
            assert(s.take(i + 1).last() == c.view());
            if c.x > m.x {
                m.x = c.x;
            }
            if c.y > m.y {
                m.y = c.y;
            }
            if c.z > m.z {
                m.z = c.z;
            }
            i = i + 1;
        }
        assert(s.take(i as int) =~= s);
        m
    }

    /// The shape moved so that its least coordinate on each axis is zero.
    pub fn normalise(&self) -> (r: Orientation)
        requires
            shape_ok(self.view()),
        ensures
            r.view() == normalize(self.view()),
            grounded(r.view()),
    {
        let ghost s = self.view();
        let off = self.offset();
        proof {
            lemma_normalize_grounded(s);
            lemma_min_max(s, 0);
            lemma_min_max(s, 1);
            lemma_min_max(s, 2);
        }
        let mut blocks: Vec<Coord> = Vec::new();
        let mut i: usize = 0;
        while i < self.0.len()
            invariant
                i <= self.0.len(),
                s == self.view(),
                shape_ok(s),
                off.view() == low_corner(s),
                grounded(normalize(s)),
                blocks@.len() == i,
                forall|k: int| 0 <= k < i ==> (#[trigger] blocks@[k]).view() == normalize(s)[k],
            decreases self.0.len() - i,
        {
            let c = self.0[i];
            assert(c.view() == s[i as int]);
            assert(grounded_cell(normalize(s)[i as int]));
            blocks.push(Coord { x: c.x - off.x, y: c.y - off.y, z: c.z - off.z });
            i = i + 1;
        }
        let r = Orientation(blocks);
        assert(r.view() =~= normalize(s));
        r
    }

    /// Turns every cell `x`, `y`, `z` times about the axes, then normalizes.
    pub fn rotate(&mut self, x: usize, y: usize, z: usize)
        requires
            shape_ok(old(self).view()),
        ensures
            final(self).view() == normalize(turned(old(self).view(), x as nat, y as nat, z as nat)),
            grounded(final(self).view()),
    {
        let ghost s = self.view();
        proof {
            lemma_turned_ok(s, x as nat, y as nat, z as nat);
        }
        let mut i: usize = 0;
        while i < self.0.len()
            invariant
                i <= self.0.len(),
                self.0@.len() == s.len(),
                shape_ok(s),
                forall|k: int| 0 <= k < i ==> (#[trigger] self.0@[k]).view() == turn(s[k], x as nat, y as nat, z as nat),
                forall|k: int| i <= k < s.len() ==> (#[trigger] self.0@[k]).view() == s[k],
            decreases self.0.len() - i,
        {
            let mut c = self.0[i];
            assert(small(s[i as int]));
            c.turn(x, y, z);
            self.0.set(i, c);
            i = i + 1;
        }
        assert(self.view() =~= turned(s, x as nat, y as nat, z as nat));
        *self = self.normalise();
    }
}

} // verus!
