use vstd::prelude::*;

verus! {

/// Number of cells a single-word board can hold.
pub const CELLS: u64 = 64;

/// Occupancy bit-vector over the cells of a volume: bit `i` set means cell `i` is occupied.
#[derive(Clone, Copy, Debug, PartialEq, Eq, Structural)]
pub struct Bitset(pub u64);

pub type Board = Bitset;

pub type Placement = Bitset;

/// Whether bit `i` of `w` is set.
pub open spec fn bit(w: u64, i: int) -> bool {
    0 <= i < 64 && (w >> (i as u64)) & 1 == 1
}

/// The cells of a word, as a set of indices.
pub open spec fn cells_of(w: u64) -> Set<int> {
    Set::new(|i: int| bit(w, i))
}

/// Every cell of `a` is a cell of `b`.
pub open spec fn within(a: u64, b: u64) -> bool {
    a & !b == 0
}

/// `a` and `b` share no cell.
pub open spec fn disjoint(a: u64, b: u64) -> bool {
    a & b == 0
}

impl Bitset {
    pub open spec fn has(self, i: int) -> bool {
        bit(self.0, i)
    }

    pub fn empty() -> (r: Bitset)
        ensures
            r.0 == 0,
    {
        Bitset(0)
    }

    pub fn get(&self, index: usize) -> (r: bool)
        requires
            index < 64,
        ensures
            r == self.has(index as int),
    {
        let i = index as u64;
        (self.0 >> i) & 1 == 1
    }

    pub fn set(&mut self, index: usize)
        requires
            index < 64,
        ensures
            final(self).0 == old(self).0 | (1u64 << index as u64),
    {
        self.0 = self.0 | (1u64 << index as u64);
    }

    pub fn intersects(&self, other: Bitset) -> (r: bool)
        ensures
            r == !disjoint(self.0, other.0),
    {
        (self.0 & other.0) != 0
    }

    pub fn xor(&self, other: Bitset) -> (r: Bitset)
        ensures
            r.0 == self.0 ^ other.0,
    {
        Bitset(self.0 ^ other.0)
    }

    pub fn union(&self, other: Bitset) -> (r: Bitset)
        ensures
            r.0 == self.0 | other.0,
    {
        Bitset(self.0 | other.0)
    }

    pub fn intersection(&self, other: Bitset) -> (r: Bitset)
        ensures
            r.0 == self.0 & other.0,
    {
        Bitset(self.0 & other.0)
    }
}

/// The cell `i` is set in the one-cell word `1 << i`, and no other is.
pub proof fn lemma_single_bit(i: u64, j: u64)
    requires
        i < 64,
        j < 64,
    ensures
        bit(1u64 << i, j as int) == (i == j),
{
    assert(((1u64 << i) >> j) & 1 == 1 <==> i == j) by (bit_vector)
        requires
            i < 64,
            j < 64,
    ;
}

/// Bits of a union, an intersection and a symmetric difference, cell by cell.
pub proof fn lemma_bit_ops(a: u64, b: u64, j: u64)
    requires
        j < 64,
    ensures
        bit(a | b, j as int) == (bit(a, j as int) || bit(b, j as int)),
        bit(a & b, j as int) == (bit(a, j as int) && bit(b, j as int)),
        bit(a ^ b, j as int) == (bit(a, j as int) != bit(b, j as int)),
{
    assert(((a | b) >> j) & 1 == 1 <==> ((a >> j) & 1 == 1 || (b >> j) & 1 == 1)) by (bit_vector)
        requires
            j < 64,
    ;
    assert(((a & b) >> j) & 1 == 1 <==> ((a >> j) & 1 == 1 && (b >> j) & 1 == 1)) by (bit_vector)
        requires
            j < 64,
    ;
    assert(((a ^ b) >> j) & 1 == 1 <==> ((a >> j) & 1 == 1) != ((b >> j) & 1 == 1)) by (bit_vector)
        requires
            j < 64,
    ;
}


/// A word whose set cells are all set in `b` lies within `b`.
pub proof fn lemma_within_by_bits(a: u64, b: u64)
    requires
        forall|j: int| 0 <= j < 64 ==> bit(a, j) ==> #[trigger] bit(b, j),
    ensures
        within(a, b),
{
    assert(bit(a, 0) ==> bit(b, 0));
    assert(bit(a, 1) ==> bit(b, 1));
    assert(bit(a, 2) ==> bit(b, 2));
    assert(bit(a, 3) ==> bit(b, 3));
    assert(bit(a, 4) ==> bit(b, 4));
    assert(bit(a, 5) ==> bit(b, 5));
    assert(bit(a, 6) ==> bit(b, 6));
    assert(bit(a, 7) ==> bit(b, 7));
    assert(bit(a, 8) ==> bit(b, 8));
    assert(bit(a, 9) ==> bit(b, 9));
    assert(bit(a, 10) ==> bit(b, 10));
    assert(bit(a, 11) ==> bit(b, 11));
    assert(bit(a, 12) ==> bit(b, 12));
    assert(bit(a, 13) ==> bit(b, 13));
    assert(bit(a, 14) ==> bit(b, 14));
    assert(bit(a, 15) ==> bit(b, 15));
    assert(bit(a, 16) ==> bit(b, 16));
    assert(bit(a, 17) ==> bit(b, 17));
    assert(bit(a, 18) ==> bit(b, 18));
    assert(bit(a, 19) ==> bit(b, 19));
    assert(bit(a, 20) ==> bit(b, 20));
    assert(bit(a, 21) ==> bit(b, 21));
    assert(bit(a, 22) ==> bit(b, 22));
    assert(bit(a, 23) ==> bit(b, 23));
    assert(bit(a, 24) ==> bit(b, 24));
    assert(bit(a, 25) ==> bit(b, 25));
    assert(bit(a, 26) ==> bit(b, 26));
    assert(bit(a, 27) ==> bit(b, 27));
    assert(bit(a, 28) ==> bit(b, 28));
    assert(bit(a, 29) ==> bit(b, 29));
    assert(bit(a, 30) ==> bit(b, 30));
    assert(bit(a, 31) ==> bit(b, 31));
    assert(bit(a, 32) ==> bit(b, 32));
    assert(bit(a, 33) ==> bit(b, 33));
    assert(bit(a, 34) ==> bit(b, 34));
    assert(bit(a, 35) ==> bit(b, 35));
    assert(bit(a, 36) ==> bit(b, 36));
    assert(bit(a, 37) ==> bit(b, 37));
    assert(bit(a, 38) ==> bit(b, 38));
    assert(bit(a, 39) ==> bit(b, 39));
    assert(bit(a, 40) ==> bit(b, 40));
    assert(bit(a, 41) ==> bit(b, 41));
    assert(bit(a, 42) ==> bit(b, 42));
    assert(bit(a, 43) ==> bit(b, 43));
    assert(bit(a, 44) ==> bit(b, 44));
    assert(bit(a, 45) ==> bit(b, 45));
    assert(bit(a, 46) ==> bit(b, 46));
    assert(bit(a, 47) ==> bit(b, 47));
    assert(bit(a, 48) ==> bit(b, 48));
    assert(bit(a, 49) ==> bit(b, 49));
    assert(bit(a, 50) ==> bit(b, 50));
    assert(bit(a, 51) ==> bit(b, 51));
    assert(bit(a, 52) ==> bit(b, 52));
    assert(bit(a, 53) ==> bit(b, 53));
    assert(bit(a, 54) ==> bit(b, 54));
    assert(bit(a, 55) ==> bit(b, 55));
    assert(bit(a, 56) ==> bit(b, 56));
    assert(bit(a, 57) ==> bit(b, 57));
    assert(bit(a, 58) ==> bit(b, 58));
    assert(bit(a, 59) ==> bit(b, 59));
    assert(bit(a, 60) ==> bit(b, 60));
    assert(bit(a, 61) ==> bit(b, 61));
    assert(bit(a, 62) ==> bit(b, 62));
    assert(bit(a, 63) ==> bit(b, 63));
    assert(a & !b == 0) by (bit_vector)
        requires
            ((a >> 0u64) & 1 == 1) ==> ((b >> 0u64) & 1 == 1),
            ((a >> 1u64) & 1 == 1) ==> ((b >> 1u64) & 1 == 1),
            ((a >> 2u64) & 1 == 1) ==> ((b >> 2u64) & 1 == 1),
            ((a >> 3u64) & 1 == 1) ==> ((b >> 3u64) & 1 == 1),
            ((a >> 4u64) & 1 == 1) ==> ((b >> 4u64) & 1 == 1),
            ((a >> 5u64) & 1 == 1) ==> ((b >> 5u64) & 1 == 1),
            ((a >> 6u64) & 1 == 1) ==> ((b >> 6u64) & 1 == 1),
            ((a >> 7u64) & 1 == 1) ==> ((b >> 7u64) & 1 == 1),
            ((a >> 8u64) & 1 == 1) ==> ((b >> 8u64) & 1 == 1),
            ((a >> 9u64) & 1 == 1) ==> ((b >> 9u64) & 1 == 1),
            ((a >> 10u64) & 1 == 1) ==> ((b >> 10u64) & 1 == 1),
            ((a >> 11u64) & 1 == 1) ==> ((b >> 11u64) & 1 == 1),
            ((a >> 12u64) & 1 == 1) ==> ((b >> 12u64) & 1 == 1),
            ((a >> 13u64) & 1 == 1) ==> ((b >> 13u64) & 1 == 1),
            ((a >> 14u64) & 1 == 1) ==> ((b >> 14u64) & 1 == 1),
            ((a >> 15u64) & 1 == 1) ==> ((b >> 15u64) & 1 == 1),
            ((a >> 16u64) & 1 == 1) ==> ((b >> 16u64) & 1 == 1),
            ((a >> 17u64) & 1 == 1) ==> ((b >> 17u64) & 1 == 1),
            ((a >> 18u64) & 1 == 1) ==> ((b >> 18u64) & 1 == 1),
            ((a >> 19u64) & 1 == 1) ==> ((b >> 19u64) & 1 == 1),
            ((a >> 20u64) & 1 == 1) ==> ((b >> 20u64) & 1 == 1),
            ((a >> 21u64) & 1 == 1) ==> ((b >> 21u64) & 1 == 1),
            ((a >> 22u64) & 1 == 1) ==> ((b >> 22u64) & 1 == 1),
            ((a >> 23u64) & 1 == 1) ==> ((b >> 23u64) & 1 == 1),
            ((a >> 24u64) & 1 == 1) ==> ((b >> 24u64) & 1 == 1),
            ((a >> 25u64) & 1 == 1) ==> ((b >> 25u64) & 1 == 1),
            ((a >> 26u64) & 1 == 1) ==> ((b >> 26u64) & 1 == 1),
            ((a >> 27u64) & 1 == 1) ==> ((b >> 27u64) & 1 == 1),
            ((a >> 28u64) & 1 == 1) ==> ((b >> 28u64) & 1 == 1),
            ((a >> 29u64) & 1 == 1) ==> ((b >> 29u64) & 1 == 1),
            ((a >> 30u64) & 1 == 1) ==> ((b >> 30u64) & 1 == 1),
            ((a >> 31u64) & 1 == 1) ==> ((b >> 31u64) & 1 == 1),
            ((a >> 32u64) & 1 == 1) ==> ((b >> 32u64) & 1 == 1),
            ((a >> 33u64) & 1 == 1) ==> ((b >> 33u64) & 1 == 1),
            ((a >> 34u64) & 1 == 1) ==> ((b >> 34u64) & 1 == 1),
            ((a >> 35u64) & 1 == 1) ==> ((b >> 35u64) & 1 == 1),
            ((a >> 36u64) & 1 == 1) ==> ((b >> 36u64) & 1 == 1),
            ((a >> 37u64) & 1 == 1) ==> ((b >> 37u64) & 1 == 1),
            ((a >> 38u64) & 1 == 1) ==> ((b >> 38u64) & 1 == 1),
            ((a >> 39u64) & 1 == 1) ==> ((b >> 39u64) & 1 == 1),
            ((a >> 40u64) & 1 == 1) ==> ((b >> 40u64) & 1 == 1),
            ((a >> 41u64) & 1 == 1) ==> ((b >> 41u64) & 1 == 1),
            ((a >> 42u64) & 1 == 1) ==> ((b >> 42u64) & 1 == 1),
            ((a >> 43u64) & 1 == 1) ==> ((b >> 43u64) & 1 == 1),
            ((a >> 44u64) & 1 == 1) ==> ((b >> 44u64) & 1 == 1),
            ((a >> 45u64) & 1 == 1) ==> ((b >> 45u64) & 1 == 1),
            ((a >> 46u64) & 1 == 1) ==> ((b >> 46u64) & 1 == 1),
            ((a >> 47u64) & 1 == 1) ==> ((b >> 47u64) & 1 == 1),
            ((a >> 48u64) & 1 == 1) ==> ((b >> 48u64) & 1 == 1),
            ((a >> 49u64) & 1 == 1) ==> ((b >> 49u64) & 1 == 1),
            ((a >> 50u64) & 1 == 1) ==> ((b >> 50u64) & 1 == 1),
            ((a >> 51u64) & 1 == 1) ==> ((b >> 51u64) & 1 == 1),
            ((a >> 52u64) & 1 == 1) ==> ((b >> 52u64) & 1 == 1),
            ((a >> 53u64) & 1 == 1) ==> ((b >> 53u64) & 1 == 1),
            ((a >> 54u64) & 1 == 1) ==> ((b >> 54u64) & 1 == 1),
            ((a >> 55u64) & 1 == 1) ==> ((b >> 55u64) & 1 == 1),
            ((a >> 56u64) & 1 == 1) ==> ((b >> 56u64) & 1 == 1),
            ((a >> 57u64) & 1 == 1) ==> ((b >> 57u64) & 1 == 1),
            ((a >> 58u64) & 1 == 1) ==> ((b >> 58u64) & 1 == 1),
            ((a >> 59u64) & 1 == 1) ==> ((b >> 59u64) & 1 == 1),
            ((a >> 60u64) & 1 == 1) ==> ((b >> 60u64) & 1 == 1),
            ((a >> 61u64) & 1 == 1) ==> ((b >> 61u64) & 1 == 1),
            ((a >> 62u64) & 1 == 1) ==> ((b >> 62u64) & 1 == 1),
            ((a >> 63u64) & 1 == 1) ==> ((b >> 63u64) & 1 == 1),
    ;
}

/// Two words within each other are equal.
pub proof fn lemma_within_both(a: u64, b: u64)
    requires
        within(a, b),
        within(b, a),
    ensures
        a == b,
{
    assert(a & !b == 0 && b & !a == 0 ==> a == b) by (bit_vector);
}

} // verus!
