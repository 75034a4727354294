use vstd::prelude::*;

verus! {

/// A square is on the board when its rank and file are both below 8.
pub open spec fn on_board(pos: (u8, u8)) -> bool {
    pos.0 < 8 && pos.1 < 8
}

/// The bit that stands for square `pos` = (rank, file): rank-major, 8 squares a rank.
pub open spec fn square_index(pos: (u8, u8)) -> u64 {
    (8 * pos.0 + pos.1) as u64
}

/// Bit `i` of `x` is one.
pub open spec fn bit_set(x: u64, i: u64) -> bool {
    (x >> i) & 1u64 != 0u64
}

/// The mask holding only bit `i`.
pub open spec fn single(i: u64) -> u64 {
    1u64 << i
}

/// Two on-board squares share a bit only when they are the same square.
pub proof fn lemma_square_index_injective(a: (u8, u8), b: (u8, u8))
    requires
        on_board(a),
        on_board(b),
    ensures
        square_index(a) < 64,
        (square_index(a) == square_index(b)) == (a == b),
{
}

/// The empty mask has no bit set.
pub proof fn lemma_bit_of_zero(j: u64)
    requires
        j < 64,
    ensures
        !bit_set(0, j),
{
    assert((0u64 >> j) & 1u64 == 0u64) by (bit_vector);
}

/// Setting bit `i` makes it one and leaves every other bit alone.
pub proof fn lemma_bit_of_set(x: u64, i: u64, j: u64)
    requires
        i < 64,
        j < 64,
    ensures
        bit_set(x | single(i), j) == (i == j || bit_set(x, j)),
{
    assert(((x | (1u64 << i)) >> j) & 1u64 != 0u64 <==> (i == j || (x >> j) & 1u64 != 0u64))
        by (bit_vector)
        requires
            i < 64,
            j < 64,
    ;
}

/// Clearing bit `i` makes it zero and leaves every other bit alone.
pub proof fn lemma_bit_of_clear(x: u64, i: u64, j: u64)
    requires
        i < 64,
        j < 64,
    ensures
        bit_set(x & !single(i), j) == (i != j && bit_set(x, j)),
{
    assert(((x & !(1u64 << i)) >> j) & 1u64 != 0u64 <==> (i != j && (x >> j) & 1u64 != 0u64))
        by (bit_vector)
        requires
            i < 64,
            j < 64,
    ;
}

/// A bit of the union is one when it is one in either operand.
pub proof fn lemma_bit_of_union(x: u64, y: u64, j: u64)
    requires
        j < 64,
    ensures
        bit_set(x | y, j) == (bit_set(x, j) || bit_set(y, j)),
{
    assert(((x | y) >> j) & 1u64 != 0u64 <==> ((x >> j) & 1u64 != 0u64 || (y >> j) & 1u64 != 0u64))
        by (bit_vector)
        requires
            j < 64,
    ;
}

/// Taking a square out of a set and putting it back gives the set again
/// when the square was in it.
pub proof fn lemma_clear_then_set(x: u64, i: u64)
    requires
        i < 64,
        bit_set(x, i),
    ensures
        (x & !single(i)) | single(i) == x,
{
    assert(((x >> i) & 1u64 != 0u64) ==> (x & !(1u64 << i)) | (1u64 << i) == x) by (bit_vector)
        requires
            i < 64,
    ;
}

/// Putting a square into a set and taking it out again gives the set again
/// when the square was not in it.
pub proof fn lemma_set_then_clear(x: u64, i: u64)
    requires
        i < 64,
        !bit_set(x, i),
    ensures
        (x | single(i)) & !single(i) == x,
{
    assert(((x >> i) & 1u64 == 0u64) ==> (x | (1u64 << i)) & !(1u64 << i) == x) by (bit_vector)
        requires
            i < 64,
    ;
}

/// Moving a piece from `s` to `e` and back leaves the set as it was, when `s` was
/// in it and `e` was not (or is `s`).
pub proof fn lemma_move_there_and_back(x: u64, s: u64, e: u64)
    requires
        s < 64,
        e < 64,
        bit_set(x, s),
        s == e || !bit_set(x, e),
    ensures
        ((((x & !single(s)) | single(e)) & !single(e)) | single(s)) == x,
{
    assert(((x >> s) & 1u64 != 0u64) && (s == e || (x >> e) & 1u64 == 0u64) ==> ((((x & !(1u64
        << s)) | (1u64 << e)) & !(1u64 << e)) | (1u64 << s)) == x) by (bit_vector)
        requires
            s < 64,
            e < 64,
    ;
}

/// A set of squares, one bit per square, as a 64-bit mask.
#[derive(Debug, Clone, Copy, PartialEq, Eq, Structural)]
pub struct Bitboard(pub u64);

impl Default for Bitboard {
    /// The empty set of squares.
    fn default() -> (r: Bitboard)
        ensures
            r.0 == 0,
    {
        Bitboard(0)
    }
}

/// The bit number of an on-board square.
pub fn pos_to_idx(pos: (u8, u8)) -> (r: u8)
    requires
        on_board(pos),
    ensures
        r < 64,
        r as u64 == square_index(pos),
{
    8 * pos.0 + pos.1
}

impl Bitboard {
    /// Square `pos` belongs to the set.
    pub open spec fn has(self, pos: (u8, u8)) -> bool {
        bit_set(self.0, square_index(pos))
    }

    /// Whether square `pos` is in the set.
    pub fn get(&self, pos: (u8, u8)) -> (r: bool)
        requires
            on_board(pos),
        ensures
            r == self.has(pos),
    {
        let i = pos_to_idx(pos) as u64;
        (self.0 >> i) & 1 != 0
    }

    /// Adds square `pos` to the set.
    pub fn set(&mut self, pos: (u8, u8))
        requires
            on_board(pos),
        ensures
            final(self).0 == old(self).0 | single(square_index(pos)),
    {
        let i = pos_to_idx(pos) as u64;
        self.0 = self.0 | (1u64 << i);
    }

    /// Removes square `pos` from the set.
    pub fn clear(&mut self, pos: (u8, u8))
        requires
            on_board(pos),
        ensures
            final(self).0 == old(self).0 & !single(square_index(pos)),
    {
        let i = pos_to_idx(pos) as u64;
        self.0 = self.0 & !(1u64 << i);
    }

    /// The union of two sets of squares.
    pub fn combine(&self, other: Bitboard) -> (r: Bitboard)
        ensures
            r.0 == self.0 | other.0,
    {
        Bitboard(self.0 | other.0)
    }
}

} // verus!
