//! The 4x4 Quarto board as five 16-bit masks.

use vstd::prelude::*;
use vstd::std_specs::cmp::PartialEqSpec;
use vstd::std_specs::cmp::PartialOrdSpecImpl;
use core::cmp::Ordering;
use crate::bits::{be_u16, hi_byte, lo_byte, lemma_be_roundtrip, lemma_be_split, u16_from_be, u16_to_be};

verus! {

/// A board: which squares are occupied, and for each of the four piece
/// attributes, which squares hold a piece having that attribute.
/// Bit `i` of a mask stands for square `i` (row `i / 4`, column `i % 4`).
#[derive(Clone, Copy, Debug, Eq)]
pub struct Board {
    pub occupancy: u16,
    pub attribute_masks: [u16; 4],
}

impl PartialEq for Board {
    fn eq(&self, other: &Board) -> (r: bool) {
        self.occupancy == other.occupancy
            && self.attribute_masks[0] == other.attribute_masks[0]
            && self.attribute_masks[1] == other.attribute_masks[1]
            && self.attribute_masks[2] == other.attribute_masks[2]
            && self.attribute_masks[3] == other.attribute_masks[3]
    }
}

impl vstd::std_specs::cmp::PartialEqSpecImpl for Board {
    open spec fn obeys_eq_spec() -> bool {
        true
    }

    open spec fn eq_spec(&self, other: &Board) -> bool {
        self.occupancy == other.occupancy
            && self.attribute_masks[0] == other.attribute_masks[0]
            && self.attribute_masks[1] == other.attribute_masks[1]
            && self.attribute_masks[2] == other.attribute_masks[2]
            && self.attribute_masks[3] == other.attribute_masks[3]
    }
}

impl PartialOrd for Board {
    fn partial_cmp(&self, other: &Board) -> (r: Option<Ordering>) {
        if self.less_than(other) {
            Some(Ordering::Less)
        } else if other.less_than(self) {
            Some(Ordering::Greater)
        } else {
            Some(Ordering::Equal)
        }
    }
}

impl PartialOrdSpecImpl for Board {
    open spec fn obeys_partial_cmp_spec() -> bool {
        true
    }

    open spec fn partial_cmp_spec(&self, other: &Board) -> Option<Ordering> {
        if self.lt_spec(*other) {
            Some(Ordering::Less)
        } else if other.lt_spec(*self) {
            Some(Ordering::Greater)
        } else {
            Some(Ordering::Equal)
        }
    }
}

/// Boards are equal exactly when their five masks are.
pub proof fn lemma_board_eq(a: Board, b: Board)
    ensures
        a.eq_spec(&b) <==> a == b,
{
    if a.eq_spec(&b) {
        assert(a.attribute_masks =~= b.attribute_masks);
    }
}

/// The empty board.
pub open spec fn root_board_spec() -> Board {
    Board { occupancy: 0, attribute_masks: [0, 0, 0, 0] }
}

/// The empty board.
pub fn root_board() -> (r: Board)
    ensures
        r == root_board_spec(),
{
    Board { occupancy: 0, attribute_masks: [0, 0, 0, 0] }
}

impl Board {
    /// Attribute mask `i`.
    pub open spec fn attr(self, i: int) -> u16 {
        self.attribute_masks@[i]
    }

    /// Serialized form: occupancy, then attribute masks 3, 2, 1, 0, each big-endian.
    pub open spec fn bytes_spec(self) -> Seq<u8> {
        seq![
            hi_byte(self.occupancy), lo_byte(self.occupancy),
            hi_byte(self.attr(3)), lo_byte(self.attr(3)),
            hi_byte(self.attr(2)), lo_byte(self.attr(2)),
            hi_byte(self.attr(1)), lo_byte(self.attr(1)),
            hi_byte(self.attr(0)), lo_byte(self.attr(0)),
        ]
    }

    /// The board that a 10-byte serialization stands for.
    pub open spec fn from_bytes_spec(x: Seq<u8>) -> Board {
        Board {
            occupancy: be_u16(x[0], x[1]),
            attribute_masks: [
                be_u16(x[8], x[9]),
                be_u16(x[6], x[7]),
                be_u16(x[4], x[5]),
                be_u16(x[2], x[3]),
            ],
        }
    }

    /// The piece id (0..16) standing on a square: bit `i` of the id is set
    /// when the square is in attribute mask `i`.
    pub open spec fn piece_at_spec(self, square: u16) -> u8 {
        ((if self.attr(0) & square != 0 { 1u8 } else { 0u8 })
            | (if self.attr(1) & square != 0 { 2u8 } else { 0u8 })
            | (if self.attr(2) & square != 0 { 4u8 } else { 0u8 })
            | (if self.attr(3) & square != 0 { 8u8 } else { 0u8 })) as u8
    }

    /// Serialize the board to 10 big-endian bytes: occupancy + 4 attribute masks.
    pub fn to_bytes(self) -> (r: [u8; 10])
        ensures
            r@ == self.bytes_spec(),
    {
        let p = u16_to_be(self.occupancy);
        let a3 = u16_to_be(self.attribute_masks[3]);
        let a2 = u16_to_be(self.attribute_masks[2]);
        let a1 = u16_to_be(self.attribute_masks[1]);
        let a0 = u16_to_be(self.attribute_masks[0]);
        let r = [p[0], p[1], a3[0], a3[1], a2[0], a2[1], a1[0], a1[1], a0[0], a0[1]];
        assert(r@ =~= self.bytes_spec());
        r
    }

    /// Deserialize a board from 10 big-endian bytes.
    pub fn from_bytes(x: &[u8; 10]) -> (r: Self)
        ensures
            r == Board::from_bytes_spec(x@),
    {
        Board {
            occupancy: u16_from_be(x[0], x[1]),
            attribute_masks: [
                u16_from_be(x[8], x[9]),
                u16_from_be(x[6], x[7]),
                u16_from_be(x[4], x[5]),
                u16_from_be(x[2], x[3]),
            ],
        }
    }

    /// Extract the piece id at a given square bitmask.
    pub fn piece_at(&self, square: u16) -> (r: u8)
        ensures
            r == self.piece_at_spec(square),
            r < 16,
    {
        let x0: u8 = if (self.attribute_masks[0] & square) != 0 { 1 } else { 0 };
        let x1: u8 = if (self.attribute_masks[1] & square) != 0 { 2 } else { 0 };
        let x2: u8 = if (self.attribute_masks[2] & square) != 0 { 4 } else { 0 };
        let x3: u8 = if (self.attribute_masks[3] & square) != 0 { 8 } else { 0 };
        proof {
            crate::bits::lemma_piece_bits(self.attribute_masks[0], self.attribute_masks[1], self.attribute_masks[2], self.attribute_masks[3], square);
        }
        x0 | x1 | x2 | x3
    }

    /// Lexicographic order on (occupancy, mask 3, mask 2, mask 1, mask 0).
    pub open spec fn lt_spec(self, other: Board) -> bool {
        if self.occupancy != other.occupancy {
            self.occupancy < other.occupancy
        } else if self.attr(3) != other.attr(3) {
            self.attr(3) < other.attr(3)
        } else if self.attr(2) != other.attr(2) {
            self.attr(2) < other.attr(2)
        } else if self.attr(1) != other.attr(1) {
            self.attr(1) < other.attr(1)
        } else {
            self.attr(0) < other.attr(0)
        }
    }

    /// Whether `self` orders strictly before `other` (occupancy first, then
    /// attribute masks from the highest to the lowest).
    pub fn less_than(&self, other: &Board) -> (r: bool)
        ensures
            r == self.lt_spec(*other),
    {
        if self.occupancy != other.occupancy {
            self.occupancy < other.occupancy
        } else if self.attribute_masks[3] != other.attribute_masks[3] {
            self.attribute_masks[3] < other.attribute_masks[3]
        } else if self.attribute_masks[2] != other.attribute_masks[2] {
            self.attribute_masks[2] < other.attribute_masks[2]
        } else if self.attribute_masks[1] != other.attribute_masks[1] {
            self.attribute_masks[1] < other.attribute_masks[1]
        } else {
            self.attribute_masks[0] < other.attribute_masks[0]
        }
    }

    /// Fieldwise equality, usable where a board's `==` is wanted in exec code.
    pub fn equals(&self, other: &Board) -> (r: bool)
        ensures
            r == (*self == *other),
    {
        let r = self.occupancy == other.occupancy
            && self.attribute_masks[0] == other.attribute_masks[0]
            && self.attribute_masks[1] == other.attribute_masks[1]
            && self.attribute_masks[2] == other.attribute_masks[2]
            && self.attribute_masks[3] == other.attribute_masks[3];
        proof {
            if r {
                assert(self.attribute_masks =~= other.attribute_masks);
            }
        }
        r
    }
}

/// Serializing and deserializing a board gives the board back.
pub proof fn lemma_board_bytes_roundtrip(b: Board)
    ensures
        Board::from_bytes_spec(b.bytes_spec()) == b,
{
    lemma_be_roundtrip(b.occupancy);
    lemma_be_roundtrip(b.attr(0));
    lemma_be_roundtrip(b.attr(1));
    lemma_be_roundtrip(b.attr(2));
    lemma_be_roundtrip(b.attr(3));
    assert(Board::from_bytes_spec(b.bytes_spec()).attribute_masks =~= b.attribute_masks);
}

/// Deserializing 10 bytes and serializing the board gives the bytes back.
pub proof fn lemma_board_bytes_roundtrip_rev(x: Seq<u8>)
    requires
        x.len() == 10,
    ensures
        Board::from_bytes_spec(x).bytes_spec() == x,
{
    lemma_be_split(x[0], x[1]);
    lemma_be_split(x[2], x[3]);
    lemma_be_split(x[4], x[5]);
    lemma_be_split(x[6], x[7]);
    lemma_be_split(x[8], x[9]);
    assert(Board::from_bytes_spec(x).bytes_spec() =~= x);
}

} // verus!
