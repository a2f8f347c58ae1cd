//! Placing a piece on the board.

use vstd::prelude::*;
use crate::bits::bit_set;
use crate::board::Board;
use crate::line_masks::{check_lines_through, has_quarto_through};

verus! {

/// The board after putting a piece with attribute bits `attribute` on the
/// squares of `cell`.
pub open spec fn place_spec(board: Board, attribute: u8, cell: u16) -> Board {
    Board {
        occupancy: board.occupancy | cell,
        attribute_masks: [
            if attribute & 1u8 != 0 { board.attr(0) | cell } else { board.attr(0) },
            if attribute & 2u8 != 0 { board.attr(1) | cell } else { board.attr(1) },
            if attribute & 4u8 != 0 { board.attr(2) | cell } else { board.attr(2) },
            if attribute & 8u8 != 0 { board.attr(3) | cell } else { board.attr(3) },
        ],
    }
}

/// Put the piece `attribute` (its id, whose bits are its attributes) on `cell`.
pub fn place(board: &Board, attribute: u8, cell: u16) -> (r: Board)
    ensures
        r == place_spec(*board, attribute, cell),
{
    let occupancy = board.occupancy | cell;
    let a0 = if (attribute & 1u8) != 0 { board.attribute_masks[0] | cell } else { board.attribute_masks[0] };
    let a1 = if (attribute & 2u8) != 0 { board.attribute_masks[1] | cell } else { board.attribute_masks[1] };
    let a2 = if (attribute & 4u8) != 0 { board.attribute_masks[2] | cell } else { board.attribute_masks[2] };
    let a3 = if (attribute & 8u8) != 0 { board.attribute_masks[3] | cell } else { board.attribute_masks[3] };
    Board { occupancy, attribute_masks: [a0, a1, a2, a3] }
}

/// Place the piece and report whether a line through the placed square
/// (the lowest square of `cell`) became a quarto.
pub fn check_after_place(board: &Board, attribute: u8, cell: u16) -> (r: (Board, bool))
    requires
        cell != 0,
    ensures
        r.0 == place_spec(*board, attribute, cell),
        r.1 == has_quarto_through(r.0, cell.trailing_zeros()),
{
    let next_board = place(board, attribute, cell);
    proof {
        vstd::std_specs::bits::axiom_u16_trailing_zeros(cell);
    }
    let square = cell.trailing_zeros();
    let q = check_lines_through(&next_board, square);
    (next_board, q)
}

/// Attribute masks lie within the occupancy mask.
pub open spec fn masks_within_occupancy(board: Board) -> bool {
    &&& board.attr(0) & !board.occupancy == 0
    &&& board.attr(1) & !board.occupancy == 0
    &&& board.attr(2) & !board.occupancy == 0
    &&& board.attr(3) & !board.occupancy == 0
}

proof fn lemma_place_bv(o: u16, a: u16, square: u16, p: u8)
    by (bit_vector)
    requires
        square < 16,
    ensures
        (o >> square) & 1u16 != 1u16 && a & !o == 0 ==> a & (1u16 << square) == 0,
        (1u16 << square) != 0,
        a & (1u16 << square) == 0 ==> (a | (1u16 << square)) & (1u16 << square) != 0,
        (a | (1u16 << square)) & (1u16 << square) == (1u16 << square),
        (((o | (1u16 << square)) >> square) & 1u16) == 1u16,
        a & !o == 0 ==> (a | (1u16 << square)) & !(o | (1u16 << square)) == 0,
        a & !o == 0 ==> a & !(o | (1u16 << square)) == 0,
        p < 16u8 ==> ((if p & 1u8 != 0 { 1u8 } else { 0u8 }) | (if p & 2u8 != 0 { 2u8 } else { 0u8 })
            | (if p & 4u8 != 0 { 4u8 } else { 0u8 }) | (if p & 8u8 != 0 { 8u8 } else { 0u8 })) == p,
{
}

/// Placing piece `p` on an empty square of a board whose attribute masks lie
/// within its occupancy puts exactly `p` on that square, occupies it, and
/// keeps the attribute masks within the occupancy.
pub proof fn lemma_place_then_piece_at(board: Board, p: u8, square: u16)
    requires
        masks_within_occupancy(board),
        p < 16,
        square < 16,
        !bit_set(board.occupancy, square),
    ensures
        place_spec(board, p, 1u16 << square).piece_at_spec(1u16 << square) == p,
        bit_set(place_spec(board, p, 1u16 << square).occupancy, square),
        masks_within_occupancy(place_spec(board, p, 1u16 << square)),
{
    let c = 1u16 << square;
    let o = board.occupancy;
    let a0 = board.attr(0);
    let a1 = board.attr(1);
    let a2 = board.attr(2);
    let a3 = board.attr(3);
    lemma_place_bv(o, a0, square, p);
    lemma_place_bv(o, a1, square, p);
    lemma_place_bv(o, a2, square, p);
    lemma_place_bv(o, a3, square, p);
}

} // verus!
