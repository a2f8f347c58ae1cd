//! Structural validation of boards and nodes.

use vstd::prelude::*;
use crate::bits::{bit_set, lemma_no_bits_zero, lemma_set_clear_bit};
use crate::board::Board;
use crate::line_masks::{check_any_line, check_line_mask, has_quarto, is_quarto_line, line_masks, line_masks_spec};
use crate::node::{Node, depth_0_sentinel, depth_0_sentinel_spec};
use crate::place::masks_within_occupancy;

verus! {

#[derive(Debug, Clone, Copy, PartialEq, Eq, Structural)]
pub enum ValidationError {
    /// The same piece ID appears multiple times on the board
    DuplicatePieceId,
    /// An attribute mask has bits set outside the occupancy mask
    AttributeMaskOutOfBounds,
    /// Multiple non-intersecting quartos exist on the board
    NonIntersectingQuartos,
    /// The piece_to_place is already on the board
    PieceToPlaceAlreadyUsed,
    /// Terminal position must have piece_to_place = 0
    TerminalPositionInvalidPiece,
}

impl ValidationError {
    /// A description of the error for users.
    pub fn message(&self) -> (r: &'static str)
        ensures
            *self == ValidationError::DuplicatePieceId ==> r@ == "The same piece ID appears multiple times on the board"@,
            *self == ValidationError::AttributeMaskOutOfBounds ==> r@ == "Attribute mask has bits set outside occupancy"@,
            *self == ValidationError::NonIntersectingQuartos ==> r@ == "Board has multiple non-intersecting quartos"@,
            *self == ValidationError::PieceToPlaceAlreadyUsed ==> r@ == "The piece_to_place is already on the board"@,
            *self == ValidationError::TerminalPositionInvalidPiece ==> r@ == "Terminal position must have piece_to_place = 0"@,
    {
        match self {
            ValidationError::DuplicatePieceId => "The same piece ID appears multiple times on the board",
            ValidationError::AttributeMaskOutOfBounds => "Attribute mask has bits set outside occupancy",
            ValidationError::NonIntersectingQuartos => "Board has multiple non-intersecting quartos",
            ValidationError::PieceToPlaceAlreadyUsed => "The piece_to_place is already on the board",
            ValidationError::TerminalPositionInvalidPiece => "Terminal position must have piece_to_place = 0",
        }
    }
}

/// The piece standing on square `s`.
pub open spec fn piece_on(board: Board, s: u16) -> u8 {
    board.piece_at_spec(1u16 << s)
}

/// Two different occupied squares hold the same piece.
pub open spec fn has_duplicate_piece(board: Board) -> bool {
    exists|s1: u16, s2: u16|
        s1 < s2 < 16 && bit_set(board.occupancy, s1) && bit_set(board.occupancy, s2)
            && #[trigger] piece_on(board, s1) == #[trigger] piece_on(board, s2)
}

/// All quarto lines share a square (trivially so when there is none).
pub open spec fn quartos_intersect(board: Board) -> bool {
    has_quarto(board) ==> exists|s: u16| s < 16 && #[trigger] common_square(board, s)
}

/// Square `s` lies on every quarto line of the board.
pub open spec fn common_square(board: Board, s: u16) -> bool {
    forall|k: int| 0 <= k < 10 && is_quarto_line(board, #[trigger] line_masks_spec()[k]) ==> bit_set(line_masks_spec()[k], s)
}

/// The result of validating a board: the checks in order.
pub open spec fn validate_board_spec(board: Board) -> Result<(), ValidationError> {
    if !masks_within_occupancy(board) {
        Err(ValidationError::AttributeMaskOutOfBounds)
    } else if has_duplicate_piece(board) {
        Err(ValidationError::DuplicatePieceId)
    } else if !quartos_intersect(board) {
        Err(ValidationError::NonIntersectingQuartos)
    } else {
        Ok(())
    }
}

/// Some occupied square holds the piece `p`.
pub open spec fn piece_on_board(board: Board, p: u8) -> bool {
    exists|s: u16| s < 16 && bit_set(board.occupancy, s) && #[trigger] piece_on(board, s) == p
}

/// The result of validating a node: the root is valid; otherwise the board
/// must be valid, a terminal position must name piece 0, and a non-terminal
/// one a piece not on the board.
pub open spec fn validate_node_spec(node: Node) -> Result<(), ValidationError> {
    if node == depth_0_sentinel_spec() {
        Ok(())
    } else if validate_board_spec(node.board) is Err {
        validate_board_spec(node.board)
    } else if has_quarto(node.board) {
        if node.piece_to_place != 0 {
            Err(ValidationError::TerminalPositionInvalidPiece)
        } else {
            Ok(())
        }
    } else if piece_on_board(node.board, node.piece_to_place) {
        Err(ValidationError::PieceToPlaceAlreadyUsed)
    } else {
        Ok(())
    }
}

/// Check if the quartos of a board share a common cell: returns whether the
/// board passes, and whether it has a quarto at all.
fn check_quarto_intersection(board: &Board) -> (r: (bool, bool))
    ensures
        r.0 == quartos_intersect(*board),
        r.1 == (r.0 && has_quarto(*board)),
{
    let masks = line_masks();
    let mut there_exists_at_least_one_quarto = false;
    let mut intersection_mask: u16 = 0;
    let mut k: usize = 0;
    while k < 10
        invariant
            k <= 10,
            masks@ == line_masks_spec(),
            there_exists_at_least_one_quarto == exists|j: int| 0 <= j < k && is_quarto_line(*board, #[trigger] line_masks_spec()[j]),
            there_exists_at_least_one_quarto ==> intersection_mask != 0,
            there_exists_at_least_one_quarto ==> forall|s: u16| s < 16 ==> (bit_set(intersection_mask, s) <==> forall|j: int|
                0 <= j < k && is_quarto_line(*board, #[trigger] line_masks_spec()[j]) ==> bit_set(line_masks_spec()[j], s)),
        decreases 10 - k,
    {
        let mask = masks[k];
        if check_line_mask(board, mask) {
            if there_exists_at_least_one_quarto {
                let ghost prev = intersection_mask;
                intersection_mask = intersection_mask & mask;
                proof {
                    assert forall|s: u16| s < 16 implies (bit_set(intersection_mask, s) <==> (bit_set(prev, s) && bit_set(mask, s))) by {
                        crate::bits::lemma_bits_u16(prev, mask, s, 0);
                    }
                }
                if intersection_mask == 0 {
                    proof {
                        assert(has_quarto(*board));
                        if quartos_intersect(*board) {
                            let s = choose|s: u16| s < 16 && #[trigger] common_square(*board, s);
                            assert(bit_set(prev, s));
                            assert(bit_set(mask, s));
                            crate::bits::lemma_bits_u16(0, 0, s, 0);
                        }
                    }
                    return (false, false);
                }
            } else {
                there_exists_at_least_one_quarto = true;
                intersection_mask = mask;
                proof {
                    assert(mask != 0);
                }
            }
        }
        k = k + 1;
    }
    proof {
        if there_exists_at_least_one_quarto {
            assert(intersection_mask != 0);
            crate::bits::lemma_lowest_bit(intersection_mask);
            let s = intersection_mask.trailing_zeros() as u16;
            assert(bit_set(intersection_mask, s));
            assert(common_square(*board, s));
        }
    }
    (true, there_exists_at_least_one_quarto)
}

} // verus!

verus! {

proof fn lemma_bit_and_single(x: u16, p: u16)
    requires
        p < 16,
    ensures
        (x & (1u16 << p) != 0) <==> bit_set(x, p),
{
    crate::bits::lemma_bits_u16(x, 0, p, 0);
}

/// Validate that a board's structure is consistent.
pub fn validate_board(board: &Board) -> (r: Result<(), ValidationError>)
    ensures
        r == validate_board_spec(*board),
{
    let mut i: usize = 0;
    while i < 4
        invariant
            i <= 4,
            forall|j: int| 0 <= j < i ==> board.attr(j) & !board.occupancy == 0,
        decreases 4 - i,
    {
        if (board.attribute_masks[i] & !board.occupancy) != 0 {
            return Err(ValidationError::AttributeMaskOutOfBounds);
        }
        i = i + 1;
    }
    assert(board.attr(0) & !board.occupancy == 0 && board.attr(1) & !board.occupancy == 0);
    assert(board.attr(2) & !board.occupancy == 0 && board.attr(3) & !board.occupancy == 0);
    assert(masks_within_occupancy(*board));
    // Check for duplicate piece IDs
    let mut used_pieces: u16 = 0;
    let mut s: u16 = 0;
    assert forall|p: u16| p < 16 implies !bit_set(0u16, p) by {
        crate::bits::lemma_bits_u16(0, 0, p, 0);
    }
    while s < 16
        invariant
            s <= 16,
            masks_within_occupancy(*board),
            forall|p: u16| p < 16 ==> (bit_set(used_pieces, p) <==> exists|s1: u16| s1 < s && bit_set(board.occupancy, s1) && #[trigger] piece_on(*board, s1) == p),
            forall|s1: u16, s2: u16| s1 < s2 < s && bit_set(board.occupancy, s1) && bit_set(board.occupancy, s2) ==> #[trigger] piece_on(*board, s1) != #[trigger] piece_on(*board, s2),
        decreases 16 - s,
    {
        if (board.occupancy >> s) & 1u16 == 1u16 {
            let piece_id = board.piece_at(1u16 << s);
            let piece_bit: u16 = 1u16 << (piece_id as u16);
            proof {
                lemma_bit_and_single(used_pieces, piece_id as u16);
            }
            if (used_pieces & piece_bit) != 0 {
                proof {
                    assert(bit_set(used_pieces, piece_id as u16));
                    assert(exists|s1: u16| s1 < s && bit_set(board.occupancy, s1) && #[trigger] piece_on(*board, s1) == piece_id);
                    let s1 = choose|s1: u16| s1 < s && bit_set(board.occupancy, s1) && #[trigger] piece_on(*board, s1) == piece_id;
                    assert(piece_on(*board, s) == piece_id);
                    assert(piece_on(*board, s1) == piece_on(*board, s));
                    assert(has_duplicate_piece(*board));
                }
                return Err(ValidationError::DuplicatePieceId);
            }
            let ghost prev = used_pieces;
            used_pieces = used_pieces | piece_bit;
            proof {
                lemma_set_clear_bit(prev, piece_id as u16);
                assert forall|p: u16| p < 16 implies (bit_set(used_pieces, p) <==> exists|s1: u16| s1 < s + 1 && bit_set(board.occupancy, s1) && #[trigger] piece_on(*board, s1) == p) by {
                    if p == piece_id as u16 {
                        assert(piece_on(*board, s) == p);
                    }
                    if bit_set(used_pieces, p) && p != piece_id {
                        assert(bit_set(prev, p));
                        let s1 = choose|s1: u16| s1 < s && bit_set(board.occupancy, s1) && #[trigger] piece_on(*board, s1) == p;
                        assert(s1 < s + 1);
                    }
                    if exists|s1: u16| s1 < s + 1 && bit_set(board.occupancy, s1) && #[trigger] piece_on(*board, s1) == p {
                        let s1 = choose|s1: u16| s1 < s + 1 && bit_set(board.occupancy, s1) && #[trigger] piece_on(*board, s1) == p;
                        if s1 < s {
                            assert(bit_set(prev, p));
                        }
                    }
                }
                assert forall|s1: u16, s2: u16| s1 < s2 < s + 1 && bit_set(board.occupancy, s1) && bit_set(board.occupancy, s2) implies #[trigger] piece_on(*board, s1) != #[trigger] piece_on(*board, s2) by {
                    if s2 == s && piece_on(*board, s1) == piece_on(*board, s2) {
                        assert(bit_set(prev, piece_id as u16));
                    }
                }
            }
        } else {
            proof {
                assert forall|p: u16| p < 16 implies (bit_set(used_pieces, p) <==> exists|s1: u16| s1 < s + 1 && bit_set(board.occupancy, s1) && #[trigger] piece_on(*board, s1) == p) by {
                    if exists|s1: u16| s1 < s + 1 && bit_set(board.occupancy, s1) && #[trigger] piece_on(*board, s1) == p {
                        let s1 = choose|s1: u16| s1 < s + 1 && bit_set(board.occupancy, s1) && #[trigger] piece_on(*board, s1) == p;
                        assert(s1 < s);
                    }
                }
            }
        }
        s = s + 1;
    }
    let (is_valid, _has_quarto) = check_quarto_intersection(board);
    if !is_valid {
        return Err(ValidationError::NonIntersectingQuartos);
    }
    Ok(())
}

/// Validate a node (board + piece_to_place).
pub fn validate_node(node: &Node) -> (r: Result<(), ValidationError>)
    ensures
        r == validate_node_spec(*node),
{
    if node.equals(&depth_0_sentinel()) {
        return Ok(());
    }
    match validate_board(&node.board) {
        Err(e) => {
            return Err(e);
        },
        Ok(()) => {},
    }
    assert(validate_board_spec(node.board) is Ok);
    let quarto = check_any_line(&node.board);
    if quarto {
        if node.piece_to_place != 0 {
            return Err(ValidationError::TerminalPositionInvalidPiece);
        }
    } else {
        let mut s: u16 = 0;
        while s < 16
            invariant
                s <= 16,
                *node != depth_0_sentinel_spec(),
                validate_board_spec(node.board) is Ok,
                !has_quarto(node.board),
                forall|s1: u16| s1 < s && bit_set(node.board.occupancy, s1) ==> #[trigger] piece_on(node.board, s1) != node.piece_to_place,
            decreases 16 - s,
        {
            if (node.board.occupancy >> s) & 1u16 == 1u16 {
                let piece_id = node.board.piece_at(1u16 << s);
                if piece_id == node.piece_to_place {
                    assert(piece_on(node.board, s) == node.piece_to_place);
                    assert(piece_on_board(node.board, node.piece_to_place));
                    return Err(ValidationError::PieceToPlaceAlreadyUsed);
                }
            }
            s = s + 1;
        }
    }
    Ok(())
}

} // verus!
