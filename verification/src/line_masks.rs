//! The ten winning lines of the board and the quarto test on a line.

use vstd::prelude::*;
use crate::board::Board;

verus! {

pub const ROW_0: u16 = 0x000F;
pub const ROW_1: u16 = 0x00F0;
pub const ROW_2: u16 = 0x0F00;
pub const ROW_3: u16 = 0xF000;
pub const COL_0: u16 = 0x1111;
pub const COL_1: u16 = 0x2222;
pub const COL_2: u16 = 0x4444;
pub const COL_3: u16 = 0x8888;
pub const DIAG_MAIN: u16 = 0x8421;
pub const DIAG_ANTI: u16 = 0x1248;

/// The ten lines in the order rows 0-3, columns 0-3, main diagonal, anti-diagonal.
pub open spec fn line_masks_spec() -> Seq<u16> {
    seq![ROW_0, ROW_1, ROW_2, ROW_3, COL_0, COL_1, COL_2, COL_3, DIAG_MAIN, DIAG_ANTI]
}

/// All ten line masks.
pub fn line_masks() -> (r: [u16; 10])
    ensures
        r@ == line_masks_spec(),
{
    let r = [ROW_0, ROW_1, ROW_2, ROW_3, COL_0, COL_1, COL_2, COL_3, DIAG_MAIN, DIAG_ANTI];
    assert(r@ =~= line_masks_spec());
    r
}

/// The lines through square `square` (0..16), in the order of `line_masks_spec`.
pub open spec fn lines_through(square: u32) -> Seq<u16> {
    line_masks_spec().filter(|m: u16| (m >> (square as u16)) & 1u16 == 1u16)
}

/// A line is a quarto on `board`: all four squares are occupied, and for
/// some attribute the four pieces all have it or all lack it.
pub open spec fn is_quarto_line(board: Board, line_mask: u16) -> bool {
    &&& (board.occupancy & line_mask) == line_mask
    &&& {
        ||| (board.attr(0) & line_mask) == 0 || (board.attr(0) & line_mask) == line_mask
        ||| (board.attr(1) & line_mask) == 0 || (board.attr(1) & line_mask) == line_mask
        ||| (board.attr(2) & line_mask) == 0 || (board.attr(2) & line_mask) == line_mask
        ||| (board.attr(3) & line_mask) == 0 || (board.attr(3) & line_mask) == line_mask
    }
}

/// Some line of the board is a quarto.
pub open spec fn has_quarto(board: Board) -> bool {
    exists|k: int| 0 <= k < 10 && is_quarto_line(board, #[trigger] line_masks_spec()[k])
}

/// Some line through `square` is a quarto.
pub open spec fn has_quarto_through(board: Board, square: u32) -> bool {
    exists|k: int|
        0 <= k < 10 && (line_masks_spec()[k] >> (square as u16)) & 1u16 == 1u16
            && is_quarto_line(board, #[trigger] line_masks_spec()[k])
}

/// Whether the line `line_mask` is a quarto on `board`.
pub fn check_line_mask(board: &Board, line_mask: u16) -> (r: bool)
    ensures
        r == is_quarto_line(*board, line_mask),
{
    if (board.occupancy & line_mask) != line_mask {
        return false;
    }
    let a0 = board.attribute_masks[0] & line_mask;
    if a0 == 0 || a0 == line_mask {
        return true;
    }
    let a1 = board.attribute_masks[1] & line_mask;
    if a1 == 0 || a1 == line_mask {
        return true;
    }
    let a2 = board.attribute_masks[2] & line_mask;
    if a2 == 0 || a2 == line_mask {
        return true;
    }
    let a3 = board.attribute_masks[3] & line_mask;
    if a3 == 0 || a3 == line_mask {
        return true;
    }
    false
}

/// The lines through a square (0..16): its row, its column, and the
/// diagonals that pass through it.
pub fn line_masks_index(square: u32) -> (r: Vec<u16>)
    requires
        square < 16,
    ensures
        r@ == lines_through(square),
{
    let all = line_masks();
    let mut r: Vec<u16> = Vec::new();
    let s = square as u16;
    let mut k: usize = 0;
    while k < 10
        invariant
            0 <= k <= 10,
            s == square,
            s < 16,
            all@ == line_masks_spec(),
            r@ == line_masks_spec().subrange(0, k as int).filter(
                |m: u16| (m >> (square as u16)) & 1u16 == 1u16,
            ),
        decreases 10 - k,
    {
        let m = all[k];
        proof {
            let f = |m: u16| (m >> (square as u16)) & 1u16 == 1u16;
            let sub = line_masks_spec().subrange(0, k + 1);
            assert(sub.drop_last() =~= line_masks_spec().subrange(0, k as int));
            reveal_with_fuel(Seq::filter, 1);
            assert(sub.filter(f) == sub.drop_last().filter(f) + (if f(sub.last()) { seq![sub.last()] } else { seq![] }));
        }
        if (m >> s) & 1u16 == 1u16 {
            r.push(m);
        }
        k = k + 1;
    }
    assert(line_masks_spec().subrange(0, 10) =~= line_masks_spec());
    r
}

/// Whether any line through the square `square` (0..16) is a quarto.
pub fn check_lines_through(board: &Board, square: u32) -> (r: bool)
    requires
        square < 16,
    ensures
        r == has_quarto_through(*board, square),
{
    let all = line_masks();
    let s = square as u16;
    let mut k: usize = 0;
    while k < 10
        invariant
            0 <= k <= 10,
            s == square,
            s < 16,
            all@ == line_masks_spec(),
            forall|j: int|
                0 <= j < k ==> !((line_masks_spec()[j] >> (square as u16)) & 1u16 == 1u16
                    && is_quarto_line(*board, #[trigger] line_masks_spec()[j])),
        decreases 10 - k,
    {
        let m = all[k];
        if (m >> s) & 1u16 == 1u16 && check_line_mask(board, m) {
            assert(line_masks_spec()[k as int] == m);
            return true;
        }
        k = k + 1;
    }
    false
}

/// Whether any of the ten lines is a quarto.
pub fn check_any_line(board: &Board) -> (r: bool)
    ensures
        r == has_quarto(*board),
{
    let all = line_masks();
    let mut k: usize = 0;
    while k < 10
        invariant
            0 <= k <= 10,
            all@ == line_masks_spec(),
            forall|j: int| 0 <= j < k ==> !is_quarto_line(*board, #[trigger] line_masks_spec()[j]),
        decreases 10 - k,
    {
        if check_line_mask(board, all[k]) {
            assert(line_masks_spec()[k as int] == all[k as int]);
            return true;
        }
        k = k + 1;
    }
    false
}

} // verus!
