//! Outcome and score encodings, and negamax evaluation with alpha-beta
//! pruning and optional tablebase cutoffs.
//!
//! An outcome is 15 for a draw; otherwise 17 minus the depth at which the
//! game ends (odd: the first player wins, even: the second player wins).
//! A score is a signed linear value from the perspective of the player to
//! move: 0 for a draw, otherwise `outcome + 99` with the sign of the winner.

use vstd::prelude::*;
use crate::bits::{bit_set, count_ones, lemma_lowest_bit, lemma_not_bit, lemma_popcount_full, lemma_popcount_set_bit, lemma_set_clear_bit, lemma_tz_single, lowest_bit, popcount};
use crate::board::Board;
use crate::canonicalization::{canonical_spec, canonicalize};
use crate::line_masks::{has_quarto, has_quarto_through};
use crate::node::{Node, depth_0_sentinel, depth_0_sentinel_spec, depth_1_canonical, depth_1_canonical_spec};
use crate::place::{check_after_place, place_spec};
use crate::tablebase::TablebaseIndex;

verus! {

pub const OUTCOME_DRAW: u8 = 15;
pub const SCORE_DRAW: i16 = 0;
pub const SCORE_BASE: i16 = 100;

/// Absolute score of an outcome (outcome 0 wraps to 255 as `u8` arithmetic does).
pub open spec fn outcome_to_score_spec(outcome: u8) -> i16 {
    if outcome == OUTCOME_DRAW {
        SCORE_DRAW
    } else {
        (outcome.wrapping_sub(1u8) as int + SCORE_BASE) as i16
    }
}

fn outcome_to_score(outcome: u8) -> (r: i16)
    ensures
        r == outcome_to_score_spec(outcome),
        0 <= r <= 355,
{
    if outcome == OUTCOME_DRAW {
        SCORE_DRAW
    } else {
        outcome.wrapping_sub(1u8) as i16 + SCORE_BASE
    }
}

/// Sort score of an outcome from a player's perspective: higher is better
/// for that player, draws in the middle.
pub open spec fn outcome_to_sort_score_spec(outcome: u8, is_player_first: bool) -> i16 {
    if outcome == OUTCOME_DRAW {
        SCORE_DRAW
    } else if (outcome % 2 == 1) == is_player_first {
        outcome_to_score_spec(outcome)
    } else {
        (-outcome_to_score_spec(outcome)) as i16
    }
}

/// Convert outcome to sort score from a given perspective for descending sort.
/// Higher scores = better outcomes.
pub fn outcome_to_sort_score(outcome: u8, is_player_first: bool) -> (r: i16)
    ensures
        r == outcome_to_sort_score_spec(outcome, is_player_first),
{
    if outcome == OUTCOME_DRAW {
        return SCORE_DRAW;
    }
    let first_player_wins = outcome % 2 == 1;
    let score = outcome_to_score(outcome);
    if is_player_first {
        if first_player_wins { score } else { -score }
    } else if first_player_wins {
        -score
    } else {
        score
    }
}

/// Outcome of a score (from its absolute value).
pub open spec fn score_to_outcome_spec(score: i16) -> u8 {
    if score == SCORE_DRAW {
        OUTCOME_DRAW
    } else {
        ((if score < 0 { -score } else { score as int }) - SCORE_BASE + 1) as u8
    }
}

fn score_to_outcome(score: i16) -> (r: u8)
    requires
        score > i16::MIN,
    ensures
        r == score_to_outcome_spec(score),
{
    if score == SCORE_DRAW {
        OUTCOME_DRAW
    } else {
        let a: i16 = if score < 0 { -score } else { score };
        (a - SCORE_BASE + 1) as u8
    }
}

/// The score of an outcome read from a tablebase, for the player to move at
/// `depth`: positive when the winner's parity differs from the depth's.
pub open spec fn tb_score(outcome: u8, depth: int) -> i16 {
    if outcome == OUTCOME_DRAW {
        SCORE_DRAW
    } else if (outcome % 2) as int != depth % 2 {
        outcome_to_score_spec(outcome)
    } else {
        (-outcome_to_score_spec(outcome)) as i16
    }
}

/// The tablebase answer that cuts the search at a node: the lookup of its
/// canonical form, when the depth is loaded.
pub open spec fn tb_hit(tablebase: Option<&TablebaseIndex>, node: Node, depth: int) -> Option<u8> {
    match tablebase {
        None => None,
        Some(tb) => if tb.depth_available(depth) {
            tb.query_spec(canonical_spec(node))
        } else {
            None
        },
    }
}

/// Placing the piece to place on empty square `s` completes a quarto.
pub open spec fn wins_at(node: Node, s: u16) -> bool {
    !bit_set(node.board.occupancy, s) && has_quarto_through(place_spec(node.board, node.piece_to_place, 1u16 << s), s as u32)
}

/// The player to move can complete a quarto at once.
pub open spec fn immediate_win(node: Node) -> bool {
    exists|s: u16| s < 16 && #[trigger] wins_at(node, s)
}

/// The last empty square of a board with fifteen pieces.
pub open spec fn last_square(board: Board) -> u16 {
    (!board.occupancy) as u16
}

/// What the search is owed at a node, beyond its bounds: a tablebase answer
/// is taken as it is; at depth 16 the last placement decides between a win
/// and a draw; otherwise an immediate quarto wins at once.
pub open spec fn negamax_post(node: Node, depth: int, tablebase: Option<&TablebaseIndex>, r: i16) -> bool {
    &&& r > i16::MIN
    &&& tb_hit(tablebase, node, depth) matches Some(o) ==> r == tb_score(o, depth)
    &&& tb_hit(tablebase, node, depth) is None && depth == 16 ==> r == (if has_quarto_through(
        place_spec(node.board, node.piece_to_place, last_square(node.board)),
        last_square(node.board).trailing_zeros(),
    ) {
        outcome_to_score_spec(1)
    } else {
        SCORE_DRAW
    })
    &&& tb_hit(tablebase, node, depth) is None && depth == 17 ==> r == (if has_quarto(node.board) {
        (-outcome_to_score_spec(1)) as i16
    } else {
        SCORE_DRAW
    })
    &&& tb_hit(tablebase, node, depth) is None && 1 <= depth < 16 && immediate_win(node) ==> r == outcome_to_score_spec((17 - depth) as u8)
}

/// The tablebase, if any, is well formed.
pub open spec fn tb_ok(tablebase: Option<&TablebaseIndex>) -> bool {
    match tablebase {
        None => true,
        Some(tb) => tb.wf(),
    }
}

/// The set bits of `m`, lowest first.
pub open spec fn bits_ascending(m: u16) -> Seq<u16>
    decreases m,
{
    if m == 0 {
        Seq::empty()
    } else {
        proof {
            crate::bits::lemma_lowest_bit(m);
        }
        seq![m.trailing_zeros() as u16] + bits_ascending((m ^ crate::bits::lowest_bit_spec(m)) as u16)
    }
}

/// The position after placing the piece to place on square `s` and handing
/// over piece `p`.
pub open spec fn child(node: Node, s: u16, p: u16) -> Node {
    Node { board: place_spec(node.board, node.piece_to_place, 1u16 << s), piece_to_place: p as u8 }
}

/// The moves (square, piece handed over) onto the squares of `mask`: square
/// by square ascending, and for each square the pieces of `rem` ascending.
pub open spec fn moves_in(rem: u16, mask: u16) -> Seq<(u16, u16)>
    decreases mask,
{
    if mask == 0 {
        Seq::empty()
    } else {
        proof {
            crate::bits::lemma_lowest_bit(mask);
        }
        let t = mask.trailing_zeros() as u16;
        bits_ascending(rem).map_values(|p: u16| (t, p)) + moves_in(rem, (mask ^ crate::bits::lowest_bit_spec(mask)) as u16)
    }
}

/// The moves of a position whose pieces still to hand over are `rem`.
pub open spec fn moves(node: Node, rem: u16) -> Seq<(u16, u16)> {
    moves_in(rem, (!node.board.occupancy) as u16)
}

/// Move `j` is the first of the moves to reach its canonical position.
pub open spec fn first_of_class(node: Node, ms: Seq<(u16, u16)>, j: int) -> bool {
    forall|i: int| 0 <= i < j ==> canonical_spec(#[trigger] child(node, ms[i].0, ms[i].1)) != canonical_spec(child(node, ms[j].0, ms[j].1))
}

/// The game value of a position for the player to move, as a score: a
/// tablebase answer where the depth is loaded; the root's one canonical move;
/// at depth 16 the last placement; at depth 17 (a full board) a draw unless
/// the last placement made a quarto; an immediate quarto wins at once;
/// otherwise the best, over the moves that reach distinct canonical
/// positions, of the opponent's value negated.
pub open spec fn game_score(node: Node, rem: u16, depth: int, tablebase: Option<&TablebaseIndex>) -> int
    decreases 17 - depth, (if depth == 0 && node == depth_0_sentinel_spec() { 2int } else { 1int }), 0int,
{
    if depth < 0 || depth > 17 {
        0
    } else if tb_hit(tablebase, node, depth) is Some {
        tb_score(tb_hit(tablebase, node, depth)->Some_0, depth) as int
    } else if depth == 0 {
        if node == depth_0_sentinel_spec() {
            -game_score(depth_1_canonical_spec(), (rem ^ 1u16) as u16, 1, tablebase)
        } else {
            0
        }
    } else if depth == 16 {
        if has_quarto_through(place_spec(node.board, node.piece_to_place, last_square(node.board)), last_square(node.board).trailing_zeros()) {
            outcome_to_score_spec(1) as int
        } else {
            SCORE_DRAW as int
        }
    } else if depth == 17 {
        if has_quarto(node.board) {
            -(outcome_to_score_spec(1) as int)
        } else {
            SCORE_DRAW as int
        }
    } else if immediate_win(node) {
        outcome_to_score_spec((17 - depth) as u8) as int
    } else {
        best_of(node, rem, depth, tablebase, moves(node, rem).len() as int)
    }
}

/// The best of the first `n` moves that reach distinct canonical positions,
/// each worth the opponent's value negated; `i16::MIN + 1` when there is none.
pub open spec fn best_of(node: Node, rem: u16, depth: int, tablebase: Option<&TablebaseIndex>, n: int) -> int
    decreases 17 - depth, 0int, n,
{
    if n <= 0 || depth < 0 || depth >= 17 {
        (i16::MIN + 1) as int
    } else {
        let prev = best_of(node, rem, depth, tablebase, n - 1);
        let ms = moves(node, rem);
        if n - 1 < ms.len() && first_of_class(node, ms, n - 1) {
            let m = ms[n - 1];
            let c = -game_score(child(node, m.0, m.1), (rem ^ (1u16 << m.1)) as u16, depth + 1, tablebase);
            if c > prev {
                c
            } else {
                prev
            }
        } else {
            prev
        }
    }
}

/// Taking more moves into account never lowers the best.
proof fn lemma_best_of_monotone(node: Node, rem: u16, depth: int, tablebase: Option<&TablebaseIndex>, n: int, m: int)
    requires
        n <= m,
    ensures
        best_of(node, rem, depth, tablebase, n) <= best_of(node, rem, depth, tablebase, m),
    decreases m - n,
{
    if n < m {
        lemma_best_of_monotone(node, rem, depth, tablebase, n, m - 1);
    }
}

/// Game values lie within the scores that `i16` holds, `i16::MIN` excluded.
proof fn lemma_game_score_range(node: Node, rem: u16, depth: int, tablebase: Option<&TablebaseIndex>)
    ensures
        i16::MIN + 1 <= game_score(node, rem, depth, tablebase) <= i16::MAX,
    decreases 17 - depth, (if depth == 0 && node == depth_0_sentinel_spec() { 2int } else { 1int }), 0int,
{
    if depth < 0 || depth > 17 {
    } else if tb_hit(tablebase, node, depth) is Some {
        let o = tb_hit(tablebase, node, depth)->Some_0;
        assert(0 <= outcome_to_score_spec(o) <= 355) by {
            if o != OUTCOME_DRAW {
                assert(o.wrapping_sub(1u8) <= 255);
            }
        }
    } else if depth == 0 {
        if node == depth_0_sentinel_spec() {
            lemma_game_score_range(depth_1_canonical_spec(), (rem ^ 1u16) as u16, 1, tablebase);
        }
    } else if depth == 16 {
    } else if depth == 17 {
    } else if immediate_win(node) {
    } else {
        lemma_best_of_range(node, rem, depth, tablebase, moves(node, rem).len() as int);
    }
}

proof fn lemma_best_of_range(node: Node, rem: u16, depth: int, tablebase: Option<&TablebaseIndex>, n: int)
    ensures
        i16::MIN + 1 <= best_of(node, rem, depth, tablebase, n) <= i16::MAX,
    decreases 17 - depth, 0int, n,
{
    if n <= 0 || depth < 0 || depth >= 17 {
    } else {
        lemma_best_of_range(node, rem, depth, tablebase, n - 1);
        let ms = moves(node, rem);
        if n - 1 < ms.len() && first_of_class(node, ms, n - 1) {
            let m = ms[n - 1];
            lemma_game_score_range(child(node, m.0, m.1), (rem ^ (1u16 << m.1)) as u16, depth + 1, tablebase);
        }
    }
}

/// The result `r` of an alpha-beta search in the window `(alpha, beta)` is
/// the value `v` when inside the window, an upper bound of it at or below
/// `alpha`, and a lower bound of it at or above `beta`.
pub open spec fn fail_soft(r: int, v: int, alpha: int, beta: int) -> bool {
    &&& alpha < r < beta ==> r == v
    &&& r <= alpha ==> v <= r
    &&& r >= beta ==> v >= r
}

fn contains_node(v: &Vec<Node>, n: &Node) -> (r: bool)
    ensures
        r == v@.contains(*n),
{
    let mut i: usize = 0;
    while i < v.len()
        invariant
            i <= v@.len(),
            forall|j: int| 0 <= j < i ==> v@[j] != *n,
        decreases v@.len() - i,
    {
        if v[i].equals(n) {
            return true;
        }
        i = i + 1;
    }
    false
}

/// Negamax with alpha-beta pruning with optional tablebase cutoffs.
/// Returns the best score from the current player's perspective, fail-soft
/// in the window `(alpha_in, beta)`: pruning never changes a value that lies
/// inside the window, a result at or below `alpha_in` bounds the value from
/// above, and one at or above `beta` bounds it from below.
#[verifier::rlimit(60)]
pub fn negamax(
    node: &Node,
    remaining_pieces_mask: u16,
    depth: usize,
    alpha_in: i16,
    beta: i16,
    tablebase: Option<&TablebaseIndex>,
) -> (r: i16)
    requires
        depth <= 17,
        depth >= 1 ==> depth == popcount(node.board.occupancy) + 1,
        depth == 0 ==> *node == depth_0_sentinel_spec(),
        alpha_in > i16::MIN,
        beta > i16::MIN,
        alpha_in < beta,
        tb_ok(tablebase),
    ensures
        negamax_post(*node, depth as int, tablebase, r),
        fail_soft(r as int, game_score(*node, remaining_pieces_mask, depth as int, tablebase), alpha_in as int, beta as int),
    decreases 17 - depth,
{
    let mut alpha = alpha_in;
    if let Some(tb) = tablebase {
        let available = tb.available_depths();
        if available[depth] {
            let canonical_node = canonicalize(node);
            if let Some(outcome) = tb.query(&canonical_node) {
                if outcome == OUTCOME_DRAW {
                    return SCORE_DRAW;
                }
                let score = outcome_to_score(outcome);
                let current_player_parity = (depth % 2) as u8;
                let outcome_parity = outcome % 2;
                return if outcome_parity != current_player_parity { score } else { -score };
            }
        }
    }
    assert(tb_hit(tablebase, *node, depth as int) is None);
    if depth == 0 {
        // The root's one canonical move hands over piece 0; the opponent then
        // places it at depth 1.
        proof {
            crate::bits::lemma_popcount_zero();
        }
        let child_score = negamax(&depth_1_canonical(), remaining_pieces_mask ^ 1u16, 1, -beta, -alpha, tablebase);
        return -child_score;
    }
    let ghost occ = node.board.occupancy;
    if depth == 16 {
        proof {
            lemma_popcount_full();
            if occ == 0xffffu16 {
                assert(false);
            }
            crate::bits::lemma_xor_u16(occ, 0, 0);
        }
        let (_, is_quarto) = check_after_place(&node.board, node.piece_to_place, !node.board.occupancy);
        return if is_quarto { outcome_to_score((17 - depth) as u8) } else { SCORE_DRAW };
    }
    if depth == 17 {
        let is_quarto = crate::line_masks::check_any_line(&node.board);
        return if is_quarto { -outcome_to_score(1) } else { SCORE_DRAW };
    }
    // Pass 1: immediate wins
    let mut empty_squares_mask: u16 = !node.board.occupancy;
    proof {
        lemma_not_bit(occ);
    }
    while empty_squares_mask != 0
        invariant
            1 <= depth < 16,
            tb_hit(tablebase, *node, depth as int) is None,
            forall|s: u16| s < 16 && bit_set(empty_squares_mask, s) ==> !bit_set(node.board.occupancy, s),
            forall|s: u16| s < 16 && !bit_set(node.board.occupancy, s) && !bit_set(empty_squares_mask, s) ==> !#[trigger] wins_at(*node, s),
        decreases empty_squares_mask,
    {
        let square = lowest_bit(empty_squares_mask);
        proof {
            lemma_lowest_bit(empty_squares_mask);
            let t = empty_squares_mask.trailing_zeros() as u16;
            lemma_tz_single(t);
            lemma_set_clear_bit(empty_squares_mask, t);
        }
        let ghost prev = empty_squares_mask;
        empty_squares_mask = empty_squares_mask ^ square;
        assert(empty_squares_mask == prev & !(1u16 << (prev.trailing_zeros() as u16)));
        assert forall|s: u16| s < 16 && bit_set(empty_squares_mask, s) implies bit_set(prev, s) && s != prev.trailing_zeros() as u16 by {
            lemma_set_clear_bit(prev, prev.trailing_zeros() as u16);
        }
        let (_, is_quarto) = check_after_place(&node.board, node.piece_to_place, square);
        if is_quarto {
            proof {
                let t = prev.trailing_zeros() as u16;
                assert(wins_at(*node, t));
            }
            return outcome_to_score((17 - depth) as u8);
        }
    }
    proof {
        assert forall|s: u16| s < 16 implies !#[trigger] wins_at(*node, s) by {
            crate::bits::lemma_bits_u16(0, 0, s, 0);
        }
    }
    // Pass 2: no immediate wins, evaluate all moves with alpha-beta pruning
    let ghost rem = remaining_pieces_mask;
    let ghost ms = moves(*node, rem);
    let ghost mut j: int = 0;
    let mut best_score: i16 = i16::MIN + 1;
    empty_squares_mask = !node.board.occupancy;
    let mut processed: Vec<Node> = Vec::new();
    proof {
        assert(ms.subrange(0, ms.len() as int) =~= ms);
    }
    while empty_squares_mask != 0
        invariant
            1 <= depth < 16,
            tb_hit(tablebase, *node, depth as int) is None,
            depth == popcount(node.board.occupancy) + 1,
            forall|s: u16| s < 16 && bit_set(empty_squares_mask, s) ==> !bit_set(node.board.occupancy, s),
            !immediate_win(*node),
            best_score > i16::MIN,
            alpha > i16::MIN,
            beta > i16::MIN,
            tb_ok(tablebase),
            rem == remaining_pieces_mask,
            ms == moves(*node, rem),
            0 <= j <= ms.len(),
            ms.subrange(j, ms.len() as int) == moves_in(rem, empty_squares_mask),
            forall|c: Node| #[trigger] processed@.contains(c) <==> exists|i: int| 0 <= i < j && canonical_spec(#[trigger] child(*node, ms[i].0, ms[i].1)) == c,
            best_of(*node, rem, depth as int, tablebase, j) <= best_score,
            best_score > alpha_in ==> best_of(*node, rem, depth as int, tablebase, j) == best_score,
            alpha == (if alpha_in >= best_score { alpha_in } else { best_score }),
            alpha < beta,
        decreases empty_squares_mask,
    {
        let square = lowest_bit(empty_squares_mask);
        let ghost t = empty_squares_mask.trailing_zeros() as u16;
        proof {
            lemma_lowest_bit(empty_squares_mask);
            lemma_tz_single(t);
            lemma_set_clear_bit(empty_squares_mask, t);
            lemma_popcount_set_bit(node.board.occupancy, t);
            assert(square == 1u16 << t);
        }
        let ghost prev = empty_squares_mask;
        empty_squares_mask = empty_squares_mask ^ square;
        assert(empty_squares_mask == prev & !(1u16 << t));
        assert forall|s: u16| s < 16 && bit_set(empty_squares_mask, s) implies bit_set(prev, s) && s != t by {
            lemma_set_clear_bit(prev, t);
        }
        let (child_board, _) = check_after_place(&node.board, node.piece_to_place, square);
        assert(child_board.occupancy == node.board.occupancy | (1u16 << t));
        let mut pieces_to_assign = remaining_pieces_mask;
        proof {
            assert(moves_in(rem, prev) == bits_ascending(rem).map_values(|p: u16| (t, p)) + moves_in(rem, empty_squares_mask));
            assert(bits_ascending(rem).subrange(0, bits_ascending(rem).len() as int) =~= bits_ascending(rem));
        }
        let ghost all_pieces = bits_ascending(rem);
        let ghost mut k: int = 0;
        while pieces_to_assign != 0
            invariant
                1 <= depth < 16,
                tb_hit(tablebase, *node, depth as int) is None,
                !immediate_win(*node),
                depth + 1 == popcount(child_board.occupancy) + 1,
                child_board == place_spec(node.board, node.piece_to_place, 1u16 << t),
                best_score > i16::MIN,
                alpha > i16::MIN,
                beta > i16::MIN,
                tb_ok(tablebase),
                rem == remaining_pieces_mask,
                ms == moves(*node, rem),
                all_pieces == bits_ascending(rem),
                0 <= k <= all_pieces.len(),
                all_pieces.subrange(k, all_pieces.len() as int) == bits_ascending(pieces_to_assign),
                0 <= j <= ms.len(),
                ms.subrange(j, ms.len() as int) == bits_ascending(pieces_to_assign).map_values(|p: u16| (t, p)) + moves_in(rem, empty_squares_mask),
                forall|c: Node| #[trigger] processed@.contains(c) <==> exists|i: int| 0 <= i < j && canonical_spec(#[trigger] child(*node, ms[i].0, ms[i].1)) == c,
                best_of(*node, rem, depth as int, tablebase, j) <= best_score,
                best_score > alpha_in ==> best_of(*node, rem, depth as int, tablebase, j) == best_score,
                alpha == (if alpha_in >= best_score { alpha_in } else { best_score }),
                alpha < beta,
            decreases pieces_to_assign,
        {
            let piece_mask = lowest_bit(pieces_to_assign);
            let ghost pta = pieces_to_assign;
            proof {
                lemma_lowest_bit(pieces_to_assign);
            }
            pieces_to_assign = pieces_to_assign ^ piece_mask;
            let piece_index: u8 = piece_mask.trailing_zeros() as u8;
            let ghost p16 = pta.trailing_zeros() as u16;
            proof {
                lemma_tz_single(p16);
                assert(bits_ascending(pta) == seq![p16] + bits_ascending(pieces_to_assign));
                assert(bits_ascending(pta).map_values(|p: u16| (t, p)) =~= seq![(t, p16)] + bits_ascending(pieces_to_assign).map_values(|p: u16| (t, p)));
                assert(ms.subrange(j, ms.len() as int)[0] == (t, p16));
                assert(ms.subrange(j, ms.len() as int).len() >= 1);
                assert(j < ms.len());
                assert(ms[j] == ms.subrange(j, ms.len() as int)[0]);
                assert(ms[j] == (t, p16));
                assert(ms.subrange(j + 1, ms.len() as int) =~= ms.subrange(j, ms.len() as int).subrange(1, ms.len() - j));
                assert(all_pieces.subrange(k + 1, all_pieces.len() as int) =~= all_pieces.subrange(k, all_pieces.len() as int).subrange(1, all_pieces.len() - k));
                assert(piece_index as u16 == p16);
                assert(piece_mask == 1u16 << p16);
            }
            let next_node = Node { board: child_board, piece_to_place: piece_index };
            assert(next_node == child(*node, ms[j].0, ms[j].1));
            let canonical_next_node = canonicalize(&next_node);
            if contains_node(&processed, &canonical_next_node) {
                proof {
                    assert(!first_of_class(*node, ms, j));
                    assert(best_of(*node, rem, depth as int, tablebase, j + 1) == best_of(*node, rem, depth as int, tablebase, j));
                    assert forall|c: Node| #[trigger] processed@.contains(c) <==> exists|i: int| 0 <= i < j + 1 && canonical_spec(#[trigger] child(*node, ms[i].0, ms[i].1)) == c by {
                        if exists|i: int| 0 <= i < j + 1 && canonical_spec(#[trigger] child(*node, ms[i].0, ms[i].1)) == c {
                            let i = choose|i: int| 0 <= i < j + 1 && canonical_spec(#[trigger] child(*node, ms[i].0, ms[i].1)) == c;
                            if i == j {
                                assert(processed@.contains(canonical_next_node));
                            }
                        }
                    }
                    j = j + 1;
                    k = k + 1;
                }
                continue;
            }
            proof {
                assert(first_of_class(*node, ms, j)) by {
                    assert forall|i: int| 0 <= i < j implies canonical_spec(#[trigger] child(*node, ms[i].0, ms[i].1)) != canonical_spec(child(*node, ms[j].0, ms[j].1)) by {
                        if canonical_spec(child(*node, ms[i].0, ms[i].1)) == canonical_spec(child(*node, ms[j].0, ms[j].1)) {
                            assert(processed@.contains(canonical_next_node));
                        }
                    }
                }
            }
            let ghost old_processed = processed@;
            processed.push(canonical_next_node);
            proof {
                assert forall|c: Node| #[trigger] processed@.contains(c) <==> exists|i: int| 0 <= i < j + 1 && canonical_spec(#[trigger] child(*node, ms[i].0, ms[i].1)) == c by {
                    if processed@.contains(c) {
                        let q = choose|q: int| 0 <= q < processed@.len() && processed@[q] == c;
                        if q < old_processed.len() {
                            assert(old_processed.contains(c));
                        } else {
                            assert(canonical_spec(child(*node, ms[j].0, ms[j].1)) == c);
                        }
                    }
                    if exists|i: int| 0 <= i < j + 1 && canonical_spec(#[trigger] child(*node, ms[i].0, ms[i].1)) == c {
                        let i = choose|i: int| 0 <= i < j + 1 && canonical_spec(#[trigger] child(*node, ms[i].0, ms[i].1)) == c;
                        if i < j {
                            assert(old_processed.contains(c));
                            let q = choose|q: int| 0 <= q < old_processed.len() && old_processed[q] == c;
                            assert(processed@[q] == c);
                        } else {
                            assert(processed@[processed@.len() - 1] == c);
                        }
                    }
                }
            }
            let opponent_score = negamax(
                &next_node,
                remaining_pieces_mask ^ piece_mask,
                depth + 1,
                -beta,
                -alpha,
                tablebase,
            );
            let score = -opponent_score;
            let ghost prev_best = best_score;
            let ghost cval = -game_score(next_node, (rem ^ (1u16 << p16)) as u16, depth + 1, tablebase);
            proof {
                assert(best_of(*node, rem, depth as int, tablebase, j + 1)
                    == (if cval > best_of(*node, rem, depth as int, tablebase, j) { cval } else { best_of(*node, rem, depth as int, tablebase, j) }));
            }
            if score > best_score {
                best_score = score;
            }
            if score > alpha {
                alpha = score;
            }
            if alpha >= beta {
                proof {
                    lemma_best_of_monotone(*node, rem, depth as int, tablebase, j + 1, ms.len() as int);
                    assert(game_score(*node, rem, depth as int, tablebase) == best_of(*node, rem, depth as int, tablebase, ms.len() as int));
                }
                return best_score;
            }
            proof {
                j = j + 1;
                k = k + 1;
            }
        }
        proof {
            assert(bits_ascending(0u16) =~= Seq::<u16>::empty());
            assert(bits_ascending(0u16).map_values(|p: u16| (t, p)) =~= Seq::<(u16, u16)>::empty());
            assert(Seq::<(u16, u16)>::empty() + moves_in(rem, empty_squares_mask) =~= moves_in(rem, empty_squares_mask));
        }
    }
    proof {
        assert(moves_in(rem, 0u16) =~= Seq::<(u16, u16)>::empty());
        assert(j == ms.len());
        assert(game_score(*node, rem, depth as int, tablebase) == best_of(*node, rem, depth as int, tablebase, ms.len() as int));
    }
    best_score
}

} // verus!

verus! {

/// XOR of the bits of the pieces standing on squares `0..n`.
pub open spec fn pieces_xor(board: Board, n: nat) -> u16
    decreases n,
{
    if n == 0 {
        0
    } else {
        let s = (n - 1) as u16;
        (pieces_xor(board, (n - 1) as nat) ^ (if bit_set(board.occupancy, s) {
            1u16 << (board.piece_at_spec(1u16 << s) as u16)
        } else {
            0u16
        })) as u16
    }
}

/// All pieces, with the bit of the piece to place and of each piece on the
/// board toggled off.
pub open spec fn unused_pieces_spec(node: Node) -> u16 {
    (0xffffu16 ^ (1u16 << (node.piece_to_place as u16)) ^ pieces_xor(node.board, 16)) as u16
}

/// Compute a 16-bit mask of unused pieces (1 bit per piece id 0..15): every
/// placed piece and the piece to place toggle their bit off.
pub fn compute_unused_pieces_mask(node: &Node) -> (r: u16)
    requires
        node.piece_to_place < 16,
    ensures
        r == unused_pieces_spec(*node),
{
    let mut unused_mask: u16 = 0xFFFFu16;
    let piece_to_place_bit: u16 = 1u16 << (node.piece_to_place as u16);
    unused_mask = unused_mask ^ piece_to_place_bit;
    let mut i: u16 = 0;
    let ghost base = (0xffffu16 ^ (1u16 << (node.piece_to_place as u16))) as u16;
    proof {
        crate::bits::lemma_xor_u16(base, 0, 0);
    }
    while i < 16
        invariant
            i <= 16,
            unused_mask == (base ^ pieces_xor(node.board, i as nat)) as u16,
        decreases 16 - i,
    {
        let square: u16 = 1u16 << i;
        if (node.board.occupancy >> i) & 1u16 == 1u16 {
            let piece_bit: u16 = 1u16 << (node.board.piece_at(square) as u16);
            let ghost px = pieces_xor(node.board, i as nat);
            unused_mask = unused_mask ^ piece_bit;
            assert(unused_mask == (base ^ (px ^ piece_bit) as u16) as u16) by {
                let u = unused_mask;
                crate::bits::lemma_xor_u16(base, px, piece_bit);
            }
        } else {
            let ghost px = pieces_xor(node.board, i as nat);
            proof {
                crate::bits::lemma_xor_u16(px, 0, 0);
            }
        }
        i = i + 1;
    }
    unused_mask
}

/// The depth of a node: 0 for the root, otherwise the pieces on the board plus one.
pub open spec fn depth_of(node: Node) -> int {
    if node == depth_0_sentinel_spec() {
        0
    } else {
        (popcount(node.board.occupancy) + 1) as int
    }
}

/// What an evaluation is owed: a tablebase answer is returned as it is; at
/// depth 16 the last placement decides between a first-player win (1) and a
/// draw (15); a full board is a draw (15) unless it holds a quarto (1);
/// otherwise an immediate quarto ends the game at the next depth.
pub open spec fn evaluate_post(node: Node, tablebase: Option<&TablebaseIndex>, r: u8) -> bool {
    let depth = depth_of(node);
    &&& tb_hit(tablebase, node, depth) matches Some(o) ==> r == o
    &&& tb_hit(tablebase, node, depth) is None && depth == 16 ==> r == (if has_quarto_through(
        place_spec(node.board, node.piece_to_place, last_square(node.board)),
        last_square(node.board).trailing_zeros(),
    ) {
        1u8
    } else {
        OUTCOME_DRAW
    })
    &&& tb_hit(tablebase, node, depth) is None && depth == 17 ==> r == (if has_quarto(node.board) { 1u8 } else { OUTCOME_DRAW })
    &&& tb_hit(tablebase, node, depth) is None && 1 <= depth < 16 && immediate_win(node) ==> r == (17 - depth) as u8
}

/// The inputs that evaluation takes: a well-formed tablebase, if any, and a
/// node that is the root or names a piece.
pub open spec fn evaluable(node: Node, tablebase: Option<&TablebaseIndex>) -> bool {
    &&& tb_ok(tablebase)
    &&& node != depth_0_sentinel_spec() ==> node.piece_to_place < 16
}

/// The outcome of the game value of `node` when the pieces still to hand
/// over (besides the piece to place) are `rem`; the root hands over any piece.
pub open spec fn game_outcome(node: Node, rem: u16, tablebase: Option<&TablebaseIndex>) -> u8 {
    let pieces: u16 = if node == depth_0_sentinel_spec() { 0xFFFFu16 } else { rem };
    score_to_outcome_spec(game_score(node, pieces, depth_of(node), tablebase) as i16)
}

fn evaluate_with_mask(node: &Node, remaining_pieces_opt: Option<u16>, tablebase: Option<&TablebaseIndex>) -> (r: u8)
    requires
        evaluable(*node, tablebase),
    ensures
        evaluate_post(*node, tablebase, r),
        r == game_outcome(*node, match remaining_pieces_opt { Some(m) => m, None => unused_pieces_spec(*node) }, tablebase),
{
    let sentinel = depth_0_sentinel();
    let is_root = node.equals(&sentinel);
    let depth: usize = if is_root { 0 } else { (count_ones(node.board.occupancy) + 1) as usize };
    let remaining_pieces_mask: u16 = if is_root {
        0xFFFFu16
    } else {
        match remaining_pieces_opt {
            Some(m) => m,
            None => compute_unused_pieces_mask(node),
        }
    };
    let alpha = i16::MIN + 1;
    let beta = i16::MAX;
    let score = negamax(node, remaining_pieces_mask, depth, alpha, beta, tablebase);
    proof {
        lemma_score_roundtrip();
        lemma_game_score_range(*node, remaining_pieces_mask, depth as int, tablebase);
        assert(score as int == game_score(*node, remaining_pieces_mask, depth as int, tablebase));
    }
    score_to_outcome(score)
}

/// An outcome turned into a score, from either side, gives the outcome back.
pub proof fn lemma_score_roundtrip()
    ensures
        forall|o: u8, d: int| score_to_outcome_spec(#[trigger] tb_score(o, d)) == o,
        forall|o: u8| 1 <= o <= 16 ==> score_to_outcome_spec(#[trigger] outcome_to_score_spec(o)) == o,
        score_to_outcome_spec(SCORE_DRAW) == OUTCOME_DRAW,
{
    assert forall|o: u8, d: int| score_to_outcome_spec(#[trigger] tb_score(o, d)) == o by {
        let w = o.wrapping_sub(1u8);
        assert(o == 0 ==> w == 255u8);
        assert(o != 0 ==> w == o - 1);
        if o != OUTCOME_DRAW {
            let s = outcome_to_score_spec(o);
            assert(100 <= s <= 355);
            assert(((w as int + 100 - 100 + 1) as u8) == o) by {
                if o == 0 {
                    crate::bits::lemma_nibble_u8(0, 0);
                }
            }
        }
    }
}

/// Evaluate a position by negamax search, with tablebase cutoffs when given.
pub fn evaluate(node: &Node, tablebase: Option<&TablebaseIndex>) -> (r: u8)
    requires
        evaluable(*node, tablebase),
    ensures
        evaluate_post(*node, tablebase, r),
        r == game_outcome(*node, unused_pieces_spec(*node), tablebase),
{
    evaluate_with_mask(node, None, tablebase)
}

/// Evaluate a position whose set of pieces still to be handed out
/// (after the piece to place) is already known.
pub fn evaluate_with_remaining_pieces(node: &Node, remaining_pieces_mask: u16, tablebase: Option<&TablebaseIndex>) -> (r: u8)
    requires
        evaluable(*node, tablebase),
    ensures
        evaluate_post(*node, tablebase, r),
        r == game_outcome(*node, remaining_pieces_mask, tablebase),
{
    evaluate_with_mask(node, Some(remaining_pieces_mask), tablebase)
}

/// The root stands for its one canonical move: unless a tablebase answers
/// for the root itself, its outcome is that of the depth-1 canonical position
/// (piece 0 handed over, the other fifteen pieces still to give).
pub proof fn lemma_root_value(rem: u16, tablebase: Option<&TablebaseIndex>)
    requires
        tb_hit(tablebase, depth_0_sentinel_spec(), 0) is None,
    ensures
        game_outcome(depth_0_sentinel_spec(), rem, tablebase) == game_outcome(depth_1_canonical_spec(), 0xFFFEu16, tablebase),
{
    let d1 = depth_1_canonical_spec();
    crate::bits::lemma_popcount_zero();
    assert(d1 != depth_0_sentinel_spec());
    assert(depth_of(d1) == 1);
    assert((0xFFFFu16 ^ 1u16) as u16 == 0xFFFEu16) by (bit_vector);
    lemma_game_score_range(d1, 0xFFFEu16, 1, tablebase);
    let x = game_score(d1, 0xFFFEu16, 1, tablebase);
    assert(game_score(depth_0_sentinel_spec(), 0xFFFFu16, 0, tablebase) == -x);
}

/// The bits that `bits_ascending` lists are set bits of the mask, and a
/// non-empty mask lists at least one.
proof fn lemma_bits_ascending_members(m: u16)
    ensures
        forall|i: int| 0 <= i < bits_ascending(m).len() ==> (#[trigger] bits_ascending(m)[i]) < 16 && bit_set(m, bits_ascending(m)[i]),
        m != 0 ==> bits_ascending(m).len() > 0,
    decreases m,
{
    if m != 0 {
        lemma_lowest_bit(m);
        let t = m.trailing_zeros() as u16;
        let rest = (m ^ crate::bits::lowest_bit_spec(m)) as u16;
        lemma_bits_ascending_members(rest);
        lemma_tz_single(t);
        lemma_set_clear_bit(m, t);
        assert(rest == m & !(1u16 << t));
        let b = bits_ascending(m);
        assert forall|i: int| 0 <= i < b.len() implies (#[trigger] b[i]) < 16 && bit_set(m, b[i]) by {
            if i > 0 {
                assert(b[i] == bits_ascending(rest)[i - 1]);
            }
        }
    }
}

/// The moves onto the squares of `mask` place on set squares of the mask and
/// hand over pieces of `rem`; there is one when both are non-empty.
proof fn lemma_moves_in_members(rem: u16, mask: u16)
    ensures
        forall|j: int| 0 <= j < moves_in(rem, mask).len() ==> {
            &&& (#[trigger] moves_in(rem, mask)[j]).0 < 16
            &&& moves_in(rem, mask)[j].1 < 16
            &&& bit_set(mask, moves_in(rem, mask)[j].0)
            &&& bit_set(rem, moves_in(rem, mask)[j].1)
        },
        mask != 0 && rem != 0 ==> moves_in(rem, mask).len() > 0,
    decreases mask,
{
    if mask != 0 {
        lemma_lowest_bit(mask);
        let t = mask.trailing_zeros() as u16;
        let rest = (mask ^ crate::bits::lowest_bit_spec(mask)) as u16;
        lemma_moves_in_members(rem, rest);
        lemma_bits_ascending_members(rem);
        lemma_tz_single(t);
        lemma_set_clear_bit(mask, t);
        assert(rest == mask & !(1u16 << t));
        let head = bits_ascending(rem).map_values(|p: u16| (t, p));
        let ms = moves_in(rem, mask);
        assert(ms == head + moves_in(rem, rest));
        assert forall|j: int| 0 <= j < ms.len() implies {
            &&& (#[trigger] ms[j]).0 < 16
            &&& ms[j].1 < 16
            &&& bit_set(mask, ms[j].0)
            &&& bit_set(rem, ms[j].1)
        } by {
            if j < head.len() {
                assert(ms[j] == (t, bits_ascending(rem)[j]));
            } else {
                assert(ms[j] == moves_in(rem, rest)[j - head.len()]);
            }
        }
    }
}

/// A score carries its winner in its sign: it is the score that its own
/// outcome has for the player to move at `depth`.
pub open spec fn sign_ok(v: int, depth: int) -> bool {
    &&& -355 <= v <= 355
    &&& v == tb_score(score_to_outcome_spec(v as i16), depth) as int
}

/// A consistent score one level down, negated, is consistent at this level.
proof fn lemma_sign_flip(v: int, d: int)
    requires
        sign_ok(v, d + 1),
    ensures
        sign_ok(-v, d),
{
    let o = score_to_outcome_spec(v as i16);
    assert(score_to_outcome_spec((-v) as i16) == o);
    if o != OUTCOME_DRAW {
        assert(d % 2 != (d + 1) % 2);
    }
}

/// Clearing a set bit lowers the count of set bits by one.
proof fn lemma_popcount_clear_bit(r: u16, p: u16)
    requires
        p < 16,
        bit_set(r, p),
    ensures
        popcount((r ^ (1u16 << p)) as u16) + 1 == popcount(r),
{
    let y = (r ^ (1u16 << p)) as u16;
    assert(!bit_set(y, p) && (y | (1u16 << p)) as u16 == r) by (bit_vector)
        requires
            p < 16,
            (r >> p) & 1u16 == 1u16,
            y == (r ^ (1u16 << p)) as u16;
    lemma_popcount_set_bit(y, p);
}

/// The positions the search reaches from a consistent position: `depth`
/// counts the pieces on the board plus one, and enough pieces remain to hand
/// over for every placement still to come.
pub open spec fn search_consistent(node: Node, rem: u16, depth: int) -> bool {
    &&& 1 <= depth <= 17
    &&& depth == popcount(node.board.occupancy) + 1
    &&& depth <= 15 ==> popcount(rem) >= 16 - depth
}

/// The children of a consistent position are consistent one level down.
proof fn lemma_child_consistent(node: Node, rem: u16, depth: int, j: int)
    requires
        search_consistent(node, rem, depth),
        depth <= 15,
        0 <= j < moves(node, rem).len(),
    ensures
        ({
            let m = moves(node, rem)[j];
            search_consistent(child(node, m.0, m.1), (rem ^ (1u16 << m.1)) as u16, depth + 1)
        }),
{
    let occ = node.board.occupancy;
    lemma_moves_in_members(rem, (!occ) as u16);
    let m = moves(node, rem)[j];
    lemma_not_bit(occ);
    assert(!bit_set(occ, m.0));
    lemma_popcount_set_bit(occ, m.0);
    lemma_popcount_clear_bit(rem, m.1);
}

/// In a consistent position the search score carries its winner in its sign.
pub proof fn lemma_game_sign(node: Node, rem: u16, depth: int)
    requires
        search_consistent(node, rem, depth),
    ensures
        sign_ok(game_score(node, rem, depth, None), depth),
    decreases 17 - depth, 1int,
{
    if depth == 16 || depth == 17 {
    } else if immediate_win(node) {
        assert((17 - depth) % 2 != depth % 2);
    } else {
        let occ = node.board.occupancy;
        lemma_popcount_full();
        crate::bits::lemma_popcount_zero();
        assert(occ != 0xffffu16);
        assert(rem != 0);
        crate::bits::lemma_xor_u16(occ, 0, 0);
        assert((!occ) as u16 != 0u16) by (bit_vector)
            requires
                occ != 0xffffu16;
        lemma_moves_in_members(rem, (!occ) as u16);
        lemma_best_sign(node, rem, depth, moves(node, rem).len() as int);
    }
}

proof fn lemma_best_sign(node: Node, rem: u16, depth: int, n: int)
    requires
        search_consistent(node, rem, depth),
        depth <= 15,
        1 <= n <= moves(node, rem).len(),
    ensures
        sign_ok(best_of(node, rem, depth, None, n), depth),
    decreases 17 - depth, 0int, n,
{
    let ms = moves(node, rem);
    let m = ms[n - 1];
    let c = child(node, m.0, m.1);
    let rc = (rem ^ (1u16 << m.1)) as u16;
    if n > 1 {
        lemma_best_sign(node, rem, depth, n - 1);
    } else {
        assert(best_of(node, rem, depth, None, 0) == (i16::MIN + 1) as int);
        assert(first_of_class(node, ms, 0));
    }
    if n - 1 < ms.len() && first_of_class(node, ms, n - 1) {
        lemma_child_consistent(node, rem, depth, n - 1);
        lemma_game_sign(c, rc, depth + 1);
        lemma_sign_flip(game_score(c, rc, depth + 1, None), depth);
    } else {
        assert(n > 1);
    }
}

/// The tablebase agrees with the search: wherever it answers for a position
/// the search reaches (a consistent one, or the root with every piece still
/// to hand over), its answer is the outcome of the search without a tablebase.
pub open spec fn tb_agrees(tb: &TablebaseIndex) -> bool {
    &&& forall|x: Node, r: u16, d: int|
        #![trigger tb_hit(Some(tb), x, d), game_score(x, r, d, None)]
        search_consistent(x, r, d) && tb_hit(Some(tb), x, d) is Some
            ==> tb_hit(Some(tb), x, d)->Some_0 == score_to_outcome_spec(game_score(x, r, d, None) as i16)
    &&& tb_hit(Some(tb), depth_0_sentinel_spec(), 0) is Some ==> tb_hit(Some(tb), depth_0_sentinel_spec(), 0)->Some_0
        == score_to_outcome_spec(game_score(depth_0_sentinel_spec(), 0xFFFFu16, 0, None) as i16)
}

/// The depth-1 position under the root, with every other piece still to hand
/// over, is a consistent position.
proof fn lemma_first_move_consistent()
    ensures
        search_consistent(depth_1_canonical_spec(), 0xFFFEu16, 1),
{
    crate::bits::lemma_popcount_zero();
    lemma_popcount_full();
    crate::bits::lemma_bits_u16(0xFFFFu16, 0, 0, 0);
    lemma_popcount_clear_bit(0xFFFFu16, 0);
    assert((0xFFFFu16 ^ (1u16 << 0u16)) as u16 == 0xFFFEu16) by (bit_vector);
}

/// Tablebase cutoffs that agree with the search never change a value: with
/// such a tablebase the search gives what it gives without one, at every
/// position it reaches.
pub proof fn lemma_agreeing_tablebase_keeps_score(tb: &TablebaseIndex, node: Node, rem: u16, depth: int)
    requires
        tb_agrees(tb),
        search_consistent(node, rem, depth) || (node == depth_0_sentinel_spec() && depth == 0 && rem == 0xFFFFu16),
    ensures
        game_score(node, rem, depth, Some(tb)) == game_score(node, rem, depth, None),
    decreases 17 - depth, 1int,
{
    if tb_hit(Some(tb), node, depth) is Some {
        if depth == 0 {
            lemma_first_move_consistent();
            assert((0xFFFFu16 ^ 1u16) as u16 == 0xFFFEu16) by (bit_vector);
            lemma_game_sign(depth_1_canonical_spec(), 0xFFFEu16, 1);
            lemma_sign_flip(game_score(depth_1_canonical_spec(), 0xFFFEu16, 1, None), 0);
        } else {
            lemma_game_sign(node, rem, depth);
            assert(tb_hit(Some(tb), node, depth)->Some_0 == score_to_outcome_spec(game_score(node, rem, depth, None) as i16));
        }
    } else if depth == 0 {
        lemma_first_move_consistent();
        assert((0xFFFFu16 ^ 1u16) as u16 == 0xFFFEu16) by (bit_vector);
        lemma_agreeing_tablebase_keeps_score(tb, depth_1_canonical_spec(), 0xFFFEu16, 1);
    } else if depth == 16 || depth == 17 || immediate_win(node) {
    } else {
        lemma_agreeing_tablebase_keeps_best(tb, node, rem, depth, moves(node, rem).len() as int);
    }
}

/// With a tablebase that agrees with the search, evaluation gives the outcome
/// it gives without a tablebase: for the root, and for every position whose
/// remaining pieces are consistent with its board.
pub proof fn lemma_agreeing_tablebase_keeps_outcome(tb: &TablebaseIndex, node: Node, rem: u16)
    requires
        tb_agrees(tb),
        node == depth_0_sentinel_spec() || search_consistent(node, rem, depth_of(node)),
    ensures
        game_outcome(node, rem, Some(tb)) == game_outcome(node, rem, None),
{
    let pieces: u16 = if node == depth_0_sentinel_spec() { 0xFFFFu16 } else { rem };
    lemma_agreeing_tablebase_keeps_score(tb, node, pieces, depth_of(node));
}

proof fn lemma_agreeing_tablebase_keeps_best(tb: &TablebaseIndex, node: Node, rem: u16, depth: int, n: int)
    requires
        tb_agrees(tb),
        search_consistent(node, rem, depth),
        depth <= 15,
    ensures
        best_of(node, rem, depth, Some(tb), n) == best_of(node, rem, depth, None, n),
    decreases 17 - depth, 0int, n,
{
    if n <= 0 || depth < 0 || depth >= 17 {
    } else {
        lemma_agreeing_tablebase_keeps_best(tb, node, rem, depth, n - 1);
        let ms = moves(node, rem);
        if n - 1 < ms.len() && first_of_class(node, ms, n - 1) {
            let m = ms[n - 1];
            lemma_child_consistent(node, rem, depth, n - 1);
            lemma_agreeing_tablebase_keeps_score(tb, child(node, m.0, m.1), (rem ^ (1u16 << m.1)) as u16, depth + 1);
        }
    }
}

} // verus!
