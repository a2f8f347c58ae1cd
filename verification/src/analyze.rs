//! Position analysis: the legal moves from a position, grouped into orbits of
//! moves that lead to the same canonical position, with their outcomes.

use vstd::prelude::*;
use crate::board::Board;
use crate::node::Node;

verus! {

/// A quarto on a line: its four squares and the attribute they share.
pub struct Quarto {
    pub intersection: [u8; 4],
    pub attribute: String,
}

/// A quarto as values: its squares and the name of the shared attribute.
pub struct QuartoModel {
    pub intersection: Seq<u8>,
    pub attribute: Seq<char>,
}

impl Quarto {
    pub open spec fn model(&self) -> QuartoModel {
        QuartoModel { intersection: self.intersection@, attribute: self.attribute@ }
    }
}

} // verus!

verus! {

/// The squares (0..16) below `n` whose bit is set in `mask`, ascending.
pub open spec fn set_bit_positions(mask: u16, n: nat) -> Seq<u8>
    decreases n,
{
    if n == 0 {
        Seq::empty()
    } else {
        let p = set_bit_positions(mask, (n - 1) as nat);
        if (mask >> ((n - 1) as u16)) & 1u16 == 1u16 {
            p.push((n - 1) as u8)
        } else {
            p
        }
    }
}

/// The squares of a line mask, ascending (a four-square line fills all four).
pub open spec fn squares_of(mask: u16) -> Seq<u8> {
    let p = set_bit_positions(mask, 16);
    Seq::new(4, |k: int| if k < p.len() { p[k] } else { 0u8 })
}

proof fn lemma_set_bit_positions_len(mask: u16, n: nat)
    requires
        n <= 16,
    ensures
        set_bit_positions(mask, n).len() <= n,
        forall|k: int| 0 <= k < set_bit_positions(mask, n).len() ==> #[trigger] set_bit_positions(mask, n)[k] < n,
    decreases n,
{
    if n > 0 {
        lemma_set_bit_positions_len(mask, (n - 1) as nat);
    }
}

/// The squares of a line (four of them) in ascending order.
fn extract_square_indices(line_mask: u16) -> (r: [u8; 4])
    requires
        set_bit_positions(line_mask, 16).len() <= 4,
    ensures
        r@ == squares_of(line_mask),
{
    let mut squares: [u8; 4] = [0u8; 4];
    let mut index: usize = 0;
    let mut pos: u16 = 0;
    while pos < 16
        invariant
            pos <= 16,
            set_bit_positions(line_mask, 16).len() <= 4,
            index == set_bit_positions(line_mask, pos as nat).len(),
            index <= 4,
            forall|k: int| 0 <= k < index ==> squares@[k] == set_bit_positions(line_mask, pos as nat)[k],
            forall|k: int| index <= k < 4 ==> squares@[k] == 0,
        decreases 16 - pos,
    {
        proof {
            lemma_set_bit_positions_prefix(line_mask, (pos + 1) as nat, 16);
        }
        if (line_mask >> pos) & 1u16 == 1u16 {
            squares[index] = pos as u8;
            index = index + 1;
        }
        pos = pos + 1;
    }
    assert(squares@ =~= squares_of(line_mask));
    squares
}

proof fn lemma_set_bit_positions_prefix(mask: u16, m: nat, n: nat)
    requires
        m <= n,
    ensures
        set_bit_positions(mask, m).len() <= set_bit_positions(mask, n).len(),
    decreases n - m,
{
    if m < n {
        lemma_set_bit_positions_prefix(mask, m, (n - 1) as nat);
    }
}

proof fn lemma_line_bits(s: u16)
    by (bit_vector)
    requires
        s < 16,
    ensures
        ((0x000Fu16 >> s) & 1u16 == 1u16) == (s < 4),
        ((0x00F0u16 >> s) & 1u16 == 1u16) == (4 <= s && s < 8),
        ((0x0F00u16 >> s) & 1u16 == 1u16) == (8 <= s && s < 12),
        ((0xF000u16 >> s) & 1u16 == 1u16) == (12 <= s),
        ((0x1111u16 >> s) & 1u16 == 1u16) == (s & 3u16 == 0u16),
        ((0x2222u16 >> s) & 1u16 == 1u16) == (s & 3u16 == 1u16),
        ((0x4444u16 >> s) & 1u16 == 1u16) == (s & 3u16 == 2u16),
        ((0x8888u16 >> s) & 1u16 == 1u16) == (s & 3u16 == 3u16),
        ((0x8421u16 >> s) & 1u16 == 1u16) == (s == 0 || s == 5 || s == 10 || s == 15),
        ((0x1248u16 >> s) & 1u16 == 1u16) == (s == 3 || s == 6 || s == 9 || s == 12),
        (s & 3u16 == 0u16) == (s == 0 || s == 4 || s == 8 || s == 12),
        (s & 3u16 == 1u16) == (s == 1 || s == 5 || s == 9 || s == 13),
        (s & 3u16 == 2u16) == (s == 2 || s == 6 || s == 10 || s == 14),
        (s & 3u16 == 3u16) == (s == 3 || s == 7 || s == 11 || s == 15),
{
}

proof fn lemma_positions_count(m: u16, n: nat)
    ensures
        set_bit_positions(m, n).len() == crate::bits::popcount_upto(m, n),
    decreases n,
{
    if n > 0 {
        lemma_positions_count(m, (n - 1) as nat);
    }
}

/// Every line has exactly four squares.
proof fn lemma_line_squares()
    ensures
        forall|k: int| 0 <= k < 10 ==> #[trigger] set_bit_positions(crate::line_masks::line_masks_spec()[k], 16).len() == 4,
{
    let lines = crate::line_masks::line_masks_spec();
    assert forall|k: int| 0 <= k < 10 implies #[trigger] set_bit_positions(lines[k], 16).len() == 4 by {
        let m = lines[k];
        lemma_positions_count(m, 16);
        lemma_line_bits(0);
        lemma_line_bits(1);
        lemma_line_bits(2);
        lemma_line_bits(3);
        lemma_line_bits(4);
        lemma_line_bits(5);
        lemma_line_bits(6);
        lemma_line_bits(7);
        lemma_line_bits(8);
        lemma_line_bits(9);
        lemma_line_bits(10);
        lemma_line_bits(11);
        lemma_line_bits(12);
        lemma_line_bits(13);
        lemma_line_bits(14);
        lemma_line_bits(15);
        reveal_with_fuel(crate::bits::popcount_upto, 17);
    }
}

} // verus!

verus! {

/// The name of attribute `a` (0..4) when the pieces have it (`has`) or lack it.
pub open spec fn attr_name(a: int, has: bool) -> Seq<char> {
    if has {
        if a == 0 { "hollow"@ } else if a == 1 { "short"@ } else if a == 2 { "square"@ } else { "dark"@ }
    } else {
        if a == 0 { "solid"@ } else if a == 1 { "tall"@ } else if a == 2 { "round"@ } else { "light"@ }
    }
}

/// The names of the attributes shared by all pieces on `line`, attribute 0 first.
pub open spec fn shared_attr_names(board: Board, line: u16, n: int) -> Seq<Seq<char>>
    decreases n,
{
    if n <= 0 {
        Seq::empty()
    } else {
        let prev = shared_attr_names(board, line, n - 1);
        let a = n - 1;
        if board.attr(a) & line == line {
            prev.push(attr_name(a, true))
        } else if board.attr(a) & line == 0 {
            prev.push(attr_name(a, false))
        } else {
            prev
        }
    }
}

fn attr_name_string(a: usize, has: bool) -> (r: String)
    requires
        a < 4,
    ensures
        r@ == attr_name(a as int, has),
{
    if has {
        if a == 0 {
            String::from_str("hollow")
        } else if a == 1 {
            String::from_str("short")
        } else if a == 2 {
            String::from_str("square")
        } else {
            String::from_str("dark")
        }
    } else {
        if a == 0 {
            String::from_str("solid")
        } else if a == 1 {
            String::from_str("tall")
        } else if a == 2 {
            String::from_str("round")
        } else {
            String::from_str("light")
        }
    }
}

/// The attributes that all four pieces of a line share, by name.
fn get_quarto_attribute(board: &Board, line_mask: u16) -> (r: Vec<String>)
    ensures
        r@.len() == shared_attr_names(*board, line_mask, 4).len(),
        forall|k: int| 0 <= k < r@.len() ==> (#[trigger] r@[k])@ == shared_attr_names(*board, line_mask, 4)[k],
{
    let mut attributes: Vec<String> = Vec::new();
    let mut attr: usize = 0;
    while attr < 4
        invariant
            attr <= 4,
            attributes@.len() == shared_attr_names(*board, line_mask, attr as int).len(),
            forall|k: int| 0 <= k < attributes@.len() ==> (#[trigger] attributes@[k])@ == shared_attr_names(*board, line_mask, attr as int)[k],
        decreases 4 - attr,
    {
        let attr_mask = board.attribute_masks[attr];
        if (attr_mask & line_mask) == line_mask {
            attributes.push(attr_name_string(attr, true));
        } else if (attr_mask & line_mask) == 0 {
            attributes.push(attr_name_string(attr, false));
        }
        attr = attr + 1;
    }
    attributes
}

/// The quartos that lines `lines[..n]` make on `board`: for each quarto line
/// in order, one entry per shared attribute.
pub open spec fn quartos_spec(board: Board, lines: Seq<u16>, n: int) -> Seq<QuartoModel>
    decreases n,
{
    if n <= 0 {
        Seq::empty()
    } else {
        let prev = quartos_spec(board, lines, n - 1);
        let line = lines[n - 1];
        if crate::line_masks::is_quarto_line(board, line) {
            prev + shared_attr_names(board, line, 4).map_values(|name: Seq<char>| QuartoModel { intersection: squares_of(line), attribute: name })
        } else {
            prev
        }
    }
}

/// The values of a list of quartos.
pub open spec fn quartos_model(qs: Seq<Quarto>) -> Seq<QuartoModel> {
    qs.map_values(|q: Quarto| q.model())
}

/// The quartos that the given lines (each of four squares) make on a board.
fn collect_quartos(board: &Board, lines: &Vec<u16>) -> (r: Vec<Quarto>)
    requires
        forall|k: int| 0 <= k < lines@.len() ==> #[trigger] set_bit_positions(lines@[k], 16).len() <= 4,
    ensures
        quartos_model(r@) == quartos_spec(*board, lines@, lines@.len() as int),
{
    let mut quartos: Vec<Quarto> = Vec::new();
    let mut k: usize = 0;
    while k < lines.len()
        invariant
            k <= lines.len(),
            forall|j: int| 0 <= j < lines@.len() ==> #[trigger] set_bit_positions(lines@[j], 16).len() <= 4,
            quartos_model(quartos@) == quartos_spec(*board, lines@, k as int),
        decreases lines.len() - k,
    {
        let mask = lines[k];
        if crate::line_masks::check_line_mask(board, mask) {
            let squares = extract_square_indices(mask);
            let names = get_quarto_attribute(board, mask);
            let ghost before = quartos@;
            let mut t: usize = 0;
            while t < names.len()
                invariant
                    t <= names.len(),
                    names@.len() == shared_attr_names(*board, mask, 4).len(),
                    forall|x: int| 0 <= x < names@.len() ==> (#[trigger] names@[x])@ == shared_attr_names(*board, mask, 4)[x],
                    squares@ == squares_of(mask),
                    quartos_model(quartos@) == quartos_model(before) + shared_attr_names(*board, mask, 4).map_values(
                        |name: Seq<char>| QuartoModel { intersection: squares_of(mask), attribute: name }).subrange(0, t as int),
                decreases names.len() - t,
            {
                let attribute = names[t].clone();
                let ghost prevq = quartos@;
                quartos.push(Quarto { intersection: squares, attribute });
                proof {
                    let target = shared_attr_names(*board, mask, 4).map_values(
                        |name: Seq<char>| QuartoModel { intersection: squares_of(mask), attribute: name });
                    assert(quartos@ == prevq.push(Quarto { intersection: squares, attribute }));
                    assert(quartos_model(quartos@) =~= quartos_model(prevq).push(QuartoModel { intersection: squares@, attribute: attribute@ }));
                    assert(target[t as int] == QuartoModel { intersection: squares_of(mask), attribute: names@[t as int]@ });
                    assert(target.subrange(0, t + 1) =~= target.subrange(0, t as int).push(target[t as int]));
                }
                t = t + 1;
                assert(quartos_model(quartos@) =~= quartos_model(before) + shared_attr_names(*board, mask, 4).map_values(
                    |name: Seq<char>| QuartoModel { intersection: squares_of(mask), attribute: name }).subrange(0, t as int));
            }
            assert(shared_attr_names(*board, mask, 4).map_values(|name: Seq<char>| QuartoModel { intersection: squares_of(mask), attribute: name }).subrange(0, names.len() as int)
                =~= shared_attr_names(*board, mask, 4).map_values(|name: Seq<char>| QuartoModel { intersection: squares_of(mask), attribute: name }));
        }
        k = k + 1;
    }
    quartos
}

} // verus!

verus! {

/// Every line through a square has four squares.
proof fn lemma_lines_through_squares(sq: u32)
    ensures
        forall|k: int| 0 <= k < crate::line_masks::lines_through(sq).len()
            ==> #[trigger] set_bit_positions(crate::line_masks::lines_through(sq)[k], 16).len() == 4,
{
    lemma_line_squares();
    let all = crate::line_masks::line_masks_spec();
    let f = |m: u16| (m >> (sq as u16)) & 1u16 == 1u16;
    assert forall|k: int| 0 <= k < crate::line_masks::lines_through(sq).len()
        implies #[trigger] set_bit_positions(crate::line_masks::lines_through(sq)[k], 16).len() == 4 by {
        let m = crate::line_masks::lines_through(sq)[k];
        assert(all.filter(f).contains(m));
        all.lemma_filter_contains_rev(f, m);
        let i = choose|i: int| 0 <= i < all.len() && all[i] == m;
        assert(set_bit_positions(all[i], 16).len() == 4);
    }
}

/// A move from a position, as values.
pub struct CandidateModel {
    pub square: Option<u8>,
    pub piece: Option<u8>,
    pub quartos: Option<Seq<QuartoModel>>,
    pub resulting_node: Node,
    pub canonical_node: Node,
}

/// A move from a position: where the piece goes, which piece is handed over,
/// the quartos it makes, the position it leads to and that position's canonical form.
pub struct MoveCandidate {
    pub square: Option<u8>,
    pub piece: Option<u8>,
    pub quartos: Option<Vec<Quarto>>,
    pub resulting_node: Node,
    pub canonical_node: Node,
}

impl MoveCandidate {
    pub open spec fn model(&self) -> CandidateModel {
        CandidateModel {
            square: self.square,
            piece: self.piece,
            quartos: match self.quartos {
                Some(qs) => Some(quartos_model(qs@)),
                None => None,
            },
            resulting_node: self.resulting_node,
            canonical_node: self.canonical_node,
        }
    }
}

/// Every candidate's canonical position hands over a piece id.
pub open spec fn canon_pieces_ok(cands: Seq<CandidateModel>) -> bool {
    forall|i: int| 0 <= i < cands.len() ==> (#[trigger] cands[i]).canonical_node.piece_to_place < 16
        && cands[i].canonical_node != crate::node::depth_0_sentinel_spec()
}

proof fn lemma_canonicalized_piece(n: Node, r: Node)
    requires
        n.piece_to_place < 16,
        r == crate::canonicalization::canonical_spec(n),
        n != crate::node::depth_0_sentinel_spec() && n.board.occupancy == 0 ==> r == crate::node::depth_1_canonical_spec(),
        n != crate::node::depth_0_sentinel_spec() && n.board.occupancy != 0 ==> crate::canonicalization::is_least_candidate(n, r),
    ensures
        r.piece_to_place < 16,
        r != crate::node::depth_0_sentinel_spec(),
{
    if n.board.occupancy != 0 {
        crate::canonicalization::lemma_least_candidate_piece(n, r);
    }
}

/// The values of a list of candidates.
pub open spec fn candidates_model(cs: Seq<MoveCandidate>) -> Seq<CandidateModel> {
    cs.map_values(|c: MoveCandidate| c.model())
}

/// The moves from the root: hand over any of the sixteen pieces; all lead to
/// the one canonical position of depth 1.
pub open spec fn moves_depth_0_spec() -> Seq<CandidateModel> {
    Seq::new(16, |p: int| CandidateModel {
        square: None,
        piece: Some(p as u8),
        quartos: None,
        resulting_node: Node { board: crate::board::root_board_spec(), piece_to_place: p as u8 },
        canonical_node: crate::node::depth_1_canonical_spec(),
    })
}

fn get_moves_depth_0() -> (r: Vec<MoveCandidate>)
    ensures
        candidates_model(r@) == moves_depth_0_spec(),
        canon_pieces_ok(candidates_model(r@)),
{
    let mut moves: Vec<MoveCandidate> = Vec::new();
    let empty_board = crate::board::root_board();
    let mut piece_index: u8 = 0;
    while piece_index < 16
        invariant
            piece_index <= 16,
            empty_board == crate::board::root_board_spec(),
            candidates_model(moves@) == moves_depth_0_spec().subrange(0, piece_index as int),
        decreases 16 - piece_index,
    {
        let c = MoveCandidate {
            square: None,
            piece: Some(piece_index),
            resulting_node: Node { board: empty_board, piece_to_place: piece_index },
            canonical_node: crate::node::depth_1_canonical(),
            quartos: None,
        };
        let ghost prev = moves@;
        moves.push(c);
        proof {
            assert(moves@ == prev.push(c));
            assert(candidates_model(moves@) =~= candidates_model(prev).push(c.model()));
            assert(c.model() == moves_depth_0_spec()[piece_index as int]);
            assert(moves_depth_0_spec().subrange(0, piece_index + 1) =~= moves_depth_0_spec().subrange(0, piece_index as int).push(moves_depth_0_spec()[piece_index as int]));
        }
        piece_index = piece_index + 1;
        assert(candidates_model(moves@) =~= moves_depth_0_spec().subrange(0, piece_index as int));
    }
    assert(moves_depth_0_spec().subrange(0, 16) =~= moves_depth_0_spec());
    moves
}

/// The board once the piece to place stands on square `sq`.
pub open spec fn placed_board(node: Node, sq: u8) -> Board {
    crate::place::place_spec(node.board, node.piece_to_place, 1u16 << (sq as u16))
}

/// The quartos that placing on `sq` makes, on the lines through `sq`.
pub open spec fn square_quartos(node: Node, sq: u8) -> Seq<QuartoModel> {
    let lines = crate::line_masks::lines_through(sq as u32);
    quartos_spec(placed_board(node, sq), lines, lines.len() as int)
}

/// Placing on `sq` ends the game: it makes a quarto, or it fills the board.
pub open spec fn ends_game(node: Node, sq: u8, depth: int) -> bool {
    square_quartos(node, sq).len() > 0 || depth == 16
}

/// The move that ends the game by placing on `sq`.
pub open spec fn terminal_move(node: Node, sq: u8) -> CandidateModel {
    let qs = square_quartos(node, sq);
    let resulting = Node { board: placed_board(node, sq), piece_to_place: 0 };
    CandidateModel {
        square: Some(sq),
        piece: None,
        quartos: if qs.len() == 0 { None } else { Some(qs) },
        resulting_node: resulting,
        canonical_node: crate::canonicalization::canonical_spec(resulting),
    }
}

/// Square `s` is empty.
pub open spec fn square_empty(node: Node, s: int) -> bool {
    (node.board.occupancy >> (s as u16)) & 1u16 != 1u16
}

/// The game-ending moves on the empty squares below `n`, ascending.
pub open spec fn terminal_moves(node: Node, depth: int, n: int) -> Seq<CandidateModel>
    decreases n,
{
    if n <= 0 {
        Seq::empty()
    } else {
        let prev = terminal_moves(node, depth, n - 1);
        let s = (n - 1) as u8;
        if square_empty(node, n - 1) && ends_game(node, s, depth) {
            prev.push(terminal_move(node, s))
        } else {
            prev
        }
    }
}

/// The empty squares below `n` where placing does not end the game, ascending.
pub open spec fn open_squares(node: Node, depth: int, n: int) -> Seq<u8>
    decreases n,
{
    if n <= 0 {
        Seq::empty()
    } else {
        let prev = open_squares(node, depth, n - 1);
        let s = (n - 1) as u8;
        if square_empty(node, n - 1) && !ends_game(node, s, depth) {
            prev.push(s)
        } else {
            prev
        }
    }
}

/// The move that places on `sq` and hands over piece `p`.
pub open spec fn piece_move(node: Node, sq: u8, p: u8) -> CandidateModel {
    let resulting = Node { board: placed_board(node, sq), piece_to_place: p };
    CandidateModel {
        square: Some(sq),
        piece: Some(p),
        quartos: None,
        resulting_node: resulting,
        canonical_node: crate::canonicalization::canonical_spec(resulting),
    }
}

/// For each piece below `n` still to be handed out, ascending, the moves that
/// place on each open square and hand it over.
pub open spec fn piece_moves(node: Node, depth: int, n: int) -> Seq<CandidateModel>
    decreases n,
{
    if n <= 0 {
        Seq::empty()
    } else {
        let prev = piece_moves(node, depth, n - 1);
        let p = (n - 1) as u8;
        if (crate::evaluate::unused_pieces_spec(node) >> (p as u16)) & 1u16 == 1u16 {
            prev + open_squares(node, depth, 16).map_values(|sq: u8| piece_move(node, sq, p))
        } else {
            prev
        }
    }
}

/// The moves from a position of depth 1 or more: the game-ending placements
/// first, then every other placement with every piece still to hand over.
pub open spec fn moves_general_spec(node: Node, depth: int) -> Seq<CandidateModel> {
    terminal_moves(node, depth, 16) + piece_moves(node, depth, 16)
}

} // verus!

verus! {

fn get_moves_general(node: &Node, depth: usize) -> (r: Vec<MoveCandidate>)
    requires
        node.piece_to_place < 16,
    ensures
        candidates_model(r@) == moves_general_spec(*node, depth as int),
        canon_pieces_ok(candidates_model(r@)),
{
    let mut moves: Vec<MoveCandidate> = Vec::new();
    let mut non_terminal: Vec<(Board, u8)> = Vec::new();
    let available_pieces_mask = crate::evaluate::compute_unused_pieces_mask(node);
    let mut sq: u16 = 0;
    while sq < 16
        invariant
            sq <= 16,
            node.piece_to_place < 16,
            candidates_model(moves@) == terminal_moves(*node, depth as int, sq as int),
            canon_pieces_ok(candidates_model(moves@)),
            non_terminal@.len() == open_squares(*node, depth as int, sq as int).len(),
            forall|k: int| 0 <= k < non_terminal@.len() ==> (#[trigger] non_terminal@[k]).1 == open_squares(*node, depth as int, sq as int)[k]
                && non_terminal@[k].0 == placed_board(*node, non_terminal@[k].1),
        decreases 16 - sq,
    {
        if (node.board.occupancy >> sq) & 1u16 != 1u16 {
            let square_mask: u16 = 1u16 << sq;
            let board_after_placement = crate::place::place(&node.board, node.piece_to_place, square_mask);
            let lines = crate::line_masks::line_masks_index(sq as u32);
            proof {
                lemma_lines_through_squares(sq as u32);
            }
            let quartos = collect_quartos(&board_after_placement, &lines);
            assert(quartos_model(quartos@) == square_quartos(*node, sq as u8));
            if quartos.len() > 0 || depth == 16 {
                let terminal_node = Node { board: board_after_placement, piece_to_place: 0 };
                let canonical_node = crate::canonicalization::canonicalize(&terminal_node);
                proof {
                    lemma_canonicalized_piece(terminal_node, canonical_node);
                }
                let empty = quartos.len() == 0;
                let c = MoveCandidate {
                    square: Some(sq as u8),
                    piece: None,
                    quartos: if empty { None } else { Some(quartos) },
                    resulting_node: terminal_node,
                    canonical_node,
                };
                let ghost prev = moves@;
                moves.push(c);
                proof {
                    assert(candidates_model(moves@) =~= candidates_model(prev).push(c.model()));
                    assert(c.model() == terminal_move(*node, sq as u8));
                }
            } else {
                let ghost prev = non_terminal@;
                non_terminal.push((board_after_placement, sq as u8));
                proof {
                    assert(non_terminal@ == prev.push((board_after_placement, sq as u8)));
                }
            }
        }
        sq = sq + 1;
    }
    let ghost terminal = moves@;
    let ghost opens = open_squares(*node, depth as int, 16);
    let mut p: u16 = 0;
    while p < 16
        invariant
            p <= 16,
            node.piece_to_place < 16,
            available_pieces_mask == crate::evaluate::unused_pieces_spec(*node),
            opens == open_squares(*node, depth as int, 16),
            non_terminal@.len() == opens.len(),
            forall|k: int| 0 <= k < non_terminal@.len() ==> (#[trigger] non_terminal@[k]).1 == opens[k]
                && non_terminal@[k].0 == placed_board(*node, non_terminal@[k].1),
            candidates_model(moves@) == candidates_model(terminal) + piece_moves(*node, depth as int, p as int),
            canon_pieces_ok(candidates_model(moves@)),
            candidates_model(terminal) == terminal_moves(*node, depth as int, 16),
        decreases 16 - p,
    {
        if (available_pieces_mask >> p) & 1u16 == 1u16 {
            let ghost before = candidates_model(moves@);
            let mut t: usize = 0;
            while t < non_terminal.len()
                invariant
                    t <= non_terminal.len(),
                    p < 16,
                    non_terminal@.len() == opens.len(),
                    forall|k: int| 0 <= k < non_terminal@.len() ==> (#[trigger] non_terminal@[k]).1 == opens[k]
                        && non_terminal@[k].0 == placed_board(*node, non_terminal@[k].1),
                    candidates_model(moves@) == before + opens.map_values(|s: u8| piece_move(*node, s, p as u8)).subrange(0, t as int),
                    canon_pieces_ok(candidates_model(moves@)),
                decreases non_terminal.len() - t,
            {
                let (b, s) = non_terminal[t];
                let resulting_node = Node { board: b, piece_to_place: p as u8 };
                let canonical_node = crate::canonicalization::canonicalize(&resulting_node);
                proof {
                    lemma_canonicalized_piece(resulting_node, canonical_node);
                }
                let c = MoveCandidate {
                    square: Some(s),
                    piece: Some(p as u8),
                    quartos: None,
                    resulting_node,
                    canonical_node,
                };
                let ghost prev = moves@;
                moves.push(c);
                proof {
                    let target = opens.map_values(|s2: u8| piece_move(*node, s2, p as u8));
                    assert(candidates_model(moves@) =~= candidates_model(prev).push(c.model()));
                    assert(c.model() == target[t as int]);
                    assert(target.subrange(0, t + 1) =~= target.subrange(0, t as int).push(target[t as int]));
                }
                t = t + 1;
            }
            proof {
                let target = opens.map_values(|s2: u8| piece_move(*node, s2, p as u8));
                assert(target.subrange(0, non_terminal.len() as int) =~= target);
                assert(piece_moves(*node, depth as int, p + 1) == piece_moves(*node, depth as int, p as int) + target);
            }
        }
        p = p + 1;
    }
    moves
}

} // verus!

verus! {

/// Candidate `i` is the first to lead to its canonical position.
pub open spec fn is_orbit_head(cands: Seq<CandidateModel>, i: int) -> bool {
    &&& 0 <= i < cands.len()
    &&& forall|j: int| 0 <= j < i ==> (#[trigger] cands[j]).canonical_node != cands[i].canonical_node
}

/// Candidate `i` lies in the orbit of canonical position `c`.
pub open spec fn in_orbit(cands: Seq<CandidateModel>, c: Node, i: int) -> bool {
    0 <= i < cands.len() && cands[i].canonical_node == c
}

/// The order of moves within an orbit: by resulting position, then by candidate order.
pub open spec fn move_before(cands: Seq<CandidateModel>, i: int, j: int) -> bool {
    ||| cands[i].resulting_node.lt_spec(cands[j].resulting_node)
    ||| (cands[i].resulting_node == cands[j].resulting_node && i < j)
}

/// `idx` lists the candidates of orbit `c`, each once, in move order.
pub open spec fn orbit_listing(cands: Seq<CandidateModel>, c: Node, idx: Seq<usize>) -> bool {
    &&& forall|k: int| 0 <= k < idx.len() ==> #[trigger] in_orbit(cands, c, idx[k] as int)
    &&& forall|k1: int, k2: int| 0 <= k1 < k2 < idx.len() ==> #[trigger] move_before(cands, idx[k1] as int, idx[k2] as int)
    &&& forall|i: int| #[trigger] in_orbit(cands, c, i) ==> idx.contains(i as usize)
}

proof fn lemma_move_before_order(cands: Seq<CandidateModel>, i: int, j: int, k: int)
    ensures
        !move_before(cands, i, i),
        move_before(cands, i, j) && move_before(cands, j, k) ==> move_before(cands, i, k),
        i != j ==> move_before(cands, i, j) || move_before(cands, j, i),
        move_before(cands, i, j) ==> !move_before(cands, j, i),
{
    crate::node::lemma_node_lt_order(cands[i].resulting_node, cands[j].resulting_node, cands[k].resulting_node);
    crate::node::lemma_node_lt_order(cands[j].resulting_node, cands[i].resulting_node, cands[k].resulting_node);
}

/// The first candidate of each orbit, in candidate order.
fn orbit_heads(cands: &Vec<MoveCandidate>) -> (r: (Vec<usize>, Ghost<Seq<int>>))
    ensures
        forall|k: int| 0 <= k < r.0@.len() ==> #[trigger] is_orbit_head(candidates_model(cands@), r.0@[k] as int),
        forall|k1: int, k2: int| 0 <= k1 < k2 < r.0@.len() ==> r.0@[k1] < r.0@[k2],
        forall|i: int| #[trigger] is_orbit_head(candidates_model(cands@), i) ==> r.0@.contains(i as usize),
        r.1@.len() == cands@.len(),
        forall|x: int| #![trigger r.1@[x]] 0 <= x < cands@.len() ==> 0 <= r.1@[x] < r.0@.len()
            && candidates_model(cands@)[x].canonical_node == candidates_model(cands@)[r.0@[r.1@[x]] as int].canonical_node,
{
    let ghost cm = candidates_model(cands@);
    let mut reps: Vec<usize> = Vec::new();
    let ghost mut owner: Seq<int> = Seq::empty();
    let mut i: usize = 0;
    while i < cands.len()
        invariant
            i <= cands.len(),
            cm == candidates_model(cands@),
            cm.len() == cands@.len(),
            forall|k: int| #![trigger reps@[k]] 0 <= k < reps@.len() ==> is_orbit_head(cm, reps@[k] as int) && reps@[k] < i,
            forall|k1: int, k2: int| 0 <= k1 < k2 < reps@.len() ==> reps@[k1] < reps@[k2],
            forall|x: int| 0 <= x < i && #[trigger] is_orbit_head(cm, x) ==> reps@.contains(x as usize),
            owner.len() == i,
            forall|x: int| #![trigger owner[x]] 0 <= x < i ==> 0 <= owner[x] < reps@.len()
                && cm[x].canonical_node == cm[reps@[owner[x]] as int].canonical_node,
        decreases cands.len() - i,
    {
        let mut seen = false;
        let ghost mut at: int = 0;
        let mut k: usize = 0;
        while k < reps.len()
            invariant
                k <= reps.len(),
                i < cands.len(),
                cm == candidates_model(cands@),
                cm.len() == cands@.len(),
                forall|k2: int| 0 <= k2 < reps@.len() ==> #[trigger] reps@[k2] < i,
                seen ==> 0 <= at < k && cm[reps@[at] as int].canonical_node == cm[i as int].canonical_node,
                !seen ==> forall|k2: int| 0 <= k2 < k ==> cm[#[trigger] reps@[k2] as int].canonical_node != cm[i as int].canonical_node,
            decreases reps.len() - k,
        {
            let r = reps[k];
            if cands[r].canonical_node.equals(&cands[i].canonical_node) {
                if !seen {
                    proof {
                        at = k as int;
                    }
                }
                seen = true;
            }
            k = k + 1;
        }
        if !seen {
            proof {
                assert forall|j: int| 0 <= j < i implies (#[trigger] cm[j]).canonical_node != cm[i as int].canonical_node by {
                    assert(cm[j].canonical_node == cm[reps@[owner[j]] as int].canonical_node);
                }
            }
            let ghost prev = reps@;
            reps.push(i);
            proof {
                owner = owner.push(prev.len() as int);
                assert forall|x: int| 0 <= x < i + 1 && #[trigger] is_orbit_head(cm, x) implies reps@.contains(x as usize) by {
                    if x < i {
                        assert(prev.contains(x as usize));
                        let t = choose|t: int| 0 <= t < prev.len() && prev[t] == x as usize;
                        assert(reps@[t] == x as usize);
                    } else {
                        assert(reps@[prev.len() as int] == i);
                    }
                }
            }
        } else {
            proof {
                assert(!is_orbit_head(cm, i as int)) by {
                    assert(reps@[at] < i);
                    assert(cm[reps@[at] as int].canonical_node == cm[i as int].canonical_node);
                }
                owner = owner.push(at);
            }
        }
        i = i + 1;
    }
    (reps, Ghost(owner))
}

} // verus!

verus! {

/// The candidates of the orbit of `c`, in move order.
fn orbit_members(cands: &Vec<MoveCandidate>, c: &Node) -> (r: Vec<usize>)
    ensures
        orbit_listing(candidates_model(cands@), *c, r@),
{
    let ghost cm = candidates_model(cands@);
    let mut list: Vec<usize> = Vec::new();
    let mut i: usize = 0;
    while i < cands.len()
        invariant
            i <= cands.len(),
            cm == candidates_model(cands@),
            cm.len() == cands@.len(),
            forall|k: int| #![trigger list@[k]] 0 <= k < list@.len() ==> in_orbit(cm, *c, list@[k] as int) && list@[k] < i,
            forall|k1: int, k2: int| 0 <= k1 < k2 < list@.len() ==> #[trigger] move_before(cm, list@[k1] as int, list@[k2] as int),
            forall|x: int| 0 <= x < i && #[trigger] in_orbit(cm, *c, x) ==> list@.contains(x as usize),
        decreases cands.len() - i,
    {
        if cands[i].canonical_node.equals(c) {
            let mut pos: usize = 0;
            while pos < list.len() && !cands[i].resulting_node.less_than(&cands[list[pos]].resulting_node)
                invariant
                    pos <= list.len(),
                    i < cands.len(),
                    cm == candidates_model(cands@),
                    cm.len() == cands@.len(),
                    forall|k: int| #![trigger list@[k]] 0 <= k < list@.len() ==> in_orbit(cm, *c, list@[k] as int) && list@[k] < i,
                    forall|q: int| #![trigger list@[q]] 0 <= q < pos ==> !cm[i as int].resulting_node.lt_spec(cm[list@[q] as int].resulting_node),
                decreases list.len() - pos,
            {
                pos = pos + 1;
            }
            let ghost prev = list@;
            list.insert(pos, i);
            proof {
                assert(list@ == prev.insert(pos as int, i));
                assert forall|k: int| #![trigger list@[k]] 0 <= k < list@.len() implies in_orbit(cm, *c, list@[k] as int) && list@[k] < i + 1 by {
                    if k < pos {
                        assert(list@[k] == prev[k]);
                    } else if k > pos {
                        assert(list@[k] == prev[k - 1]);
                    }
                }
                assert forall|k1: int, k2: int| 0 <= k1 < k2 < list@.len()
                    implies #[trigger] move_before(cm, list@[k1] as int, list@[k2] as int) by {
                    let a = list@[k1] as int;
                    let b = list@[k2] as int;
                    if k1 == pos {
                        // i goes before everything after it
                        assert(b == prev[k2 - 1]);
                        assert(cm[i as int].resulting_node.lt_spec(cm[prev[pos as int] as int].resulting_node));
                        lemma_move_before_order(cm, i as int, prev[pos as int] as int, b);
                        if k2 - 1 > pos {
                            assert(move_before(cm, prev[pos as int] as int, prev[k2 - 1] as int));
                        }
                    } else if k2 == pos {
                        assert(a == prev[k1]);
                        assert(!cm[i as int].resulting_node.lt_spec(cm[a].resulting_node));
                        crate::node::lemma_node_lt_order(cm[a].resulting_node, cm[i as int].resulting_node, cm[a].resulting_node);
                    } else {
                        let p1 = if k1 < pos { k1 } else { k1 - 1 };
                        let p2 = if k2 < pos { k2 } else { k2 - 1 };
                        assert(a == prev[p1] && b == prev[p2]);
                        assert(move_before(cm, prev[p1] as int, prev[p2] as int));
                    }
                }
                assert forall|x: int| 0 <= x < i + 1 && #[trigger] in_orbit(cm, *c, x) implies list@.contains(x as usize) by {
                    if x < i {
                        assert(prev.contains(x as usize));
                        let t = choose|t: int| 0 <= t < prev.len() && prev[t] == x as usize;
                        if t < pos {
                            assert(list@[t] == x as usize);
                        } else {
                            assert(list@[t + 1] == x as usize);
                        }
                    } else {
                        assert(list@[pos as int] == i);
                    }
                }
            }
        }
        i = i + 1;
    }
    list
}

} // verus!

verus! {

/// Lexicographic order of character sequences (a proper prefix comes first).
pub open spec fn seq_lt(a: Seq<char>, b: Seq<char>) -> bool
    decreases a.len(),
{
    if a.len() == 0 {
        b.len() > 0
    } else if b.len() == 0 {
        false
    } else if a[0] != b[0] {
        a[0] < b[0]
    } else {
        seq_lt(a.drop_first(), b.drop_first())
    }
}

proof fn lemma_seq_lt_skip(a: Seq<char>, b: Seq<char>, i: int)
    requires
        0 <= i <= a.len(),
        i <= b.len(),
        forall|j: int| 0 <= j < i ==> a[j] == b[j],
    ensures
        seq_lt(a, b) == seq_lt(a.skip(i), b.skip(i)),
    decreases i,
{
    if i > 0 {
        assert(a[0] == b[0]);
        lemma_seq_lt_skip(a.drop_first(), b.drop_first(), i - 1);
        assert(a.drop_first().skip(i - 1) =~= a.skip(i));
        assert(b.drop_first().skip(i - 1) =~= b.skip(i));
    } else {
        assert(a.skip(0) =~= a);
        assert(b.skip(0) =~= b);
    }
}

/// Whether `a` sorts before `b`, character by character.
fn str_lt(a: &String, b: &String) -> (r: bool)
    ensures
        r == seq_lt(a@, b@),
{
    let sa = a.as_str();
    let sb = b.as_str();
    let la = sa.unicode_len();
    let lb = sb.unicode_len();
    let mut i: usize = 0;
    while i < la && i < lb
        invariant
            i <= la,
            i <= lb,
            la == a@.len(),
            lb == b@.len(),
            sa@ == a@,
            sb@ == b@,
            forall|j: int| 0 <= j < i ==> a@[j] == b@[j],
        decreases la - i,
    {
        let ca = sa.get_char(i);
        let cb = sb.get_char(i);
        if ca != cb {
            proof {
                lemma_seq_lt_skip(a@, b@, i as int);
                assert(a@.skip(i as int)[0] == ca);
                assert(b@.skip(i as int)[0] == cb);
            }
            return ca < cb;
        }
        i = i + 1;
    }
    proof {
        lemma_seq_lt_skip(a@, b@, i as int);
    }
    i < lb
}

/// One move of an orbit, as values.
pub struct MoveModel {
    pub square: Option<u8>,
    pub piece: Option<u8>,
    pub hex: Seq<char>,
    pub quarto: Option<Seq<QuartoModel>>,
}

/// One move of an orbit: where the piece goes, which piece is handed over,
/// the hex form of the resulting position, and the quartos it makes.
pub struct Move {
    pub square: Option<u8>,
    pub piece: Option<u8>,
    pub hex: String,
    pub quarto: Option<Vec<Quarto>>,
}

impl Move {
    pub open spec fn model(&self) -> MoveModel {
        MoveModel {
            square: self.square,
            piece: self.piece,
            hex: self.hex@,
            quarto: match self.quarto {
                Some(qs) => Some(quartos_model(qs@)),
                None => None,
            },
        }
    }
}

/// The move that candidate `c` shows as.
pub open spec fn move_of(c: CandidateModel) -> MoveModel {
    MoveModel {
        square: c.square,
        piece: c.piece,
        hex: crate::parsing::format_hex_spec(c.resulting_node),
        quarto: c.quartos,
    }
}

/// The moves that lead to one canonical position, with that position's outcome.
pub struct Orbit {
    pub canon_hex: String,
    pub outcome: u8,
    pub moves: Vec<Move>,
}

/// The analysis of a position: its two text forms, its canonical form, and
/// either the quartos already on the board or the orbits of its moves.
pub struct AnalysisResult {
    pub ply_grid: String,
    pub ply_hex: String,
    pub canon_hex: String,
    pub quartos: Option<Vec<Quarto>>,
    pub orbits: Option<Vec<Orbit>>,
}

fn clone_quartos(qs: &Vec<Quarto>) -> (r: Vec<Quarto>)
    ensures
        quartos_model(r@) == quartos_model(qs@),
{
    let mut out: Vec<Quarto> = Vec::new();
    let mut k: usize = 0;
    while k < qs.len()
        invariant
            k <= qs.len(),
            quartos_model(out@) == quartos_model(qs@).subrange(0, k as int),
        decreases qs.len() - k,
    {
        let q = Quarto { intersection: qs[k].intersection, attribute: qs[k].attribute.clone() };
        let ghost prev = out@;
        out.push(q);
        proof {
            assert(quartos_model(out@) =~= quartos_model(prev).push(q.model()));
            assert(quartos_model(qs@).subrange(0, k + 1) =~= quartos_model(qs@).subrange(0, k as int).push(quartos_model(qs@)[k as int]));
        }
        k = k + 1;
    }
    assert(quartos_model(qs@).subrange(0, qs.len() as int) =~= quartos_model(qs@));
    out
}

} // verus!

verus! {

/// Orbit `a` sorts strictly before orbit `b`: a higher score for the player
/// to move, or an equal score and a smaller canonical hex form.
pub open spec fn orbit_key_lt(a: Orbit, b: Orbit, is_second_player: bool) -> bool {
    let sa = crate::evaluate::outcome_to_sort_score_spec(a.outcome, is_second_player);
    let sb = crate::evaluate::outcome_to_sort_score_spec(b.outcome, is_second_player);
    sa > sb || (sa == sb && seq_lt(a.canon_hex@, b.canon_hex@))
}

/// The first position from `i` on whose orbit sorts strictly after `x`.
pub open spec fn first_after(s: Seq<Orbit>, x: Orbit, is_second_player: bool, i: int) -> int
    decreases s.len() - i,
{
    if i >= s.len() || i < 0 {
        s.len() as int
    } else if orbit_key_lt(x, s[i], is_second_player) {
        i
    } else {
        first_after(s, x, is_second_player, i + 1)
    }
}

/// The stable sort of orbits by key: each orbit in turn goes after every
/// orbit already placed that does not sort strictly after it.
pub open spec fn stable_sorted(s: Seq<Orbit>, is_second_player: bool) -> Seq<Orbit>
    decreases s.len(),
{
    if s.len() == 0 {
        s
    } else {
        let prev = stable_sorted(s.drop_last(), is_second_player);
        prev.insert(first_after(prev, s.last(), is_second_player, 0), s.last())
    }
}

proof fn lemma_first_after_range(s: Seq<Orbit>, x: Orbit, f: bool, i: int)
    requires
        0 <= i <= s.len(),
    ensures
        i <= first_after(s, x, f, i) <= s.len(),
    decreases s.len() - i,
{
    if i < s.len() && !orbit_key_lt(x, s[i], f) {
        lemma_first_after_range(s, x, f, i + 1);
    }
}

proof fn lemma_stable_sorted_len(s: Seq<Orbit>, f: bool)
    ensures
        stable_sorted(s, f).len() == s.len(),
    decreases s.len(),
{
    if s.len() > 0 {
        lemma_stable_sorted_len(s.drop_last(), f);
        lemma_first_after_range(stable_sorted(s.drop_last(), f), s.last(), f, 0);
    }
}

/// Two orbits sort alike: the same score for the player to move and the same
/// canonical hex form.
pub open spec fn same_key(a: Orbit, b: Orbit, f: bool) -> bool {
    &&& crate::evaluate::outcome_to_sort_score_spec(a.outcome, f) == crate::evaluate::outcome_to_sort_score_spec(b.outcome, f)
    &&& a.canon_hex@ == b.canon_hex@
}

/// The orbits of `s` that sort alike with `x`, in their order in `s`.
pub open spec fn key_class(s: Seq<Orbit>, x: Orbit, f: bool) -> Seq<Orbit> {
    s.filter(|o: Orbit| same_key(o, x, f))
}

/// `r` is `s` sorted stably by key: the same orbits, none sorting strictly
/// before an earlier one, and the orbits that sort alike in their order in `s`.
pub open spec fn is_stable_sort_of(r: Seq<Orbit>, s: Seq<Orbit>, f: bool) -> bool {
    &&& r.to_multiset() == s.to_multiset()
    &&& forall|i: int, j: int| 0 <= i < j < r.len() ==> !orbit_key_lt(#[trigger] r[j], #[trigger] r[i], f)
    &&& forall|x: Orbit| #[trigger] key_class(r, x, f) == key_class(s, x, f)
}

proof fn lemma_seq_lt_irrefl(a: Seq<char>)
    ensures
        !seq_lt(a, a),
    decreases a.len(),
{
    if a.len() > 0 {
        lemma_seq_lt_irrefl(a.drop_first());
    }
}

proof fn lemma_seq_lt_trans(a: Seq<char>, b: Seq<char>, c: Seq<char>)
    requires
        seq_lt(a, b),
        seq_lt(b, c),
    ensures
        seq_lt(a, c),
    decreases a.len(),
{
    if a.len() > 0 && a[0] == b[0] && b[0] == c[0] {
        lemma_seq_lt_trans(a.drop_first(), b.drop_first(), c.drop_first());
    }
}

proof fn lemma_key_lt_order(a: Orbit, b: Orbit, c: Orbit, f: bool)
    ensures
        !orbit_key_lt(a, a, f),
        orbit_key_lt(a, b, f) && orbit_key_lt(b, c, f) ==> orbit_key_lt(a, c, f),
        same_key(a, b, f) ==> (orbit_key_lt(a, c, f) == orbit_key_lt(b, c, f)),
{
    lemma_seq_lt_irrefl(a.canon_hex@);
    if orbit_key_lt(a, b, f) && orbit_key_lt(b, c, f) {
        let sa = crate::evaluate::outcome_to_sort_score_spec(a.outcome, f);
        let sb = crate::evaluate::outcome_to_sort_score_spec(b.outcome, f);
        let sc = crate::evaluate::outcome_to_sort_score_spec(c.outcome, f);
        if sa == sb && sb == sc {
            lemma_seq_lt_trans(a.canon_hex@, b.canon_hex@, c.canon_hex@);
        }
    }
}

proof fn lemma_first_after_props(s: Seq<Orbit>, x: Orbit, f: bool, i: int)
    requires
        0 <= i <= s.len(),
    ensures
        forall|k: int| i <= k < first_after(s, x, f, i) ==> !orbit_key_lt(x, #[trigger] s[k], f),
        first_after(s, x, f, i) < s.len() ==> orbit_key_lt(x, s[first_after(s, x, f, i)], f),
    decreases s.len() - i,
{
    if i < s.len() && !orbit_key_lt(x, s[i], f) {
        lemma_first_after_props(s, x, f, i + 1);
    }
}

/// `stable_sorted` is a stable sort by key.
proof fn lemma_stable_sorted_is_stable(s: Seq<Orbit>, f: bool)
    ensures
        is_stable_sort_of(stable_sorted(s, f), s, f),
    decreases s.len(),
{
    broadcast use vstd::seq_lib::group_to_multiset_ensures;
    broadcast use vstd::seq_lib::lemma_multiset_commutative;
    broadcast use vstd::multiset::group_multiset_axioms;
    broadcast use Seq::filter_distributes_over_add;
    broadcast use Seq::lemma_filter_push;
    if s.len() == 0 {
        return;
    }
    let d = s.drop_last();
    let x = s.last();
    lemma_stable_sorted_is_stable(d, f);
    let prev = stable_sorted(d, f);
    lemma_stable_sorted_len(d, f);
    lemma_first_after_range(prev, x, f, 0);
    lemma_first_after_props(prev, x, f, 0);
    let pos = first_after(prev, x, f, 0);
    let r = prev.insert(pos, x);
    assert(stable_sorted(s, f) == r);
    let a = prev.subrange(0, pos);
    let b = prev.subrange(pos, prev.len() as int);
    assert(prev =~= a + b);
    assert(r =~= a + seq![x] + b);
    assert(s =~= d.push(x));
    // the same orbits
    assert(r.to_multiset() =~= s.to_multiset()) by {
        assert((a + seq![x] + b).to_multiset() =~= (a + seq![x]).to_multiset().add(b.to_multiset()));
        assert((a + seq![x]).to_multiset() =~= a.to_multiset().add(seq![x].to_multiset()));
        assert(seq![x] =~= Seq::<Orbit>::empty().push(x));
        assert(prev.to_multiset() =~= a.to_multiset().add(b.to_multiset()));
    }
    // sorted
    assert forall|i: int, j: int| 0 <= i < j < r.len() implies !orbit_key_lt(#[trigger] r[j], #[trigger] r[i], f) by {
        if j < pos {
            assert(r[i] == prev[i] && r[j] == prev[j]);
        } else if j == pos {
            assert(r[i] == prev[i] && r[j] == x);
        } else if i < pos {
            assert(r[i] == prev[i] && r[j] == prev[j - 1]);
        } else if i == pos {
            assert(r[i] == x && r[j] == prev[j - 1]);
            lemma_key_lt_order(prev[j - 1], x, prev[pos], f);
            lemma_key_lt_order(prev[pos], x, prev[pos], f);
            if j - 1 > pos {
                assert(!orbit_key_lt(prev[j - 1], prev[pos], f));
            }
        } else {
            assert(r[i] == prev[i - 1] && r[j] == prev[j - 1]);
        }
    }
    // orbits that sort alike keep their order
    assert forall|y: Orbit| #[trigger] key_class(r, y, f) == key_class(s, y, f) by {
        let p = |o: Orbit| same_key(o, y, f);
        assert(key_class(d, y, f) == key_class(prev, y, f));
        assert(key_class(prev, y, f) == a.filter(p) + b.filter(p));
        assert(key_class(r, y, f) == a.filter(p) + seq![x].filter(p) + b.filter(p));
        if same_key(x, y, f) {
            assert(b.all(|o: Orbit| !p(o))) by {
                assert forall|k: int| 0 <= k < b.len() implies !p(#[trigger] b[k]) by {
                    assert(b[k] == prev[pos + k]);
                    if p(b[k]) {
                        lemma_key_lt_order(x, prev[pos + k], prev[pos], f);
                        lemma_key_lt_order(prev[pos], prev[pos], prev[pos], f);
                        assert(same_key(x, prev[pos + k], f));
                        assert(orbit_key_lt(prev[pos + k], prev[pos], f));
                        if k > 0 {
                            assert(!orbit_key_lt(prev[pos + k], prev[pos], f));
                        }
                    }
                }
            }
            b.lemma_all_neg_filter_empty(p);
            assert(b.filter(p) =~= Seq::<Orbit>::empty());
            assert(seq![x].filter(p) =~= seq![x]) by {
                assert(seq![x] =~= Seq::<Orbit>::empty().push(x));
            }
            assert(s.filter(p) == d.filter(p).push(x));
            assert(key_class(r, y, f) =~= key_class(s, y, f));
        } else {
            assert(seq![x].filter(p) =~= Seq::<Orbit>::empty()) by {
                assert(seq![x] =~= Seq::<Orbit>::empty().push(x));
            }
            assert(s.filter(p) == d.filter(p));
            assert(key_class(r, y, f) =~= key_class(s, y, f));
        }
    }
}

fn orbit_key_less(a: &Orbit, b: &Orbit, is_second_player: bool) -> (r: bool)
    ensures
        r == orbit_key_lt(*a, *b, is_second_player),
{
    let sa = crate::evaluate::outcome_to_sort_score(a.outcome, is_second_player);
    let sb = crate::evaluate::outcome_to_sort_score(b.outcome, is_second_player);
    if sa != sb {
        sa > sb
    } else {
        str_lt(&a.canon_hex, &b.canon_hex)
    }
}

/// Sort orbits by descending score for the player to move, then by canonical
/// hex form; orbits with equal keys keep their order.
pub fn sort_orbits(orbits: &mut Vec<Orbit>, is_second_player: bool)
    ensures
        is_stable_sort_of(final(orbits)@, old(orbits)@, is_second_player),
        final(orbits)@ == stable_sorted(old(orbits)@, is_second_player),
{
    let ghost start = orbits@;
    let n = orbits.len();
    let mut sorted: Vec<Orbit> = Vec::new();
    let mut k: usize = 0;
    while k < n
        invariant
            k <= n,
            n == start.len(),
            orbits@ == start.subrange(k as int, n as int),
            sorted@ == stable_sorted(start.subrange(0, k as int), is_second_player),
        decreases n - k,
    {
        let x = orbits.remove(0);
        assert(x == start[k as int]);
        proof {
            lemma_stable_sorted_len(start.subrange(0, k as int), is_second_player);
        }
        let mut pos: usize = 0;
        while pos < sorted.len() && !orbit_key_less(&x, &sorted[pos], is_second_player)
            invariant
                pos <= sorted.len(),
                first_after(sorted@, x, is_second_player, 0) == first_after(sorted@, x, is_second_player, pos as int),
            decreases sorted.len() - pos,
        {
            pos = pos + 1;
        }
        let ghost prev = sorted@;
        sorted.insert(pos, x);
        proof {
            let s1 = start.subrange(0, k + 1);
            assert(s1.drop_last() =~= start.subrange(0, k as int));
            assert(s1.last() == x);
            assert(first_after(prev, x, is_second_player, pos as int) == pos);
        }
        k = k + 1;
        assert(orbits@ =~= start.subrange(k as int, n as int));
    }
    assert(start.subrange(0, n as int) =~= start);
    proof {
        lemma_stable_sorted_is_stable(start, is_second_player);
    }
    *orbits = sorted;
}

} // verus!

verus! {

/// The outcome shown for the orbit headed by candidate `head`: a quarto move
/// wins at once; otherwise the canonical position is evaluated: its game
/// outcome with the pieces not on its board still to hand over.
pub open spec fn orbit_outcome_ok(
    cands: Seq<CandidateModel>, head: int, depth: int, tablebase: Option<&crate::tablebase::TablebaseIndex>, o: u8,
) -> bool {
    if cands[head].quartos is Some {
        o == (17 - depth) as u8
    } else {
        &&& crate::evaluate::evaluate_post(cands[head].canonical_node, tablebase, o)
        &&& o == crate::evaluate::game_outcome(
            cands[head].canonical_node,
            crate::evaluate::unused_pieces_spec(cands[head].canonical_node),
            tablebase,
        )
    }
}

/// The values of a list of moves.
pub open spec fn moves_model(ms: Seq<Move>) -> Seq<MoveModel> {
    ms.map_values(|m: Move| m.model())
}

/// The moves that the listed candidates show as.
pub open spec fn listing_moves(cands: Seq<CandidateModel>, idx: Seq<usize>) -> Seq<MoveModel> {
    idx.map_values(|i: usize| move_of(cands[i as int]))
}

/// Orbit `o` is the orbit headed by candidate `head`, whose candidates in
/// move order are `idx`.
pub open spec fn orbit_matches(
    cands: Seq<CandidateModel>, depth: int, tablebase: Option<&crate::tablebase::TablebaseIndex>, o: Orbit, head: usize, idx: Seq<usize>,
) -> bool {
    &&& is_orbit_head(cands, head as int)
    &&& orbit_listing(cands, cands[head as int].canonical_node, idx)
    &&& o.canon_hex@ == crate::parsing::format_hex_spec(cands[head as int].canonical_node)
    &&& moves_model(o.moves@) == listing_moves(cands, idx)
    &&& orbit_outcome_ok(cands, head as int, depth, tablebase, o.outcome)
}

/// `unsorted` holds one orbit per orbit head, in candidate order.
pub open spec fn orbits_built(
    cands: Seq<CandidateModel>, depth: int, tablebase: Option<&crate::tablebase::TablebaseIndex>,
    unsorted: Seq<Orbit>, heads: Seq<usize>, listings: Seq<Seq<usize>>,
) -> bool {
    &&& heads.len() == unsorted.len()
    &&& listings.len() == unsorted.len()
    &&& forall|k1: int, k2: int| 0 <= k1 < k2 < heads.len() ==> heads[k1] < heads[k2]
    &&& forall|i: int| #[trigger] is_orbit_head(cands, i) ==> heads.contains(i as usize)
    &&& forall|k: int| 0 <= k < unsorted.len() ==> #[trigger] orbit_matches(cands, depth, tablebase, unsorted[k], heads[k], listings[k])
}

/// The moves considered from a position of depth `depth`.
pub open spec fn analysis_candidates(node: Node, depth: int) -> Seq<CandidateModel> {
    if depth == 0 {
        moves_depth_0_spec()
    } else {
        moves_general_spec(node, depth)
    }
}

/// The orbits that the analysis reports: those built from the candidates,
/// stable-sorted for the player to move.
pub open spec fn analysis_orbits(
    node: Node, tablebase: Option<&crate::tablebase::TablebaseIndex>, os: Seq<Orbit>,
    unsorted: Seq<Orbit>, heads: Seq<usize>, listings: Seq<Seq<usize>>,
) -> bool {
    let depth = crate::evaluate::depth_of(node);
    &&& orbits_built(analysis_candidates(node, depth), depth, tablebase, unsorted, heads, listings)
    &&& os == stable_sorted(unsorted, depth % 2 == 0)
}

/// The quartos on the board, line by line.
pub open spec fn board_quartos(node: Node) -> Seq<QuartoModel> {
    quartos_spec(node.board, crate::line_masks::line_masks_spec(), 10)
}

fn all_lines() -> (r: Vec<u16>)
    ensures
        r@ == crate::line_masks::line_masks_spec(),
{
    let arr = crate::line_masks::line_masks();
    let mut v: Vec<u16> = Vec::new();
    let mut k: usize = 0;
    while k < 10
        invariant
            k <= 10,
            arr@ == crate::line_masks::line_masks_spec(),
            v@ == arr@.subrange(0, k as int),
        decreases 10 - k,
    {
        v.push(arr[k]);
        k = k + 1;
        assert(v@ =~= arr@.subrange(0, k as int));
    }
    assert(arr@.subrange(0, 10) =~= arr@);
    v
}

fn orbit_move_list(cands: &Vec<MoveCandidate>, members: &Vec<usize>) -> (r: Vec<Move>)
    requires
        forall|k: int| 0 <= k < members@.len() ==> #[trigger] members@[k] < cands@.len(),
    ensures
        moves_model(r@) == listing_moves(candidates_model(cands@), members@),
{
    let mut moves: Vec<Move> = Vec::new();
    let mut k: usize = 0;
    while k < members.len()
        invariant
            k <= members.len(),
            forall|j: int| 0 <= j < members@.len() ==> #[trigger] members@[j] < cands@.len(),
            moves_model(moves@) == listing_moves(candidates_model(cands@), members@).subrange(0, k as int),
        decreases members.len() - k,
    {
        let i = members[k];
        let quarto = match &cands[i].quartos {
            Some(q) => Some(clone_quartos(q)),
            None => None,
        };
        let m = Move {
            square: cands[i].square,
            piece: cands[i].piece,
            hex: crate::parsing::format_node_hex(&cands[i].resulting_node),
            quarto,
        };
        let ghost prev = moves@;
        moves.push(m);
        proof {
            let target = listing_moves(candidates_model(cands@), members@);
            assert(moves_model(moves@) =~= moves_model(prev).push(m.model()));
            assert(m.model() == target[k as int]);
            assert(target.subrange(0, k + 1) =~= target.subrange(0, k as int).push(target[k as int]));
        }
        k = k + 1;
    }
    assert(listing_moves(candidates_model(cands@), members@).subrange(0, members.len() as int)
        =~= listing_moves(candidates_model(cands@), members@));
    moves
}

/// Analyze a position: its grid and hex forms, its canonical hex form, and
/// either the quartos on the board (from depth 5 on, when there are any) or
/// the orbits of its moves with their outcomes, best first for the player to move.
#[verifier::spinoff_prover]
#[verifier::rlimit(60)]
pub fn analyze(node: &Node, tablebase: Option<&crate::tablebase::TablebaseIndex>) -> (r: AnalysisResult)
    requires
        *node == crate::node::depth_0_sentinel_spec() || node.piece_to_place < 16,
        crate::evaluate::tb_ok(tablebase),
    ensures
        r.ply_grid@ == crate::parsing::format_grid_spec(*node),
        r.ply_hex@ == crate::parsing::format_hex_spec(*node),
        r.canon_hex@ == crate::parsing::format_hex_spec(crate::canonicalization::canonical_spec(*node)),
        crate::evaluate::depth_of(*node) > 4 && board_quartos(*node).len() > 0 ==> {
            &&& r.quartos matches Some(q) && quartos_model(q@) == board_quartos(*node)
            &&& r.orbits is None
        },
        *node != crate::node::depth_0_sentinel_spec() ==> (r.quartos is Some <==> crate::line_masks::has_quarto(node.board)),
        !(crate::evaluate::depth_of(*node) > 4 && board_quartos(*node).len() > 0) ==> {
            &&& r.quartos is None
            &&& r.orbits matches Some(os) && exists|unsorted: Seq<Orbit>, heads: Seq<usize>, listings: Seq<Seq<usize>>|
                #[trigger] analysis_orbits(*node, tablebase, os@, unsorted, heads, listings)
        },
{
    let sentinel = crate::node::depth_0_sentinel();
    let is_root = node.equals(&sentinel);
    let depth: usize = if is_root { 0 } else { crate::bits::count_ones(node.board.occupancy) as usize + 1 };
    let is_player_first: bool = depth % 2 == 0;
    proof {
        if !is_root {
            lemma_board_quartos_iff(*node);
        }
    }
    let ply_grid = crate::parsing::format_node_grid(node);
    let ply_hex = crate::parsing::format_node_hex(node);
    let canonical_node = crate::canonicalization::canonicalize(node);
    let canon_hex = crate::parsing::format_node_hex(&canonical_node);
    if depth > 4 {
        let lines = all_lines();
        proof {
            lemma_line_squares();
        }
        let quarto = collect_quartos(&node.board, &lines);
        if quarto.len() > 0 {
            return AnalysisResult { ply_grid, ply_hex, canon_hex, quartos: Some(quarto), orbits: None };
        }
    }
    let cands = if depth == 0 { get_moves_depth_0() } else { get_moves_general(node, depth) };
    let ghost cm = candidates_model(cands@);
    assert(cm == analysis_candidates(*node, depth as int));
    let (heads, Ghost(owner)) = orbit_heads(&cands);
    let mut orbits: Vec<Orbit> = Vec::new();
    let ghost mut listings: Seq<Seq<usize>> = Seq::empty();
    let mut k: usize = 0;
    while k < heads.len()
        invariant
            k <= heads.len(),
            depth <= 17,
            cm == candidates_model(cands@),
            canon_pieces_ok(cm),
            crate::evaluate::tb_ok(tablebase),
            forall|j: int| 0 <= j < heads@.len() ==> #[trigger] is_orbit_head(cm, heads@[j] as int),
            orbits@.len() == k,
            listings.len() == k,
            forall|j: int| 0 <= j < k ==> #[trigger] orbit_matches(cm, depth as int, tablebase, orbits@[j], heads@[j], listings[j]),
        decreases heads.len() - k,
    {
        let h = heads[k];
        assert(is_orbit_head(cm, h as int));
        let members = orbit_members(&cands, &cands[h].canonical_node);
        proof {
            assert forall|j: int| 0 <= j < members@.len() implies #[trigger] members@[j] < cands@.len() by {
                assert(in_orbit(cm, cm[h as int].canonical_node, members@[j] as int));
            }
        }
        let moves = orbit_move_list(&cands, &members);
        let orbit_hex = crate::parsing::format_node_hex(&cands[h].canonical_node);
        let outcome: u8 = if cands[h].quartos.is_some() {
            (17 - depth) as u8
        } else {
            assert(cm[h as int].canonical_node.piece_to_place < 16);
            crate::evaluate::evaluate(&cands[h].canonical_node, tablebase)
        };
        let o = Orbit { canon_hex: orbit_hex, outcome, moves };
        proof {
            assert(orbit_matches(cm, depth as int, tablebase, o, h, members@));
            listings = listings.push(members@);
        }
        orbits.push(o);
        k = k + 1;
    }
    let ghost unsorted = orbits@;
    proof {
        assert(orbits_built(cm, depth as int, tablebase, unsorted, heads@, listings));
    }
    sort_orbits(&mut orbits, is_player_first);
    assert(depth as int == crate::evaluate::depth_of(*node));
    let res = AnalysisResult { ply_grid, ply_hex, canon_hex, quartos: None, orbits: Some(orbits) };
    assert(analysis_orbits(*node, tablebase, res.orbits->Some_0@, unsorted, heads@, listings));
    assert(exists|unsorted: Seq<Orbit>, heads: Seq<usize>, listings: Seq<Seq<usize>>|
        #[trigger] analysis_orbits(*node, tablebase, res.orbits->Some_0@, unsorted, heads, listings));
    res
}

} // verus!

verus! {

/// The names of the shared attributes below `n`: each attribute below `n`
/// that all pieces of the line have, or none has, contributes its name.
proof fn lemma_shared_names_contain(b: Board, line: u16, n: int, a: int)
    requires
        0 <= a < n <= 4,
    ensures
        b.attr(a) & line == line ==> shared_attr_names(b, line, n).contains(attr_name(a, true)),
        b.attr(a) & line == 0 && line != 0 ==> shared_attr_names(b, line, n).contains(attr_name(a, false)),
    decreases n,
{
    let prev = shared_attr_names(b, line, n - 1);
    if a < n - 1 {
        lemma_shared_names_contain(b, line, n - 1, a);
        let cur = shared_attr_names(b, line, n);
        if b.attr(a) & line == line {
            let i = choose|i: int| 0 <= i < prev.len() && prev[i] == attr_name(a, true);
            assert(cur[i] == prev[i]);
        }
        if b.attr(a) & line == 0 && line != 0 {
            let i = choose|i: int| 0 <= i < prev.len() && prev[i] == attr_name(a, false);
            assert(cur[i] == prev[i]);
        }
    } else {
        let cur = shared_attr_names(b, line, n);
        if b.attr(a) & line == line {
            assert(cur[prev.len() as int] == attr_name(a, true));
        } else if b.attr(a) & line == 0 && line != 0 {
            assert(cur[prev.len() as int] == attr_name(a, false));
        }
    }
}

/// The attribute names that a quarto reports follow the piece encoding: a
/// line whose pieces all have bit 0 is "hollow" (none: "solid"), bit 1
/// "short" (none: "tall"), bit 2 "square" (none: "round"), bit 3 "dark"
/// (none: "light").
pub proof fn lemma_quarto_attribute_names(b: Board, line: u16)
    requires
        line != 0,
    ensures
        b.attr(0) & line == line ==> shared_attr_names(b, line, 4).contains("hollow"@),
        b.attr(0) & line == 0 ==> shared_attr_names(b, line, 4).contains("solid"@),
        b.attr(1) & line == line ==> shared_attr_names(b, line, 4).contains("short"@),
        b.attr(1) & line == 0 ==> shared_attr_names(b, line, 4).contains("tall"@),
        b.attr(2) & line == line ==> shared_attr_names(b, line, 4).contains("square"@),
        b.attr(2) & line == 0 ==> shared_attr_names(b, line, 4).contains("round"@),
        b.attr(3) & line == line ==> shared_attr_names(b, line, 4).contains("dark"@),
        b.attr(3) & line == 0 ==> shared_attr_names(b, line, 4).contains("light"@),
{
    lemma_shared_names_contain(b, line, 4, 0);
    lemma_shared_names_contain(b, line, 4, 1);
    lemma_shared_names_contain(b, line, 4, 2);
    lemma_shared_names_contain(b, line, 4, 3);
}

/// Each quarto line among the first `n` lines contributes one quarto per
/// shared attribute name, on the line's squares.
proof fn lemma_quartos_spec_contains(b: Board, lines: Seq<u16>, n: int, k: int, name: Seq<char>)
    requires
        0 <= k < n <= lines.len(),
        crate::line_masks::is_quarto_line(b, lines[k]),
        shared_attr_names(b, lines[k], 4).contains(name),
    ensures
        quartos_spec(b, lines, n).contains(QuartoModel { intersection: squares_of(lines[k]), attribute: name }),
    decreases n,
{
    let q = QuartoModel { intersection: squares_of(lines[k]), attribute: name };
    let prev = quartos_spec(b, lines, n - 1);
    let cur = quartos_spec(b, lines, n);
    if k < n - 1 {
        lemma_quartos_spec_contains(b, lines, n - 1, k, name);
        let i = choose|i: int| 0 <= i < prev.len() && prev[i] == q;
        assert(crate::line_masks::is_quarto_line(b, lines[n - 1]) ==> cur == prev + shared_attr_names(b, lines[n - 1], 4).map_values(
            |nm: Seq<char>| QuartoModel { intersection: squares_of(lines[n - 1]), attribute: nm }));
        assert(cur[i] == q);
    } else {
        let names = shared_attr_names(b, lines[k], 4);
        let add = names.map_values(|nm: Seq<char>| QuartoModel { intersection: squares_of(lines[k]), attribute: nm });
        assert(cur == prev + add);
        let j = choose|j: int| 0 <= j < names.len() && names[j] == name;
        assert(add[j] == q);
        assert(cur[prev.len() + j] == q);
    }
}

/// A quarto on the board is reported with the name that the piece encoding
/// gives its shared attribute: for a quarto on line `k` (rows 0-3, columns
/// 0-3, then the two diagonals), the board's quartos hold that line's squares
/// with "hollow"/"solid", "short"/"tall", "square"/"round" or "dark"/"light"
/// as the four pieces all have or all lack attribute 0, 1, 2 or 3.
pub proof fn lemma_board_quarto_names(node: Node, k: int)
    requires
        0 <= k < 10,
        crate::line_masks::is_quarto_line(node.board, crate::line_masks::line_masks_spec()[k]),
    ensures
        ({
            let line = crate::line_masks::line_masks_spec()[k];
            let b = node.board;
            let sq = squares_of(line);
            &&& b.attr(0) & line == line ==> board_quartos(node).contains(QuartoModel { intersection: sq, attribute: "hollow"@ })
            &&& b.attr(0) & line == 0 ==> board_quartos(node).contains(QuartoModel { intersection: sq, attribute: "solid"@ })
            &&& b.attr(1) & line == line ==> board_quartos(node).contains(QuartoModel { intersection: sq, attribute: "short"@ })
            &&& b.attr(1) & line == 0 ==> board_quartos(node).contains(QuartoModel { intersection: sq, attribute: "tall"@ })
            &&& b.attr(2) & line == line ==> board_quartos(node).contains(QuartoModel { intersection: sq, attribute: "square"@ })
            &&& b.attr(2) & line == 0 ==> board_quartos(node).contains(QuartoModel { intersection: sq, attribute: "round"@ })
            &&& b.attr(3) & line == line ==> board_quartos(node).contains(QuartoModel { intersection: sq, attribute: "dark"@ })
            &&& b.attr(3) & line == 0 ==> board_quartos(node).contains(QuartoModel { intersection: sq, attribute: "light"@ })
        }),
{
    let lines = crate::line_masks::line_masks_spec();
    let line = lines[k];
    let b = node.board;
    assert(line != 0) by {
        assert(k == 0 || k == 1 || k == 2 || k == 3 || k == 4 || k == 5 || k == 6 || k == 7 || k == 8 || k == 9);
    }
    lemma_quarto_attribute_names(b, line);
    if b.attr(0) & line == line { lemma_quartos_spec_contains(b, lines, 10, k, "hollow"@); }
    if b.attr(0) & line == 0 { lemma_quartos_spec_contains(b, lines, 10, k, "solid"@); }
    if b.attr(1) & line == line { lemma_quartos_spec_contains(b, lines, 10, k, "short"@); }
    if b.attr(1) & line == 0 { lemma_quartos_spec_contains(b, lines, 10, k, "tall"@); }
    if b.attr(2) & line == line { lemma_quartos_spec_contains(b, lines, 10, k, "square"@); }
    if b.attr(2) & line == 0 { lemma_quartos_spec_contains(b, lines, 10, k, "round"@); }
    if b.attr(3) & line == line { lemma_quartos_spec_contains(b, lines, 10, k, "dark"@); }
    if b.attr(3) & line == 0 { lemma_quartos_spec_contains(b, lines, 10, k, "light"@); }
}

} // verus!

verus! {

/// A quarto through a square lies on one of the lines that `lines_through` lists.
proof fn lemma_quarto_through_listed(b: Board, s: u32)
    ensures
        crate::line_masks::has_quarto_through(b, s) <==> exists|k: int|
            0 <= k < crate::line_masks::lines_through(s).len()
                && crate::line_masks::is_quarto_line(b, #[trigger] crate::line_masks::lines_through(s)[k]),
{
    broadcast use vstd::seq_lib::group_filter_ensures;
    let all = crate::line_masks::line_masks_spec();
    let f = |m: u16| (m >> (s as u16)) & 1u16 == 1u16;
    let lt = crate::line_masks::lines_through(s);
    assert(lt == all.filter(f));
    if crate::line_masks::has_quarto_through(b, s) {
        let k = choose|k: int| 0 <= k < 10 && (all[k] >> (s as u16)) & 1u16 == 1u16 && crate::line_masks::is_quarto_line(b, #[trigger] all[k]);
        assert(f(all[k]));
        assert(lt.contains(all[k]));
        let j = choose|j: int| 0 <= j < lt.len() && lt[j] == all[k];
        assert(crate::line_masks::is_quarto_line(b, lt[j]));
    }
    if exists|k: int| 0 <= k < lt.len() && crate::line_masks::is_quarto_line(b, #[trigger] lt[k]) {
        let k = choose|k: int| 0 <= k < lt.len() && crate::line_masks::is_quarto_line(b, #[trigger] lt[k]);
        assert(f(lt[k]));
        assert(lt.contains(lt[k]));
        all.lemma_filter_contains_rev(f, lt[k]);
        let i = choose|i: int| 0 <= i < all.len() && all[i] == lt[k];
        assert((all[i] >> (s as u16)) & 1u16 == 1u16 && crate::line_masks::is_quarto_line(b, all[i]));
    }
}

/// A quarto line among the first `n` lines makes the quartos non-empty, and
/// non-empty quartos come from a quarto line among them.
proof fn lemma_quartos_spec_nonempty(b: Board, lines: Seq<u16>, n: int)
    requires
        0 <= n <= lines.len(),
    ensures
        quartos_spec(b, lines, n).len() > 0 <==> exists|k: int| 0 <= k < n && crate::line_masks::is_quarto_line(b, #[trigger] lines[k]),
    decreases n,
{
    if n > 0 {
        lemma_quartos_spec_nonempty(b, lines, n - 1);
        let line = lines[n - 1];
        if crate::line_masks::is_quarto_line(b, line) {
            // a quarto line shares some attribute, so it has at least one name
            lemma_shared_names_contain(b, line, 4, 0);
            lemma_shared_names_contain(b, line, 4, 1);
            lemma_shared_names_contain(b, line, 4, 2);
            lemma_shared_names_contain(b, line, 4, 3);
            assert(shared_attr_names(b, line, 4).len() > 0);
        }
    }
}

} // verus!

verus! {

proof fn lemma_terminal_moves_members(node: Node, depth: int, n: int)
    requires
        0 <= n <= 16,
    ensures
        forall|i: int| 0 <= i < terminal_moves(node, depth, n).len() ==> exists|s: int|
            0 <= s < n && square_empty(node, s) && ends_game(node, s as u8, depth)
                && #[trigger] terminal_moves(node, depth, n)[i] == terminal_move(node, s as u8),
        forall|s: int| 0 <= s < n && square_empty(node, s) && ends_game(node, s as u8, depth)
            ==> terminal_moves(node, depth, n).contains(#[trigger] terminal_move(node, s as u8)),
    decreases n,
{
    if n > 0 {
        lemma_terminal_moves_members(node, depth, n - 1);
        let prev = terminal_moves(node, depth, n - 1);
        let cur = terminal_moves(node, depth, n);
        assert forall|i: int| 0 <= i < cur.len() implies exists|s: int|
            0 <= s < n && square_empty(node, s) && ends_game(node, s as u8, depth)
                && #[trigger] cur[i] == terminal_move(node, s as u8) by {
            if i < prev.len() {
                assert(cur[i] == prev[i]);
                let s = choose|s: int| 0 <= s < n - 1 && square_empty(node, s) && ends_game(node, s as u8, depth)
                    && #[trigger] prev[i] == terminal_move(node, s as u8);
            } else {
                assert(cur[i] == terminal_move(node, (n - 1) as u8));
            }
        }
        assert forall|s: int| 0 <= s < n && square_empty(node, s) && ends_game(node, s as u8, depth)
            implies cur.contains(#[trigger] terminal_move(node, s as u8)) by {
            if s < n - 1 {
                let i = choose|i: int| 0 <= i < prev.len() && prev[i] == terminal_move(node, s as u8);
                assert(cur[i] == prev[i]);
            } else {
                assert(cur[prev.len() as int] == terminal_move(node, s as u8));
            }
        }
    }
}

proof fn lemma_open_squares_members(node: Node, depth: int, n: int)
    requires
        0 <= n <= 16,
    ensures
        forall|i: int| 0 <= i < open_squares(node, depth, n).len() ==> {
            let s = #[trigger] open_squares(node, depth, n)[i];
            &&& s < n
            &&& square_empty(node, s as int)
            &&& !ends_game(node, s, depth)
        },
    decreases n,
{
    if n > 0 {
        lemma_open_squares_members(node, depth, n - 1);
        let prev = open_squares(node, depth, n - 1);
        let cur = open_squares(node, depth, n);
        assert forall|i: int| 0 <= i < cur.len() implies {
            let s = #[trigger] cur[i];
            &&& s < n
            &&& square_empty(node, s as int)
            &&& !ends_game(node, s, depth)
        } by {
            if i < prev.len() {
                assert(cur[i] == prev[i]);
            }
        }
    }
}

proof fn lemma_piece_moves_members(node: Node, depth: int, n: int)
    ensures
        forall|i: int| 0 <= i < piece_moves(node, depth, n).len() ==> exists|j: int|
            0 <= j < open_squares(node, depth, 16).len()
                && (#[trigger] piece_moves(node, depth, n)[i]).square == Some(open_squares(node, depth, 16)[j])
                && piece_moves(node, depth, n)[i].piece is Some
                && piece_moves(node, depth, n)[i].quartos is None,
    decreases n,
{
    if n > 0 {
        lemma_piece_moves_members(node, depth, n - 1);
        let prev = piece_moves(node, depth, n - 1);
        let cur = piece_moves(node, depth, n);
        let opens = open_squares(node, depth, 16);
        let p = (n - 1) as u8;
        assert forall|i: int| 0 <= i < cur.len() implies exists|j: int|
            0 <= j < opens.len() && (#[trigger] cur[i]).square == Some(opens[j]) && cur[i].piece is Some && cur[i].quartos is None by {
            if i < prev.len() {
                assert(cur[i] == prev[i]);
                let j = choose|j: int| 0 <= j < opens.len() && (#[trigger] prev[i]).square == Some(opens[j]) && prev[i].piece is Some
                    && prev[i].quartos is None;
            } else {
                let add = opens.map_values(|sq: u8| piece_move(node, sq, p));
                assert(cur == prev + add);
                let j = i - prev.len();
                assert(cur[i] == add[j]);
                assert(add[j] == piece_move(node, opens[j], p));
            }
        }
    }
}

/// A placement that completes a quarto ends the game: for every empty square
/// where placing the piece to place makes a quarto on a line through that
/// square, the moves list a game-ending move on it (no piece handed over, its
/// quartos reported and non-empty), and no move on it hands over a piece.
pub proof fn lemma_quarto_move_ends_game(node: Node, depth: int, s: u8)
    requires
        s < 16,
        !crate::bits::bit_set(node.board.occupancy, s as u16),
        crate::line_masks::has_quarto_through(crate::place::place_spec(node.board, node.piece_to_place, 1u16 << (s as u16)), s as u32),
    ensures
        exists|i: int| 0 <= i < moves_general_spec(node, depth).len()
            && (#[trigger] moves_general_spec(node, depth)[i]).square == Some(s)
            && moves_general_spec(node, depth)[i].piece is None
            && moves_general_spec(node, depth)[i].quartos is Some
            && moves_general_spec(node, depth)[i].quartos->Some_0.len() > 0
            && moves_general_spec(node, depth)[i].resulting_node == (Node {
                board: crate::place::place_spec(node.board, node.piece_to_place, 1u16 << (s as u16)),
                piece_to_place: 0,
            }),
        forall|i: int| 0 <= i < moves_general_spec(node, depth).len() && (#[trigger] moves_general_spec(node, depth)[i]).square == Some(s)
            ==> moves_general_spec(node, depth)[i].piece is None && moves_general_spec(node, depth)[i].quartos is Some,
{
    let b = placed_board(node, s);
    let lines = crate::line_masks::lines_through(s as u32);
    lemma_quarto_through_listed(b, s as u32);
    lemma_quartos_spec_nonempty(b, lines, lines.len() as int);
    assert(square_quartos(node, s).len() > 0);
    assert(square_empty(node, s as int));
    assert(ends_game(node, s, depth));
    lemma_terminal_moves_members(node, depth, 16);
    lemma_open_squares_members(node, depth, 16);
    lemma_piece_moves_members(node, depth, 16);
    let tm = terminal_moves(node, depth, 16);
    let pm = piece_moves(node, depth, 16);
    let ms = moves_general_spec(node, depth);
    assert(ms == tm + pm);
    assert(tm.contains(terminal_move(node, s as int as u8)));
    let i = choose|i: int| 0 <= i < tm.len() && tm[i] == terminal_move(node, s);
    assert(ms[i] == tm[i]);
    assert forall|i: int| 0 <= i < ms.len() && (#[trigger] ms[i]).square == Some(s) implies ms[i].piece is None && ms[i].quartos is Some by {
        if i < tm.len() {
            assert(ms[i] == tm[i]);
            let x = choose|x: int| 0 <= x < 16 && square_empty(node, x) && ends_game(node, x as u8, depth)
                && #[trigger] tm[i] == terminal_move(node, x as u8);
            assert(x as u8 == s);
        } else {
            assert(ms[i] == pm[i - tm.len()]);
            let j = choose|j: int| 0 <= j < open_squares(node, depth, 16).len()
                && (#[trigger] pm[i - tm.len()]).square == Some(open_squares(node, depth, 16)[j]) && pm[i - tm.len()].piece is Some
                && pm[i - tm.len()].quartos is None;
            let o = open_squares(node, depth, 16)[j];
            assert(o == s);
            assert(!ends_game(node, o, depth));
        }
    }
}

} // verus!

verus! {

/// A move whose quartos are reported places the piece to place on an empty
/// square where it completes a quarto on a line through that square.
proof fn lemma_quarto_candidate_wins(node: Node, depth: int, i: int)
    requires
        0 <= i < moves_general_spec(node, depth).len(),
        moves_general_spec(node, depth)[i].quartos is Some,
    ensures
        crate::evaluate::immediate_win(node),
{
    lemma_terminal_moves_members(node, depth, 16);
    lemma_piece_moves_members(node, depth, 16);
    let tm = terminal_moves(node, depth, 16);
    let pm = piece_moves(node, depth, 16);
    let ms = moves_general_spec(node, depth);
    assert(ms == tm + pm);
    if i < tm.len() {
        assert(ms[i] == tm[i]);
        let x = choose|x: int| 0 <= x < 16 && square_empty(node, x) && ends_game(node, x as u8, depth)
            && #[trigger] tm[i] == terminal_move(node, x as u8);
        let s = x as u8;
        assert(square_quartos(node, s).len() > 0);
        let b = placed_board(node, s);
        let lines = crate::line_masks::lines_through(s as u32);
        lemma_quartos_spec_nonempty(b, lines, lines.len() as int);
        lemma_quarto_through_listed(b, s as u32);
        assert(crate::evaluate::wins_at(node, s as u16));
    } else {
        assert(ms[i] == pm[i - tm.len()]);
        let j = choose|j: int| 0 <= j < open_squares(node, depth, 16).len()
            && (#[trigger] pm[i - tm.len()]).square == Some(open_squares(node, depth, 16)[j]) && pm[i - tm.len()].piece is Some
            && pm[i - tm.len()].quartos is None;
    }
}

proof fn lemma_popcount_all_set(y: u16, n: nat)
    requires
        n <= 16,
        crate::bits::popcount_upto(y, n) == n,
    ensures
        forall|t: u16| t < n ==> #[trigger] crate::bits::bit_set(y, t),
    decreases n,
{
    if n > 0 {
        crate::bits::lemma_popcount_upto_le(y, (n - 1) as nat);
        lemma_popcount_all_set(y, (n - 1) as nat);
    }
}

/// On a board with fifteen pieces, the one empty square is the last square.
proof fn lemma_last_square(occ: u16, x: u16)
    requires
        crate::bits::popcount(occ) == 15,
        x < 16,
        !crate::bits::bit_set(occ, x),
    ensures
        crate::evaluate::last_square(Board { occupancy: occ, attribute_masks: [0, 0, 0, 0] }) == 1u16 << x,
        (1u16 << x).trailing_zeros() == x,
{
    crate::bits::lemma_popcount_set_bit(occ, x);
    let y = (occ | (1u16 << x)) as u16;
    lemma_popcount_all_set(y, 16);
    crate::bits::lemma_set_clear_bit(occ, x);
    crate::bits::lemma_not_bit(occ);
    let n = (!occ) as u16;
    assert(crate::bits::bit_set(1u16 << x, x)) by {
        crate::bits::lemma_tz_single(x);
        crate::bits::lemma_lowest_bit(1u16 << x);
    }
    assert forall|t: u16| t < 16 implies (crate::bits::bit_set(n, t) <==> crate::bits::bit_set(1u16 << x, t)) by {
        crate::bits::lemma_bits_u16(0, 0, t, x);
        assert(crate::bits::bit_set(y, t));
        assert(crate::bits::bit_set(y, t) <==> (crate::bits::bit_set(occ, t) || t == x));
        assert(crate::bits::bit_set(n, t) <==> !crate::bits::bit_set(occ, t));
    }
    crate::transform::lemma_bits_ext(n, 1u16 << x);
    crate::bits::lemma_tz_single(x);
}

/// A quarto move wins at once: the orbit that such a move heads shows the
/// outcome that evaluation gives the position itself, a win for the player to
/// move ending the game at the current depth; and that orbit is among the
/// reported orbits.
pub proof fn lemma_quarto_orbit_outcome(
    node: Node, tablebase: Option<&crate::tablebase::TablebaseIndex>, os: Seq<Orbit>,
    unsorted: Seq<Orbit>, heads: Seq<usize>, listings: Seq<Seq<usize>>, k: int,
)
    requires
        analysis_orbits(node, tablebase, os, unsorted, heads, listings),
        node != crate::node::depth_0_sentinel_spec(),
        1 <= crate::evaluate::depth_of(node) <= 16,
        0 <= k < unsorted.len(),
        analysis_candidates(node, crate::evaluate::depth_of(node))[heads[k] as int].quartos is Some,
    ensures
        unsorted[k].outcome == crate::evaluate::game_outcome(node, crate::evaluate::unused_pieces_spec(node), None),
        unsorted[k].outcome % 2 != crate::evaluate::depth_of(node) % 2,
        os.contains(unsorted[k]),
{
    let d = crate::evaluate::depth_of(node);
    let cands = analysis_candidates(node, d);
    assert(orbit_matches(cands, d, tablebase, unsorted[k], heads[k], listings[k]));
    assert(is_orbit_head(cands, heads[k] as int));
    lemma_quarto_candidate_wins(node, d, heads[k] as int);
    crate::evaluate::lemma_score_roundtrip();
    let rem = crate::evaluate::unused_pieces_spec(node);
    if d == 16 {
        let x = choose|x: u16| x < 16 && #[trigger] crate::evaluate::wins_at(node, x);
        lemma_last_square(node.board.occupancy, x);
    }
    assert(crate::evaluate::game_score(node, rem, d, None) == crate::evaluate::outcome_to_score_spec((17 - d) as u8) as int);
    lemma_stable_sorted_is_stable(unsorted, d % 2 == 0);
    broadcast use vstd::seq_lib::group_to_multiset_ensures;
    assert(unsorted.to_multiset().count(unsorted[k]) > 0);
}

} // verus!

verus! {

/// The reported orbits come best first for the player to move: an earlier
/// orbit's outcome is worth at least as much to the player to move as a later
/// one's (worth as the score that the outcome has at the position's depth).
pub proof fn lemma_orbits_best_first(
    node: Node, tablebase: Option<&crate::tablebase::TablebaseIndex>, os: Seq<Orbit>,
    unsorted: Seq<Orbit>, heads: Seq<usize>, listings: Seq<Seq<usize>>,
)
    requires
        analysis_orbits(node, tablebase, os, unsorted, heads, listings),
        crate::evaluate::depth_of(node) >= 0,
    ensures
        forall|i: int, j: int| 0 <= i < j < os.len() ==>
            crate::evaluate::tb_score((#[trigger] os[j]).outcome, crate::evaluate::depth_of(node))
                <= crate::evaluate::tb_score((#[trigger] os[i]).outcome, crate::evaluate::depth_of(node)),
{
    let d = crate::evaluate::depth_of(node);
    let f = d % 2 == 0;
    lemma_stable_sorted_is_stable(unsorted, f);
    assert forall|o: u8| #[trigger] crate::evaluate::outcome_to_sort_score_spec(o, f) == crate::evaluate::tb_score(o, d) by {
    }
    assert forall|i: int, j: int| 0 <= i < j < os.len() implies
        crate::evaluate::tb_score((#[trigger] os[j]).outcome, d) <= crate::evaluate::tb_score((#[trigger] os[i]).outcome, d) by {
        assert(!orbit_key_lt(os[j], os[i], f));
        assert(crate::evaluate::outcome_to_sort_score_spec(os[j].outcome, f) == crate::evaluate::tb_score(os[j].outcome, d));
        assert(crate::evaluate::outcome_to_sort_score_spec(os[i].outcome, f) == crate::evaluate::tb_score(os[i].outcome, d));
    }
}

} // verus!

verus! {

proof fn lemma_open_squares_contains(node: Node, depth: int, n: int, s: int)
    requires
        0 <= s < n <= 16,
        square_empty(node, s),
        !ends_game(node, s as u8, depth),
    ensures
        open_squares(node, depth, n).contains(s as u8),
    decreases n,
{
    let prev = open_squares(node, depth, n - 1);
    let cur = open_squares(node, depth, n);
    if s < n - 1 {
        lemma_open_squares_contains(node, depth, n - 1, s);
        let i = choose|i: int| 0 <= i < prev.len() && prev[i] == s as u8;
        assert(cur[i] == prev[i]);
    } else {
        assert(cur[prev.len() as int] == s as u8);
    }
}

proof fn lemma_piece_moves_contains(node: Node, depth: int, n: int, s: u8, p: u8)
    requires
        0 <= p < n,
        (crate::evaluate::unused_pieces_spec(node) >> (p as u16)) & 1u16 == 1u16,
        open_squares(node, depth, 16).contains(s),
    ensures
        piece_moves(node, depth, n).contains(piece_move(node, s, p)),
    decreases n,
{
    let prev = piece_moves(node, depth, n - 1);
    let cur = piece_moves(node, depth, n);
    if p < n - 1 {
        lemma_piece_moves_contains(node, depth, n - 1, s, p);
        let i = choose|i: int| 0 <= i < prev.len() && prev[i] == piece_move(node, s, p);
        assert(cur[i] == prev[i]);
    } else {
        let opens = open_squares(node, depth, 16);
        let add = opens.map_values(|sq: u8| piece_move(node, sq, p));
        assert(cur == prev + add);
        let j = choose|j: int| 0 <= j < opens.len() && opens[j] == s;
        assert(cur[prev.len() + j] == add[j]);
    }
}

/// A placement that makes no quarto, before the last square, does not end the
/// game: for every empty square where placing the piece to place completes no
/// line through it, and every piece not yet used, the moves include placing
/// there and handing that piece over (on the board with the piece placed, no
/// quartos reported); and every move on that square hands over a piece.
pub proof fn lemma_open_placement_moves(node: Node, depth: int, s: u8, p: u8)
    requires
        s < 16,
        !crate::bits::bit_set(node.board.occupancy, s as u16),
        !crate::line_masks::has_quarto_through(crate::place::place_spec(node.board, node.piece_to_place, 1u16 << (s as u16)), s as u32),
        depth != 16,
        p < 16,
        crate::bits::bit_set(crate::evaluate::unused_pieces_spec(node), p as u16),
    ensures
        ({
            let resulting = Node { board: crate::place::place_spec(node.board, node.piece_to_place, 1u16 << (s as u16)), piece_to_place: p };
            moves_general_spec(node, depth).contains(CandidateModel {
                square: Some(s),
                piece: Some(p),
                quartos: None,
                resulting_node: resulting,
                canonical_node: crate::canonicalization::canonical_spec(resulting),
            })
        }),
        forall|i: int| 0 <= i < moves_general_spec(node, depth).len() && (#[trigger] moves_general_spec(node, depth)[i]).square == Some(s)
            ==> moves_general_spec(node, depth)[i].piece is Some && moves_general_spec(node, depth)[i].quartos is None,
{
    let b = placed_board(node, s);
    let lines = crate::line_masks::lines_through(s as u32);
    lemma_quarto_through_listed(b, s as u32);
    lemma_quartos_spec_nonempty(b, lines, lines.len() as int);
    assert(square_quartos(node, s).len() == 0);
    assert(square_empty(node, s as int));
    assert(!ends_game(node, s, depth));
    lemma_open_squares_contains(node, depth, 16, s as int);
    lemma_piece_moves_contains(node, depth, 16, s, p);
    lemma_terminal_moves_members(node, depth, 16);
    lemma_piece_moves_members(node, depth, 16);
    let tm = terminal_moves(node, depth, 16);
    let pm = piece_moves(node, depth, 16);
    let ms = moves_general_spec(node, depth);
    assert(ms == tm + pm);
    let j = choose|j: int| 0 <= j < pm.len() && pm[j] == piece_move(node, s, p);
    assert(ms[tm.len() + j] == pm[j]);
    assert forall|i: int| 0 <= i < ms.len() && (#[trigger] ms[i]).square == Some(s) implies ms[i].piece is Some && ms[i].quartos is None by {
        if i < tm.len() {
            assert(ms[i] == tm[i]);
            let x = choose|x: int| 0 <= x < 16 && square_empty(node, x) && ends_game(node, x as u8, depth)
                && #[trigger] tm[i] == terminal_move(node, x as u8);
            assert(x as u8 == s);
        } else {
            assert(ms[i] == pm[i - tm.len()]);
            let j = choose|j: int| 0 <= j < open_squares(node, depth, 16).len()
                && (#[trigger] pm[i - tm.len()]).square == Some(open_squares(node, depth, 16)[j]) && pm[i - tm.len()].piece is Some
                && pm[i - tm.len()].quartos is None;
        }
    }
}

} // verus!

verus! {

proof fn lemma_popcount_superset(x: u16, y: u16, n: nat)
    requires
        n <= 16,
        forall|s: u16| s < 16 && #[trigger] crate::bits::bit_set(y, s) ==> crate::bits::bit_set(x, s),
    ensures
        crate::bits::popcount_upto(y, n) <= crate::bits::popcount_upto(x, n),
    decreases n,
{
    if n > 0 {
        lemma_popcount_superset(x, y, (n - 1) as nat);
        assert(crate::bits::bit_set(y, (n - 1) as u16) ==> crate::bits::bit_set(x, (n - 1) as u16));
    }
}

/// A board other than the root's reports quartos exactly when it has one:
/// a quarto needs four pieces, so its depth is above four.
proof fn lemma_board_quartos_iff(node: Node)
    requires
        node != crate::node::depth_0_sentinel_spec(),
    ensures
        (crate::evaluate::depth_of(node) > 4 && board_quartos(node).len() > 0) <==> crate::line_masks::has_quarto(node.board),
{
    let lines = crate::line_masks::line_masks_spec();
    lemma_quartos_spec_nonempty(node.board, lines, 10);
    if crate::line_masks::has_quarto(node.board) {
        let k = choose|k: int| 0 <= k < 10 && crate::line_masks::is_quarto_line(node.board, #[trigger] lines[k]);
        let l = lines[k];
        let occ = node.board.occupancy;
        assert forall|s: u16| s < 16 && #[trigger] crate::bits::bit_set(l, s) implies crate::bits::bit_set(occ, s) by {
            crate::bits::lemma_bits_u16(occ, l, s, 0);
        }
        lemma_popcount_superset(occ, l, 16);
        lemma_line_squares();
        lemma_positions_count(l, 16);
        assert(set_bit_positions(lines[k], 16).len() == 4);
    }
}

} // verus!

verus! {

/// The squares that a quarto reports for each line, ascending: rows 0-3,
/// columns 0-3, the main diagonal and the anti-diagonal.
#[verifier::spinoff_prover]
#[verifier::rlimit(60)]
pub proof fn lemma_line_squares_table()
    ensures
        squares_of(crate::line_masks::ROW_0) == seq![0u8, 1, 2, 3],
        squares_of(crate::line_masks::ROW_1) == seq![4u8, 5, 6, 7],
        squares_of(crate::line_masks::ROW_2) == seq![8u8, 9, 10, 11],
        squares_of(crate::line_masks::ROW_3) == seq![12u8, 13, 14, 15],
        squares_of(crate::line_masks::COL_0) == seq![0u8, 4, 8, 12],
        squares_of(crate::line_masks::COL_1) == seq![1u8, 5, 9, 13],
        squares_of(crate::line_masks::COL_2) == seq![2u8, 6, 10, 14],
        squares_of(crate::line_masks::COL_3) == seq![3u8, 7, 11, 15],
        squares_of(crate::line_masks::DIAG_MAIN) == seq![0u8, 5, 10, 15],
        squares_of(crate::line_masks::DIAG_ANTI) == seq![3u8, 6, 9, 12],
{
    lemma_line_bits(0);
    lemma_line_bits(1);
    lemma_line_bits(2);
    lemma_line_bits(3);
    lemma_line_bits(4);
    lemma_line_bits(5);
    lemma_line_bits(6);
    lemma_line_bits(7);
    lemma_line_bits(8);
    lemma_line_bits(9);
    lemma_line_bits(10);
    lemma_line_bits(11);
    lemma_line_bits(12);
    lemma_line_bits(13);
    lemma_line_bits(14);
    lemma_line_bits(15);
    reveal_with_fuel(set_bit_positions, 17);
    assert(squares_of(crate::line_masks::ROW_0) =~= seq![0u8, 1, 2, 3]);
    assert(squares_of(crate::line_masks::ROW_1) =~= seq![4u8, 5, 6, 7]);
    assert(squares_of(crate::line_masks::ROW_2) =~= seq![8u8, 9, 10, 11]);
    assert(squares_of(crate::line_masks::ROW_3) =~= seq![12u8, 13, 14, 15]);
    assert(squares_of(crate::line_masks::COL_0) =~= seq![0u8, 4, 8, 12]);
    assert(squares_of(crate::line_masks::COL_1) =~= seq![1u8, 5, 9, 13]);
    assert(squares_of(crate::line_masks::COL_2) =~= seq![2u8, 6, 10, 14]);
    assert(squares_of(crate::line_masks::COL_3) =~= seq![3u8, 7, 11, 15]);
    assert(squares_of(crate::line_masks::DIAG_MAIN) =~= seq![0u8, 5, 10, 15]);
    assert(squares_of(crate::line_masks::DIAG_ANTI) =~= seq![3u8, 6, 9, 12]);
}

} // verus!

verus! {

/// From the root every piece can be handed over, and nothing is placed: for
/// each of the sixteen pieces there is a move handing it over on the empty
/// board, and every root move places nothing and reports no quartos.
pub proof fn lemma_root_moves(p: u8)
    requires
        p < 16,
    ensures
        exists|i: int| 0 <= i < moves_depth_0_spec().len() && (#[trigger] moves_depth_0_spec()[i]).piece == Some(p)
            && moves_depth_0_spec()[i].resulting_node == (Node { board: crate::board::root_board_spec(), piece_to_place: p }),
        forall|i: int| 0 <= i < moves_depth_0_spec().len() ==> (#[trigger] moves_depth_0_spec()[i]).square is None
            && moves_depth_0_spec()[i].quartos is None,
{
    assert(moves_depth_0_spec()[p as int].piece == Some(p));
}

} // verus!

verus! {

proof fn lemma_piece_moves_shape(node: Node, depth: int, n: int)
    requires
        n <= 16,
    ensures
        forall|i: int| #![trigger piece_moves(node, depth, n)[i]] 0 <= i < piece_moves(node, depth, n).len() ==> exists|j: int, p: int|
            #![trigger piece_move(node, open_squares(node, depth, 16)[j], p as u8)]
            0 <= j < open_squares(node, depth, 16).len() && 0 <= p < n
                && piece_moves(node, depth, n)[i] == piece_move(node, open_squares(node, depth, 16)[j], p as u8),
    decreases n,
{
    if n > 0 {
        lemma_piece_moves_shape(node, depth, n - 1);
        let prev = piece_moves(node, depth, n - 1);
        let cur = piece_moves(node, depth, n);
        let opens = open_squares(node, depth, 16);
        let p = (n - 1) as u8;
        assert forall|i: int| #![trigger cur[i]] 0 <= i < cur.len() implies exists|j: int, q: int|
            #![trigger piece_move(node, opens[j], q as u8)]
            0 <= j < opens.len() && 0 <= q < n && cur[i] == piece_move(node, opens[j], q as u8) by {
            if i < prev.len() {
                assert(cur[i] == prev[i]);
                let (j, q) = choose|j: int, q: int| #![trigger piece_move(node, opens[j], q as u8)] 0 <= j < opens.len() && 0 <= q < n - 1
                    && prev[i] == piece_move(node, opens[j], q as u8);
                assert(cur[i] == piece_move(node, opens[j], q as u8));
            } else {
                let add = opens.map_values(|sq: u8| piece_move(node, sq, p));
                assert(cur == prev + add);
                let j = i - prev.len();
                assert(cur[i] == add[j]);
                assert(cur[i] == piece_move(node, opens[j], (n - 1) as u8));
            }
        }
    }
}

/// Placing a piece leaves the board non-empty.
proof fn lemma_placed_nonempty(node: Node, s: u8)
    requires
        s < 16,
    ensures
        placed_board(node, s).occupancy != 0,
{
    crate::bits::lemma_bits_u16(node.board.occupancy, 0, s as u16, s as u16);
    crate::bits::lemma_bits_u16(0, 0, s as u16, 0);
    let o = placed_board(node, s).occupancy;
    assert(crate::bits::bit_set(node.board.occupancy | (1u16 << (s as u16)), s as u16));
    assert(o == node.board.occupancy | (1u16 << (s as u16)));
    assert(!crate::bits::bit_set(0u16, s as u16));
}

/// Every move considered leads to a canonical position that names a piece.
proof fn lemma_candidates_canon_pieces(node: Node, depth: int)
    requires
        node.piece_to_place < 16,
    ensures
        canon_pieces_ok(analysis_candidates(node, depth)),
{
    if depth != 0 {
        lemma_terminal_moves_members(node, depth, 16);
        lemma_piece_moves_shape(node, depth, 16);
        lemma_open_squares_members(node, depth, 16);
        let tm = terminal_moves(node, depth, 16);
        let pm = piece_moves(node, depth, 16);
        let ms = moves_general_spec(node, depth);
        assert(ms == tm + pm);
        assert forall|i: int| 0 <= i < ms.len() implies (#[trigger] ms[i]).canonical_node.piece_to_place < 16
            && ms[i].canonical_node != crate::node::depth_0_sentinel_spec() by {
            if i < tm.len() {
                assert(ms[i] == tm[i]);
                let x = choose|x: int| 0 <= x < 16 && square_empty(node, x) && ends_game(node, x as u8, depth)
                    && #[trigger] tm[i] == terminal_move(node, x as u8);
                lemma_placed_nonempty(node, x as u8);
                crate::canonicalization::lemma_canonical_piece(Node { board: placed_board(node, x as u8), piece_to_place: 0 });
            } else {
                assert(ms[i] == pm[i - tm.len()]);
                let (j, q) = choose|j: int, q: int| #![trigger piece_move(node, open_squares(node, depth, 16)[j], q as u8)]
                    0 <= j < open_squares(node, depth, 16).len() && 0 <= q < 16
                    && pm[i - tm.len()] == piece_move(node, open_squares(node, depth, 16)[j], q as u8);
                let sq = open_squares(node, depth, 16)[j];
                lemma_placed_nonempty(node, sq);
                crate::canonicalization::lemma_canonical_piece(Node { board: placed_board(node, sq), piece_to_place: q as u8 });
            }
        }
    } else {
        assert forall|i: int| 0 <= i < moves_depth_0_spec().len() implies (#[trigger] moves_depth_0_spec()[i]).canonical_node.piece_to_place < 16
            && moves_depth_0_spec()[i].canonical_node != crate::node::depth_0_sentinel_spec() by {
        }
    }
}

/// Candidate `i` has an orbit head: the first candidate leading to the same
/// canonical position.
proof fn lemma_head_of(cands: Seq<CandidateModel>, i: int)
    requires
        0 <= i < cands.len(),
    ensures
        exists|h: int| #[trigger] is_orbit_head(cands, h) && h <= i && cands[h].canonical_node == cands[i].canonical_node,
    decreases i,
{
    if !is_orbit_head(cands, i) {
        let j = choose|j: int| 0 <= j < i && (#[trigger] cands[j]).canonical_node == cands[i].canonical_node;
        lemma_head_of(cands, j);
    }
}

proof fn lemma_terminal_moves_len(node: Node, depth: int, n: int)
    ensures
        terminal_moves(node, depth, n).len() <= if n > 0 { n } else { 0 },
        open_squares(node, depth, n).len() <= if n > 0 { n } else { 0 },
    decreases n,
{
    if n > 0 {
        lemma_terminal_moves_len(node, depth, n - 1);
    }
}

proof fn lemma_piece_moves_len(node: Node, depth: int, n: int)
    ensures
        piece_moves(node, depth, n).len() <= (if n > 0 { n } else { 0 }) * open_squares(node, depth, 16).len(),
    decreases n,
{
    if n > 0 {
        lemma_piece_moves_len(node, depth, n - 1);
        let k = open_squares(node, depth, 16).len();
        assert((n - 1) * k + k == n * k) by (nonlinear_arith);
        if n - 1 <= 0 {
            assert(0 * k == 0) by (nonlinear_arith);
        }
    }
}

/// At most 16 + 16 * 16 moves are considered.
proof fn lemma_candidates_len(node: Node, depth: int)
    ensures
        analysis_candidates(node, depth).len() <= 272,
{
    if depth != 0 {
        lemma_terminal_moves_len(node, depth, 16);
        lemma_piece_moves_len(node, depth, 16);
        let k = open_squares(node, depth, 16).len();
        assert(16 * k <= 256) by (nonlinear_arith)
            requires
                k <= 16;
    }
}

/// The orbits stand for distinct canonical positions: no two share a
/// canonical hex form.
pub proof fn lemma_orbits_distinct(
    node: Node, tablebase: Option<&crate::tablebase::TablebaseIndex>, os: Seq<Orbit>,
    unsorted: Seq<Orbit>, heads: Seq<usize>, listings: Seq<Seq<usize>>,
)
    requires
        analysis_orbits(node, tablebase, os, unsorted, heads, listings),
        node == crate::node::depth_0_sentinel_spec() || node.piece_to_place < 16,
    ensures
        forall|k1: int, k2: int| 0 <= k1 < k2 < unsorted.len() ==> (#[trigger] unsorted[k1]).canon_hex@ != (#[trigger] unsorted[k2]).canon_hex@,
{
    let d = crate::evaluate::depth_of(node);
    let cands = analysis_candidates(node, d);
    if node != crate::node::depth_0_sentinel_spec() {
        lemma_candidates_canon_pieces(node, d);
    } else {
        assert(d == 0);
    }
    assert forall|k1: int, k2: int| 0 <= k1 < k2 < unsorted.len() implies (#[trigger] unsorted[k1]).canon_hex@ != (#[trigger] unsorted[k2]).canon_hex@ by {
        assert(orbit_matches(cands, d, tablebase, unsorted[k1], heads[k1], listings[k1]));
        assert(orbit_matches(cands, d, tablebase, unsorted[k2], heads[k2], listings[k2]));
        let a = cands[heads[k1] as int].canonical_node;
        let b = cands[heads[k2] as int].canonical_node;
        assert(heads[k1] < heads[k2]);
        assert(a != b);
        crate::parsing::lemma_hex_roundtrip(a);
        crate::parsing::lemma_hex_roundtrip(b);
    }
}

/// Every move is reported, in the orbit of its canonical position: each move
/// considered shows up in an orbit whose canonical hex form is its canonical
/// position's.
pub proof fn lemma_orbits_group_moves(
    node: Node, tablebase: Option<&crate::tablebase::TablebaseIndex>, os: Seq<Orbit>,
    unsorted: Seq<Orbit>, heads: Seq<usize>, listings: Seq<Seq<usize>>, i: int,
)
    requires
        analysis_orbits(node, tablebase, os, unsorted, heads, listings),
        0 <= i < analysis_candidates(node, crate::evaluate::depth_of(node)).len(),
    ensures
        ({
            let cands = analysis_candidates(node, crate::evaluate::depth_of(node));
            exists|k: int| 0 <= k < unsorted.len()
                && unsorted[k].canon_hex@ == crate::parsing::format_hex_spec(cands[i].canonical_node)
                && #[trigger] moves_model(unsorted[k].moves@).contains(move_of(cands[i]))
        }),
{
    let d = crate::evaluate::depth_of(node);
    let cands = analysis_candidates(node, d);
    lemma_candidates_len(node, d);
    lemma_head_of(cands, i);
    let h = choose|h: int| #[trigger] is_orbit_head(cands, h) && h <= i && cands[h].canonical_node == cands[i].canonical_node;
    assert(heads.contains(h as usize));
    let k = choose|k: int| 0 <= k < heads.len() && heads[k] == h as usize;
    assert(orbit_matches(cands, d, tablebase, unsorted[k], heads[k], listings[k]));
    let idx = listings[k];
    assert(heads[k] as int == h);
    assert(orbit_listing(cands, cands[heads[k] as int].canonical_node, idx));
    assert(in_orbit(cands, cands[heads[k] as int].canonical_node, i));
    assert(idx.contains(i as usize));
    let m = choose|m: int| 0 <= m < idx.len() && idx[m] == i as usize;
    assert(moves_model(unsorted[k].moves@)[m] == listing_moves(cands, idx)[m]);
    assert(moves_model(unsorted[k].moves@).contains(move_of(cands[i])));
}

} // verus!
