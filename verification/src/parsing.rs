//! Text forms of nodes: the 17-character grid and the 22-digit hex form.

use vstd::prelude::*;
use vstd::string::StringExecFns;
use vstd::string::StringSliceAdditionalSpecFns;
use crate::board::Board;
use crate::node::{Node, depth_0_sentinel};

verus! {

/// Upper-case hexadecimal digit of a value below 16.
pub open spec fn hex_char(d: u8) -> char {
    if d < 10 {
        ((d + 48) as u8) as char
    } else {
        ((d + 55) as u8) as char
    }
}

/// A one-character string holding the upper-case hex digit of `d`.
pub(crate) fn hex_digit_str(d: u8) -> (r: &'static str)
    requires
        d < 16,
    ensures
        r@ == seq![hex_char(d)],
{
    match d {
        0 => { proof { reveal_strlit("0"); } "0" },
        1 => { proof { reveal_strlit("1"); } "1" },
        2 => { proof { reveal_strlit("2"); } "2" },
        3 => { proof { reveal_strlit("3"); } "3" },
        4 => { proof { reveal_strlit("4"); } "4" },
        5 => { proof { reveal_strlit("5"); } "5" },
        6 => { proof { reveal_strlit("6"); } "6" },
        7 => { proof { reveal_strlit("7"); } "7" },
        8 => { proof { reveal_strlit("8"); } "8" },
        9 => { proof { reveal_strlit("9"); } "9" },
        10 => { proof { reveal_strlit("A"); } "A" },
        11 => { proof { reveal_strlit("B"); } "B" },
        12 => { proof { reveal_strlit("C"); } "C" },
        13 => { proof { reveal_strlit("D"); } "D" },
        14 => { proof { reveal_strlit("E"); } "E" },
        _ => { proof { reveal_strlit("F"); } "F" },
    }
}

/// Four upper-case hex digits of a 16-bit value, most significant first.
pub open spec fn hex4(x: u16) -> Seq<char> {
    seq![
        hex_char(((x >> 12u16) & 0xfu16) as u8),
        hex_char(((x >> 8u16) & 0xfu16) as u8),
        hex_char(((x >> 4u16) & 0xfu16) as u8),
        hex_char((x & 0xfu16) as u8),
    ]
}

/// Two upper-case hex digits of a byte.
pub open spec fn hex2(x: u8) -> Seq<char> {
    seq![hex_char(((x >> 4u8) & 0xfu8) as u8), hex_char((x & 0xfu8) as u8)]
}

/// Upper-case hex digits of a byte without leading zeros.
pub open spec fn hex_min(x: u8) -> Seq<char> {
    if x < 16 {
        seq![hex_char(x)]
    } else {
        hex2(x)
    }
}

fn push_hex4(s: &mut String, x: u16)
    ensures
        final(s)@ == old(s)@ + hex4(x),
{
    proof {
        lemma_nibbles(x);
    }
    s.append(hex_digit_str(((x >> 12u16) & 0xFu16) as u8));
    s.append(hex_digit_str(((x >> 8u16) & 0xFu16) as u8));
    s.append(hex_digit_str(((x >> 4u16) & 0xFu16) as u8));
    s.append(hex_digit_str((x & 0xFu16) as u8));
    assert(final(s)@ =~= old(s)@ + hex4(x));
}

fn push_hex2(s: &mut String, x: u8)
    ensures
        final(s)@ == old(s)@ + hex2(x),
{
    proof {
        crate::bits::lemma_nibble_u8(x, 0);
    }
    s.append(hex_digit_str((x >> 4u8) & 0xFu8));
    s.append(hex_digit_str(x & 0xFu8));
    assert(final(s)@ =~= old(s)@ + hex2(x));
}

/// The 22-digit hex form: occupancy, attribute masks 3, 2, 1, 0, then the piece in the upper nibble.
pub open spec fn format_hex_spec(node: Node) -> Seq<char> {
    hex4(node.board.occupancy) + hex4(node.board.attr(3)) + hex4(node.board.attr(2)) + hex4(node.board.attr(1))
        + hex4(node.board.attr(0)) + hex2((node.piece_to_place << 4u8) as u8)
}

/// Format a node as binary hex representation (22 chars).
pub fn format_node_hex(node: &Node) -> (r: String)
    ensures
        r@ == format_hex_spec(*node),
{
    let mut s = String::new();
    push_hex4(&mut s, node.board.occupancy);
    push_hex4(&mut s, node.board.attribute_masks[3]);
    push_hex4(&mut s, node.board.attribute_masks[2]);
    push_hex4(&mut s, node.board.attribute_masks[1]);
    push_hex4(&mut s, node.board.attribute_masks[0]);
    push_hex2(&mut s, node.piece_to_place << 4u8);
    assert(s@ =~= format_hex_spec(*node));
    s
}

/// Grid cell `i`: the hex digit of the piece there, or a space.
pub open spec fn grid_cell(board: Board, i: int) -> char {
    if (board.occupancy >> (i as u16)) & 1u16 == 1u16 {
        hex_char(board.piece_at_spec(1u16 << (i as u16)))
    } else {
        ' '
    }
}

/// The grid form: sixteen cells, square 0 first, then the piece to place,
/// or a space when the position is over (a quarto on the board); 17 spaces
/// for the root position.
pub open spec fn format_grid_spec(node: Node) -> Seq<char> {
    if node == crate::node::depth_0_sentinel_spec() {
        Seq::new(17, |i: int| ' ')
    } else if crate::line_masks::has_quarto(node.board) {
        Seq::new(16, |i: int| grid_cell(node.board, i)) + seq![' ']
    } else {
        Seq::new(16, |i: int| grid_cell(node.board, i)) + hex_min(node.piece_to_place)
    }
}

/// Format a node as grid format (17 chars).
pub fn format_node_grid(node: &Node) -> (r: String)
    ensures
        r@ == format_grid_spec(*node),
{
    if node.equals(&depth_0_sentinel()) {
        let r = String::from_str("                 ");
        proof {
            reveal_strlit("                 ");
            assert(r@ =~= format_grid_spec(*node));
        }
        return r;
    }
    let mut result = String::new();
    let mut pos: u16 = 0;
    while pos < 16
        invariant
            pos <= 16,
            result@ == Seq::new(pos as nat, |i: int| grid_cell(node.board, i)),
        decreases 16 - pos,
    {
        let bit: u16 = 1u16 << pos;
        let ghost prev = result@;
        let occ = node.board.occupancy;
        proof {
            crate::bits::lemma_bits_u16(occ, 0, pos, 0);
        }
        if (node.board.occupancy & bit) != 0 {
            result.append(hex_digit_str(node.board.piece_at(bit)));
        } else {
            proof {
                reveal_strlit(" ");
            }
            result.append(" ");
        }
        assert(result@ =~= Seq::new((pos + 1) as nat, |i: int| grid_cell(node.board, i)));
        pos = pos + 1;
    }
    let p = node.piece_to_place;
    if crate::line_masks::check_any_line(&node.board) {
        proof {
            reveal_strlit(" ");
        }
        result.append(" ");
    } else if p < 16 {
        result.append(hex_digit_str(p));
    } else {
        proof {
            crate::bits::lemma_nibble_u8(p, 0);
        }
        result.append(hex_digit_str((p >> 4u8) & 0xFu8));
        result.append(hex_digit_str(p & 0xFu8));
    }
    assert(result@ =~= format_grid_spec(*node));
    result
}

} // verus!

verus! {

/// Why a node string does not parse.
#[derive(Debug, Clone, Copy, PartialEq, Eq, Structural)]
pub enum ParseError {
    /// Neither 17 bytes (grid) nor 22 bytes once trimmed (hex); `len` is the byte length.
    InvalidLength { len: usize },
    /// A 17-byte string that is not 17 characters.
    GridLength { chars: usize },
    /// A grid square that is neither a hex digit nor a space.
    InvalidPiece { pos: usize, ch: char },
    /// No piece to place (a space) on a position without a quarto.
    MissingPieceToPlace,
    /// A piece to place on a position that already has a quarto.
    TerminalWithPiece { ch: char },
    /// A piece to place that is not a hex digit.
    InvalidPieceToPlace { ch: char },
    /// A pair of hex characters that is not a byte in base 16.
    InvalidHexByte { hi: u8, lo: u8 },
}

/// The value of a hex digit (either case).
pub open spec fn char_hex_val(c: char) -> Option<u8> {
    if '0' <= c <= '9' {
        Some((c as u32 - 48) as u8)
    } else if 'a' <= c <= 'f' {
        Some((c as u32 - 87) as u8)
    } else if 'A' <= c <= 'F' {
        Some((c as u32 - 55) as u8)
    } else {
        None
    }
}

fn hex_value(c: char) -> (r: Option<u8>)
    ensures
        r == char_hex_val(c),
        r matches Some(v) ==> v < 16,
{
    if c >= '0' && c <= '9' {
        Some((c as u32 - 48) as u8)
    } else if c >= 'a' && c <= 'f' {
        Some((c as u32 - 87) as u8)
    } else if c >= 'A' && c <= 'F' {
        Some((c as u32 - 55) as u8)
    } else {
        None
    }
}

/// A grid square is a space or a hex digit.
pub open spec fn cell_ok(c: char) -> bool {
    c == ' ' || char_hex_val(c) is Some
}

/// Mask whose bit `i` (for `i < n`) is set when square `i` holds a piece
/// (when `a` is 4) or a piece with attribute bit `a` (when `a < 4`).
pub open spec fn grid_mask(cs: Seq<char>, a: u8, n: nat) -> u16
    decreases n,
{
    if n == 0 {
        0
    } else {
        let i = (n - 1) as int;
        let c = cs[i];
        let set = c != ' ' && (a == 4 || (char_hex_val(c).unwrap() >> a) & 1u8 == 1u8);
        (grid_mask(cs, a, (n - 1) as nat) | (if set { 1u16 << (i as u16) } else { 0u16 })) as u16
    }
}

/// The board drawn by the first sixteen grid characters.
pub open spec fn grid_board(cs: Seq<char>) -> Board {
    Board {
        occupancy: grid_mask(cs, 4, 16),
        attribute_masks: [grid_mask(cs, 0, 16), grid_mask(cs, 1, 16), grid_mask(cs, 2, 16), grid_mask(cs, 3, 16)],
    }
}

/// The first grid square that is neither a space nor a hex digit.
pub open spec fn first_bad_cell(cs: Seq<char>) -> int {
    choose|i: int| 0 <= i < 16 && !cell_ok(cs[i]) && forall|j: int| 0 <= j < i ==> cell_ok(#[trigger] cs[j])
}

/// The result of parsing a 17-character grid.
pub open spec fn parse_grid_spec(cs: Seq<char>) -> Result<Node, ParseError> {
    if cs.len() != 17 {
        Err(ParseError::GridLength { chars: cs.len() as usize })
    } else if exists|i: int| 0 <= i < 16 && !cell_ok(#[trigger] cs[i]) {
        Err(ParseError::InvalidPiece { pos: first_bad_cell(cs) as usize, ch: cs[first_bad_cell(cs)] })
    } else {
        let board = grid_board(cs);
        let q = crate::line_masks::has_quarto(board);
        if cs[16] == ' ' {
            if board.occupancy == 0 {
                Ok(crate::node::depth_0_sentinel_spec())
            } else if q {
                Ok(Node { board, piece_to_place: 0 })
            } else {
                Err(ParseError::MissingPieceToPlace)
            }
        } else if q {
            Err(ParseError::TerminalWithPiece { ch: cs[16] })
        } else {
            match char_hex_val(cs[16]) {
                Some(v) => Ok(Node { board, piece_to_place: v }),
                None => Err(ParseError::InvalidPieceToPlace { ch: cs[16] }),
            }
        }
    }
}

/// Parse from grid format: 16 squares + piece_to_place.
fn parse_node_grid(s: &str) -> (r: Result<Node, ParseError>)
    ensures
        r == parse_grid_spec(s@),
{
    let n = s.unicode_len();
    if n != 17 {
        return Err(ParseError::GridLength { chars: n });
    }
    let mut occupancy: u16 = 0;
    let mut a0: u16 = 0;
    let mut a1: u16 = 0;
    let mut a2: u16 = 0;
    let mut a3: u16 = 0;
    let mut pos: usize = 0;
    while pos < 16
        invariant
            pos <= 16,
            s@.len() == 17,
            forall|j: int| 0 <= j < pos ==> cell_ok(#[trigger] s@[j]),
            occupancy == grid_mask(s@, 4, pos as nat),
            a0 == grid_mask(s@, 0, pos as nat),
            a1 == grid_mask(s@, 1, pos as nat),
            a2 == grid_mask(s@, 2, pos as nat),
            a3 == grid_mask(s@, 3, pos as nat),
        decreases 16 - pos,
    {
        let ch = s.get_char(pos);
        let bit: u16 = 1u16 << (pos as u16);
        if ch == ' ' {
            proof {
                crate::bits::lemma_xor_u16(occupancy, 0, 0);
                crate::bits::lemma_xor_u16(a0, 0, 0);
                crate::bits::lemma_xor_u16(a1, 0, 0);
                crate::bits::lemma_xor_u16(a2, 0, 0);
                crate::bits::lemma_xor_u16(a3, 0, 0);
            }
        } else {
            match hex_value(ch) {
                None => {
                    proof {
                        assert(!cell_ok(s@[pos as int]));
                        let f = first_bad_cell(s@);
                        assert(f == pos) by {
                            if f < pos {
                                assert(cell_ok(s@[f]));
                            }
                            if f > pos {
                            }
                        }
                    }
                    return Err(ParseError::InvalidPiece { pos, ch });
                },
                Some(piece_id) => {
                    occupancy = occupancy | bit;
                    a0 = if (piece_id >> 0u8) & 1u8 == 1u8 { a0 | bit } else { a0 | 0u16 };
                    a1 = if (piece_id >> 1u8) & 1u8 == 1u8 { a1 | bit } else { a1 | 0u16 };
                    a2 = if (piece_id >> 2u8) & 1u8 == 1u8 { a2 | bit } else { a2 | 0u16 };
                    a3 = if (piece_id >> 3u8) & 1u8 == 1u8 { a3 | bit } else { a3 | 0u16 };
                },
            }
        }
        pos = pos + 1;
    }
    let board = Board { occupancy, attribute_masks: [a0, a1, a2, a3] };
    assert(board == grid_board(s@)) by {
        assert(board.attribute_masks =~= grid_board(s@).attribute_masks);
    }
    let has_quarto = crate::line_masks::check_any_line(&board);
    let last = s.get_char(16);
    if last == ' ' {
        if occupancy == 0 {
            return Ok(depth_0_sentinel());
        } else if has_quarto {
            return Ok(Node { board, piece_to_place: 0 });
        } else {
            return Err(ParseError::MissingPieceToPlace);
        }
    }
    if has_quarto {
        return Err(ParseError::TerminalWithPiece { ch: last });
    }
    match hex_value(last) {
        Some(piece_to_place) => Ok(Node { board, piece_to_place }),
        None => Err(ParseError::InvalidPieceToPlace { ch: last }),
    }
}

} // verus!

verus! {

/// Unicode `White_Space`, the characters that `str::trim` strips.
pub open spec fn is_unicode_whitespace(c: char) -> bool {
    ||| ('\u{9}' <= c && c <= '\u{d}')
    ||| c == ' '
    ||| c == '\u{85}'
    ||| c == '\u{a0}'
    ||| c == '\u{1680}'
    ||| ('\u{2000}' <= c && c <= '\u{200a}')
    ||| c == '\u{2028}'
    ||| c == '\u{2029}'
    ||| c == '\u{202f}'
    ||| c == '\u{205f}'
    ||| c == '\u{3000}'
}

/// Index of the first character at or after `i` that is not whitespace (or the length).
pub open spec fn trim_start_at(cs: Seq<char>, i: int) -> int
    decreases cs.len() - i,
{
    if 0 <= i < cs.len() && is_unicode_whitespace(cs[i]) {
        trim_start_at(cs, i + 1)
    } else {
        i
    }
}

/// End (exclusive) of `cs[lo..j]` once trailing whitespace is dropped.
pub open spec fn trim_end_at(cs: Seq<char>, lo: int, j: int) -> int
    decreases j - lo,
{
    if lo < j && is_unicode_whitespace(cs[j - 1]) {
        trim_end_at(cs, lo, j - 1)
    } else {
        j
    }
}

/// The characters left once leading and trailing whitespace are removed.
pub open spec fn trim_spec(cs: Seq<char>) -> Seq<char> {
    let s = trim_start_at(cs, 0);
    cs.subrange(s, trim_end_at(cs, s, cs.len() as int))
}

fn is_whitespace(c: char) -> (r: bool)
    ensures
        r == is_unicode_whitespace(c),
{
    (c >= '\u{9}' && c <= '\u{d}') || c == ' ' || c == '\u{85}' || c == '\u{a0}' || c == '\u{1680}'
        || (c >= '\u{2000}' && c <= '\u{200a}') || c == '\u{2028}' || c == '\u{2029}'
        || c == '\u{202f}' || c == '\u{205f}' || c == '\u{3000}'
}

/// `s` without leading and trailing whitespace.
pub fn trim_whitespace(s: &str) -> (r: &str)
    ensures
        r@ == trim_spec(s@),
{
    let n = s.unicode_len();
    let mut i: usize = 0;
    while i < n && is_whitespace(s.get_char(i))
        invariant
            i <= n,
            n == s@.len(),
            trim_start_at(s@, 0) == trim_start_at(s@, i as int),
        decreases n - i,
    {
        i = i + 1;
    }
    let mut j: usize = n;
    while j > i && is_whitespace(s.get_char(j - 1))
        invariant
            i <= j <= n,
            n == s@.len(),
            trim_start_at(s@, 0) == i,
            trim_end_at(s@, i as int, n as int) == trim_end_at(s@, i as int, j as int),
        decreases j - i,
    {
        j = j - 1;
    }
    s.substring_char(i, j)
}

} // verus!

verus! {

/// The value of an ASCII hex digit byte (either case).
pub open spec fn byte_hex_val(b: u8) -> Option<u8> {
    if 48 <= b <= 57 {
        Some((b - 48) as u8)
    } else if 97 <= b <= 102 {
        Some((b - 87) as u8)
    } else if 65 <= b <= 70 {
        Some((b - 55) as u8)
    } else {
        None
    }
}

/// What a two-byte string reads as in base 16: two hex digits, or a `+` sign and one digit.
pub open spec fn hex_pair_value(hi: u8, lo: u8) -> Option<u8> {
    if hi == 43 {
        byte_hex_val(lo)
    } else {
        match (byte_hex_val(hi), byte_hex_val(lo)) {
            (Some(h), Some(l)) => Some((h * 16 + l) as u8),
            _ => None,
        }
    }
}

/// Pair `k` of the text (bytes `2k` and `2k + 1`) reads as a byte.
pub open spec fn pair_ok(b: Seq<u8>, k: int) -> bool {
    hex_pair_value(b[2 * k], b[2 * k + 1]) is Some
}

/// The byte that pair `k` reads as.
pub open spec fn pair_val(b: Seq<u8>, k: int) -> u8 {
    hex_pair_value(b[2 * k], b[2 * k + 1]).unwrap()
}

/// The first of the eleven pairs that does not read as a byte.
pub open spec fn first_bad_pair(b: Seq<u8>) -> int {
    choose|k: int| 0 <= k < 11 && !pair_ok(b, k) && forall|j: int| 0 <= j < k ==> #[trigger] pair_ok(b, j)
}

/// The node that 22 bytes of hex text stand for: eleven bytes, the first ten
/// a serialized board and the upper nibble of the last the piece to place.
pub open spec fn parse_hex_spec(b: Seq<u8>) -> Result<Node, ParseError> {
    if exists|k: int| 0 <= k < 11 && !#[trigger] pair_ok(b, k) {
        let k = first_bad_pair(b);
        Err(ParseError::InvalidHexByte { hi: b[2 * k], lo: b[2 * k + 1] })
    } else {
        let v = Seq::new(11, |k: int| pair_val(b, k));
        Ok(Node { board: Board::from_bytes_spec(v.subrange(0, 10)), piece_to_place: v[10] >> 4u8 })
    }
}

/// The result of parsing a node string: a 17-byte string is a grid; any other
/// string is trimmed and read as hex when 22 bytes remain.
pub open spec fn parse_node_spec(cs: Seq<char>) -> Result<Node, ParseError> {
    if vstd::utf8::encode_utf8(cs).len() == 17 {
        parse_grid_spec(cs)
    } else {
        let t = vstd::utf8::encode_utf8(trim_spec(cs));
        if t.len() == 22 {
            parse_hex_spec(t)
        } else {
            Err(ParseError::InvalidLength { len: vstd::utf8::encode_utf8(cs).len() as usize })
        }
    }
}

fn hex_byte_value(b: u8) -> (r: Option<u8>)
    ensures
        r == byte_hex_val(b),
{
    if b >= 48 && b <= 57 {
        Some(b - 48)
    } else if b >= 97 && b <= 102 {
        Some(b - 87)
    } else if b >= 65 && b <= 70 {
        Some(b - 55)
    } else {
        None
    }
}

fn hex_pair(hi: u8, lo: u8) -> (r: Option<u8>)
    ensures
        r == hex_pair_value(hi, lo),
{
    if hi == 43 {
        return hex_byte_value(lo);
    }
    match (hex_byte_value(hi), hex_byte_value(lo)) {
        (Some(h), Some(l)) => Some(h * 16 + l),
        _ => None,
    }
}

/// Parse from 22 hex characters (11 bytes).
#[verifier::spinoff_prover]
fn parse_node_hex(s: &str) -> (r: Result<Node, ParseError>)
    requires
        s.spec_bytes().len() == 22,
    ensures
        r == parse_hex_spec(s.spec_bytes()),
{
    let b = s.as_bytes();
    let mut vals: Vec<u8> = Vec::new();
    let mut k: usize = 0;
    while k < 11
        invariant
            k <= 11,
            b@ == s.spec_bytes(),
            b@.len() == 22,
            vals@.len() == k,
            forall|j: int| 0 <= j < k ==> #[trigger] pair_ok(b@, j) && vals@[j] == pair_val(b@, j),
        decreases 11 - k,
    {
        let hi = b[2 * k];
        let lo = b[2 * k + 1];
        match hex_pair(hi, lo) {
            None => {
                proof {
                    assert(!pair_ok(b@, k as int));
                    let f = first_bad_pair(b@);
                    assert(f == k) by {
                        if f < k {
                            assert(pair_ok(b@, f));
                        }
                        if f > k {
                        }
                    }
                }
                return Err(ParseError::InvalidHexByte { hi, lo });
            },
            Some(v) => {
                vals.push(v);
            },
        }
        k = k + 1;
    }
    let bytes: [u8; 10] = [vals[0], vals[1], vals[2], vals[3], vals[4], vals[5], vals[6], vals[7], vals[8], vals[9]];
    let board = Board::from_bytes(&bytes);
    proof {
        let v = Seq::new(11, |k: int| pair_val(b@, k));
        assert forall|j: int| 0 <= j < 10 implies bytes@[j] == v[j] by {
            assert(pair_ok(b@, j));
        }
        assert(bytes@ =~= v.subrange(0, 10));
        assert(pair_ok(b@, 10) && vals@[10] == pair_val(b@, 10));
        assert(vals@[10] == v[10]);
        assert(!exists|k: int| 0 <= k < 11 && !#[trigger] pair_ok(b@, k));
    }
    Ok(Node { board, piece_to_place: vals[10] >> 4u8 })
}

/// Parse a node from string representation. Two formats are read:
/// 22 hex characters (11 bytes, surrounding whitespace allowed), and the
/// 17-character grid (16 squares, then the piece to place).
pub fn parse_node(s: &str) -> (r: Result<Node, ParseError>)
    ensures
        r == parse_node_spec(s@),
{
    let len = s.as_bytes().len();
    if len == 17 {
        parse_node_grid(s)
    } else {
        let trimmed = trim_whitespace(s);
        if trimmed.as_bytes().len() == 22 {
            parse_node_hex(trimmed)
        } else {
            Err(ParseError::InvalidLength { len })
        }
    }
}

} // verus!


verus! {

proof fn lemma_hex_digit(d: u8)
    requires
        d < 16,
    ensures
        byte_hex_val(hex_char(d) as u8) == Some(d),
        hex_char(d) as u8 != 43,
        '\0' <= hex_char(d) <= '\u{7f}',
        !is_unicode_whitespace(hex_char(d)),
{
}

proof fn lemma_hex_pair_of(x: u8, y: u8)
    requires
        x < 16,
        y < 16,
    ensures
        hex_pair_value(hex_char(x) as u8, hex_char(y) as u8) == Some((x * 16 + y) as u8),
{
    lemma_hex_digit(x);
    lemma_hex_digit(y);
}

proof fn lemma_nibbles(x: u16)
    by (bit_vector)
    ensures
        ((x >> 12u16) & 0xfu16) < 16,
        ((x >> 8u16) & 0xfu16) < 16,
        ((x >> 4u16) & 0xfu16) < 16,
        (x & 0xfu16) < 16,
        (((x >> 12u16) & 0xfu16) * 16 + ((x >> 8u16) & 0xfu16)) as u8 == (x >> 8u16) as u8,
        (((x >> 4u16) & 0xfu16) * 16 + (x & 0xfu16)) as u8 == (x & 0xffu16) as u8,
{
}

/// The sixteen-bit words that the hex form writes, in order.
spec fn hex_words(n: Node) -> Seq<u16> {
    seq![n.board.occupancy, n.board.attr(3), n.board.attr(2), n.board.attr(1), n.board.attr(0)]
}

proof fn lemma_hex_text_chars(n: Node)
    requires
        n.piece_to_place < 16,
    ensures
        format_hex_spec(n).len() == 22,
        forall|w: int| 0 <= w < 5 ==> {
            let x = #[trigger] hex_words(n)[w];
            &&& format_hex_spec(n)[4 * w] == hex_char(((x >> 12u16) & 0xfu16) as u8)
            &&& format_hex_spec(n)[4 * w + 1] == hex_char(((x >> 8u16) & 0xfu16) as u8)
            &&& format_hex_spec(n)[4 * w + 2] == hex_char(((x >> 4u16) & 0xfu16) as u8)
            &&& format_hex_spec(n)[4 * w + 3] == hex_char((x & 0xfu16) as u8)
        },
        format_hex_spec(n)[20] == hex_char(n.piece_to_place),
        format_hex_spec(n)[21] == hex_char(0),
        forall|i: int| 0 <= i < 22 ==> exists|d: u8| d < 16 && #[trigger] format_hex_spec(n)[i] == hex_char(d),
{
    let cs = format_hex_spec(n);
    let words = hex_words(n);
    let p = n.piece_to_place;
    crate::bits::lemma_nibble_u8(0, p);
    assert forall|i: int| 0 <= i < 22 implies exists|d: u8| d < 16 && #[trigger] cs[i] == hex_char(d) by {
        if i < 20 {
            let w = i / 4;
            let x = words[w];
            lemma_nibbles(x);
            if i % 4 == 0 {
                assert(cs[i] == hex_char(((x >> 12u16) & 0xfu16) as u8));
            } else if i % 4 == 1 {
                assert(cs[i] == hex_char(((x >> 8u16) & 0xfu16) as u8));
            } else if i % 4 == 2 {
                assert(cs[i] == hex_char(((x >> 4u16) & 0xfu16) as u8));
            } else {
                assert(cs[i] == hex_char((x & 0xfu16) as u8));
            }
        } else if i == 20 {
            assert(cs[i] == hex_char(p));
        } else {
            assert(cs[i] == hex_char(0));
        }
    }
}

proof fn lemma_hex_text_bytes(n: Node)
    requires
        n.piece_to_place < 16,
    ensures
        vstd::utf8::encode_utf8(format_hex_spec(n)).len() == 22,
        trim_spec(format_hex_spec(n)) == format_hex_spec(n),
        forall|i: int| 0 <= i < 22 ==> vstd::utf8::encode_utf8(format_hex_spec(n))[i] == #[trigger] format_hex_spec(n)[i] as u8,
{
    let cs = format_hex_spec(n);
    lemma_hex_text_chars(n);
    assert forall|i: int| 0 <= i < 22 implies '\0' <= #[trigger] cs[i] <= '\u{7f}' && !is_unicode_whitespace(cs[i]) by {
        let d = choose|d: u8| d < 16 && cs[i] == hex_char(d);
        lemma_hex_digit(d);
    }
    assert(vstd::utf8::is_ascii_chars(cs));
    vstd::utf8::is_ascii_chars_encode_utf8(cs);
    assert(trim_start_at(cs, 0) == 0);
    assert(trim_end_at(cs, 0, 22) == 22);
    assert(trim_spec(cs) =~= cs);
}

#[verifier::spinoff_prover]
#[verifier::rlimit(30)]
proof fn lemma_hex_text_pairs(n: Node)
    requires
        n.piece_to_place < 16,
    ensures
        forall|k: int| 0 <= k < 11 ==> #[trigger] pair_ok(vstd::utf8::encode_utf8(format_hex_spec(n)), k)
            && pair_val(vstd::utf8::encode_utf8(format_hex_spec(n)), k) == n.bytes_spec()[k],
{
    let cs = format_hex_spec(n);
    let b = vstd::utf8::encode_utf8(cs);
    let words = hex_words(n);
    let p = n.piece_to_place;
    lemma_hex_text_chars(n);
    lemma_hex_text_bytes(n);
    let want = n.bytes_spec();
    assert forall|k: int| 0 <= k < 11 implies #[trigger] pair_ok(b, k) && pair_val(b, k) == want[k] by {
        assert(b[2 * k] == cs[2 * k] as u8);
        assert(b[2 * k + 1] == cs[2 * k + 1] as u8);
        if k < 10 {
            let w = k / 2;
            let x = words[w];
            lemma_nibbles(x);
            if k % 2 == 0 {
                lemma_hex_pair_of(((x >> 12u16) & 0xfu16) as u8, ((x >> 8u16) & 0xfu16) as u8);
            } else {
                lemma_hex_pair_of(((x >> 4u16) & 0xfu16) as u8, (x & 0xfu16) as u8);
            }
        } else {
            lemma_hex_pair_of(p, 0);
            crate::bits::lemma_nibble_u8(0, p);
        }
    }
}

/// Formatting a node as hex and parsing the text gives the node back, for
/// every node whose piece fits in the four bits the format keeps.
pub proof fn lemma_hex_roundtrip(n: Node)
    requires
        n.piece_to_place < 16,
    ensures
        parse_node_spec(format_hex_spec(n)) == Ok::<Node, ParseError>(n),
{
    let cs = format_hex_spec(n);
    let b = vstd::utf8::encode_utf8(cs);
    let p = n.piece_to_place;
    lemma_hex_text_bytes(n);
    lemma_hex_text_pairs(n);
    let v = Seq::new(11, |k: int| pair_val(b, k));
    assert(!exists|k: int| 0 <= k < 11 && !#[trigger] pair_ok(b, k));
    assert forall|k: int| 0 <= k < 11 implies v[k] == n.bytes_spec()[k] by {
        assert(pair_ok(b, k));
    }
    assert(v =~= n.bytes_spec());
    assert(v.subrange(0, 10) =~= n.board.bytes_spec());
    crate::bits::lemma_nibble_u8(0, p);
    crate::board::lemma_board_bytes_roundtrip(n.board);
}

/// `c` with an upper-case hex letter turned to lower case.
pub open spec fn lower_hex_char(c: char) -> char {
    if 'A' <= c <= 'F' {
        ((c as u32) + 32) as char
    } else {
        c
    }
}

/// The text with its upper-case hex letters written in lower case.
pub open spec fn lower_hex_text(cs: Seq<char>) -> Seq<char> {
    cs.map_values(|c: char| lower_hex_char(c))
}

proof fn lemma_lower_hex_digit(d: u8)
    requires
        d < 16,
    ensures
        byte_hex_val(lower_hex_char(hex_char(d)) as u8) == Some(d),
        lower_hex_char(hex_char(d)) as u8 != 43,
        '\0' <= lower_hex_char(hex_char(d)) <= '\u{7f}',
        !is_unicode_whitespace(lower_hex_char(hex_char(d))),
{
}

/// The hex form of a node also reads back in lower case: parsing the
/// lower-case text gives the node, for every node whose piece fits in the
/// four bits the format keeps.
#[verifier::spinoff_prover]
#[verifier::rlimit(30)]
pub proof fn lemma_lower_hex_roundtrip(n: Node)
    requires
        n.piece_to_place < 16,
    ensures
        parse_node_spec(lower_hex_text(format_hex_spec(n))) == Ok::<Node, ParseError>(n),
{
    let cs = format_hex_spec(n);
    let ls = lower_hex_text(cs);
    let b = vstd::utf8::encode_utf8(cs);
    lemma_hex_roundtrip(n);
    lemma_hex_text_chars(n);
    lemma_hex_text_bytes(n);
    lemma_hex_text_pairs(n);
    assert(ls.len() == 22);
    assert forall|i: int| 0 <= i < 22 implies '\0' <= #[trigger] ls[i] <= '\u{7f}'
        && !is_unicode_whitespace(ls[i])
        && byte_hex_val(ls[i] as u8) == byte_hex_val(cs[i] as u8)
        && ls[i] as u8 != 43 by {
        let d = choose|d: u8| d < 16 && cs[i] == hex_char(d);
        lemma_lower_hex_digit(d);
        lemma_hex_digit(d);
    }
    assert(vstd::utf8::is_ascii_chars(ls));
    vstd::utf8::is_ascii_chars_encode_utf8(ls);
    let bl = vstd::utf8::encode_utf8(ls);
    assert(trim_start_at(ls, 0) == 0);
    assert(trim_end_at(ls, 0, 22) == 22);
    assert(trim_spec(ls) =~= ls);
    assert(bl.len() == 22);
    assert forall|k: int| 0 <= k < 11 implies #[trigger] pair_ok(bl, k) && pair_val(bl, k) == pair_val(b, k) by {
        assert(pair_ok(b, k));
        assert(bl[2 * k] == ls[2 * k] as u8);
        assert(bl[2 * k + 1] == ls[2 * k + 1] as u8);
        assert(b[2 * k] == cs[2 * k] as u8);
        assert(b[2 * k + 1] == cs[2 * k + 1] as u8);
        assert(byte_hex_val(bl[2 * k]) == byte_hex_val(b[2 * k]));
        assert(byte_hex_val(bl[2 * k + 1]) == byte_hex_val(b[2 * k + 1]));
        assert(b[2 * k] != 43);
    }
    assert(!exists|k: int| 0 <= k < 11 && !#[trigger] pair_ok(bl, k));
    assert(!exists|k: int| 0 <= k < 11 && !#[trigger] pair_ok(b, k));
    assert(Seq::new(11, |k: int| pair_val(bl, k)) =~= Seq::new(11, |k: int| pair_val(b, k)));
}

} // verus!

verus! {

/// The mask that `grid_mask` rebuilds for selector `a`: the occupancy for 4,
/// attribute mask `a` below that.
spec fn grid_target(b: Board, a: u8) -> u16 {
    if a == 4 {
        b.occupancy
    } else {
        b.attr(a as int)
    }
}

proof fn lemma_grid_cell_bit(n: Node, i: int, a: u8)
    requires
        crate::place::masks_within_occupancy(n.board),
        0 <= i < 16,
        a <= 4,
    ensures
        ({
            let c = grid_cell(n.board, i);
            c != ' ' && (a == 4 || (char_hex_val(c).unwrap() >> a) & 1u8 == 1u8)
        }) == ((grid_target(n.board, a) >> (i as u16)) & 1u16 == 1u16),
{
    let b = n.board;
    let o = b.occupancy;
    let ii = i as u16;
    let sq = 1u16 << ii;
    let a0 = b.attr(0);
    let a1 = b.attr(1);
    let a2 = b.attr(2);
    let a3 = b.attr(3);
    let pc = b.piece_at_spec(sq);
    crate::bits::lemma_piece_bits(a0, a1, a2, a3, sq);
    lemma_hex_digit(pc);
    lemma_grid_cell_bv(o, a0, a1, a2, a3, ii, sq, pc);
}

proof fn lemma_grid_mask_prefix(n: Node, cs: Seq<char>, a: u8, m: nat)
    requires
        crate::place::masks_within_occupancy(n.board),
        a <= 4,
        m <= 16,
        cs.len() >= 16,
        forall|i: int| 0 <= i < 16 ==> #[trigger] cs[i] == grid_cell(n.board, i),
    ensures
        grid_mask(cs, a, m) as u32 == (grid_target(n.board, a) as u32) & ((1u32 << (m as u32)) - 1u32) as u32,
    decreases m,
{
    let t = grid_target(n.board, a);
    if m == 0 {
        lemma_low_mask(t, 0, 0, 0, 1);
    } else {
        let k = (m - 1) as u32;
        lemma_grid_mask_prefix(n, cs, a, (m - 1) as nat);
        lemma_grid_cell_bit(n, k as int, a);
        let prev = grid_mask(cs, a, (m - 1) as nat);
        let kk = k as u16;
        let k1 = m as u32;
        assert(kk as u32 == k && k1 == k + 1);
        assert(cs[k as int] == grid_cell(n.board, k as int));
        let next = ((prev | (if (t >> kk) & 1u16 == 1u16 { 1u16 << kk } else { 0u16 })) as u16);
        lemma_low_mask(t, prev, next, k, k1);
    }
}

/// Formatting a node as a grid and parsing the text gives the node back, for
/// the root position and for every position whose attribute masks lie within
/// its occupancy and whose piece is a piece id, piece 0 when the position
/// holds a quarto.
pub proof fn lemma_grid_roundtrip(n: Node)
    requires
        n == crate::node::depth_0_sentinel_spec() || {
            &&& crate::place::masks_within_occupancy(n.board)
            &&& n.piece_to_place < 16
            &&& crate::line_masks::has_quarto(n.board) ==> n.piece_to_place == 0
        },
    ensures
        parse_node_spec(format_grid_spec(n)) == Ok::<Node, ParseError>(n),
{
    let cs = format_grid_spec(n);
    if n == crate::node::depth_0_sentinel_spec() {
        assert(cs.len() == 17);
        assert(vstd::utf8::is_ascii_chars(cs));
        vstd::utf8::is_ascii_chars_encode_utf8(cs);
        assert forall|a: u8, m: nat| a <= 4 && m <= 16 implies grid_mask(cs, a, m) == 0 by {
            lemma_grid_mask_zero(cs, a, m);
        }
        assert(grid_board(cs).attribute_masks =~= [0u16, 0u16, 0u16, 0u16]);
    } else {
        let p = n.piece_to_place;
        assert(cs.len() == 17);
        assert forall|i: int| 0 <= i < 16 implies #[trigger] cs[i] == grid_cell(n.board, i) by {}
        if crate::line_masks::has_quarto(n.board) {
            assert(cs[16] == ' ');
            if n.board.occupancy == 0 {
                let k = choose|k: int| 0 <= k < 10 && crate::line_masks::is_quarto_line(n.board, #[trigger] crate::line_masks::line_masks_spec()[k]);
                let l = crate::line_masks::line_masks_spec()[k];
                assert((0u16 & l) == 0u16) by (bit_vector);
                assert(false);
            }
        } else {
            assert(cs[16] == hex_char(p));
        }
        lemma_hex_digit(p);
        assert forall|i: int| 0 <= i < 17 implies '\0' <= #[trigger] cs[i] <= '\u{7f}' && cell_ok(cs[i]) by {
            if i < 16 {
                let sq = 1u16 << (i as u16);
                let pc = n.board.piece_at_spec(sq);
                let (a0, a1, a2, a3) = (n.board.attr(0), n.board.attr(1), n.board.attr(2), n.board.attr(3));
                crate::bits::lemma_piece_bits(a0, a1, a2, a3, sq);
                lemma_hex_digit(pc);
            }
        }
        assert(vstd::utf8::is_ascii_chars(cs));
        vstd::utf8::is_ascii_chars_encode_utf8(cs);
        lemma_grid_mask_prefix(n, cs, 4, 16);
        lemma_grid_mask_prefix(n, cs, 0, 16);
        lemma_grid_mask_prefix(n, cs, 1, 16);
        lemma_grid_mask_prefix(n, cs, 2, 16);
        lemma_grid_mask_prefix(n, cs, 3, 16);
        lemma_full_low_mask(n.board.occupancy);
        lemma_full_low_mask(n.board.attr(0));
        lemma_full_low_mask(n.board.attr(1));
        lemma_full_low_mask(n.board.attr(2));
        lemma_full_low_mask(n.board.attr(3));
        assert(grid_board(cs).attribute_masks =~= n.board.attribute_masks);
        assert(grid_board(cs) == n.board);
        assert(!exists|i: int| 0 <= i < 16 && !cell_ok(#[trigger] cs[i]));
    }
}

proof fn lemma_low_mask(t: u16, prev: u16, next: u16, k: u32, k1: u32)
    by (bit_vector)
    ensures
        (t as u32) & ((1u32 << 0u32) - 1u32) as u32 == 0u32,
        (t as u32) & ((1u32 << 16u32) - 1u32) as u32 == t as u32,
        k < 16u32 && k1 == k + 1u32 && prev as u32 == (t as u32) & ((1u32 << k) - 1u32) as u32
            && next == ((prev | (if (t >> (k as u16)) & 1u16 == 1u16 { 1u16 << (k as u16) } else { 0u16 })) as u16)
            ==> next as u32 == (t as u32) & ((1u32 << k1) - 1u32) as u32,
{
}

proof fn lemma_grid_cell_bv(o: u16, a0: u16, a1: u16, a2: u16, a3: u16, ii: u16, sq: u16, pc: u8)
    by (bit_vector)
    requires
        ii < 16u16,
        sq == 1u16 << ii,
        pc == ((if a0 & sq != 0 { 1u8 } else { 0u8 }) | (if a1 & sq != 0 { 2u8 } else { 0u8 })
            | (if a2 & sq != 0 { 4u8 } else { 0u8 }) | (if a3 & sq != 0 { 8u8 } else { 0u8 })) as u8,
    ensures
        ((pc >> 0u8) & 1u8 == 1u8) == ((a0 >> ii) & 1u16 == 1u16),
        ((pc >> 1u8) & 1u8 == 1u8) == ((a1 >> ii) & 1u16 == 1u16),
        ((pc >> 2u8) & 1u8 == 1u8) == ((a2 >> ii) & 1u16 == 1u16),
        ((pc >> 3u8) & 1u8 == 1u8) == ((a3 >> ii) & 1u16 == 1u16),
        a0 & !o == 0u16 && a1 & !o == 0u16 && a2 & !o == 0u16 && a3 & !o == 0u16 && (o >> ii) & 1u16 != 1u16
            ==> (a0 >> ii) & 1u16 != 1u16 && (a1 >> ii) & 1u16 != 1u16 && (a2 >> ii) & 1u16 != 1u16 && (a3 >> ii) & 1u16 != 1u16,
{
}

proof fn lemma_full_low_mask(x: u16)
    ensures
        (x as u32) & ((1u32 << 16u32) - 1u32) as u32 == x as u32,
{
    lemma_low_mask(x, 0, 0, 0, 1);
}

proof fn lemma_grid_mask_zero(cs: Seq<char>, a: u8, m: nat)
    requires
        m <= cs.len(),
        forall|i: int| 0 <= i < cs.len() ==> #[trigger] cs[i] == ' ',
    ensures
        grid_mask(cs, a, m) == 0,
    decreases m,
{
    if m > 0 {
        lemma_grid_mask_zero(cs, a, (m - 1) as nat);
        crate::bits::lemma_xor_u16(0, 0, 0);
    }
}

} // verus!

verus! {

/// A parsed position is the root or names a piece to place (below 16), so
/// it can be evaluated and analyzed.
pub proof fn lemma_parsed_piece(cs: Seq<char>)
    ensures
        parse_node_spec(cs) matches Ok(n) ==> n == crate::node::depth_0_sentinel_spec() || n.piece_to_place < 16,
{
    if parse_node_spec(cs) is Ok {
        let n = parse_node_spec(cs)->Ok_0;
        if vstd::utf8::encode_utf8(cs).len() != 17 {
            let t = vstd::utf8::encode_utf8(trim_spec(cs));
            let v = Seq::new(11, |k: int| pair_val(t, k));
            let x = v[10];
            assert(x >> 4u8 < 16u8) by (bit_vector);
        }
    }
}

} // verus!
