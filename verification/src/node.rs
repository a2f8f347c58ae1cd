//! A position: a board together with the piece the player to move must place.

use vstd::prelude::*;
use vstd::std_specs::cmp::PartialEqSpec;
use crate::board::{Board, lemma_board_bytes_roundtrip, lemma_board_bytes_roundtrip_rev, lemma_board_eq};

verus! {

/// A game-tree node: the board and the id (0..16) of the piece to place.
#[derive(Clone, Copy, Debug, Eq, PartialOrd)]
pub struct Node {
    pub board: Board,
    pub piece_to_place: u8,
}

impl PartialEq for Node {
    fn eq(&self, other: &Node) -> (r: bool) {
        proof {
            lemma_board_eq(self.board, other.board);
        }
        self.board == other.board && self.piece_to_place == other.piece_to_place
    }
}

impl vstd::std_specs::cmp::PartialEqSpecImpl for Node {
    open spec fn obeys_eq_spec() -> bool {
        true
    }

    open spec fn eq_spec(&self, other: &Node) -> bool {
        self.board == other.board && self.piece_to_place == other.piece_to_place
    }
}

/// Nodes are equal exactly when their boards and pieces are.
pub proof fn lemma_node_eq(a: Node, b: Node)
    ensures
        a.eq_spec(&b) <==> a == b,
{
}

/// The root position (empty board, no piece chosen yet), written with all bits set.
pub open spec fn depth_0_sentinel_spec() -> Node {
    Node {
        board: Board { occupancy: 0xFFFF, attribute_masks: [0xFFFF, 0xFFFF, 0xFFFF, 0xFFFF] },
        piece_to_place: 0xFF,
    }
}

/// The only canonical position at depth 1: empty board, piece 0 to place.
pub open spec fn depth_1_canonical_spec() -> Node {
    Node { board: Board { occupancy: 0, attribute_masks: [0, 0, 0, 0] }, piece_to_place: 0 }
}

/// Used to represent the root position.
pub fn depth_0_sentinel() -> (r: Node)
    ensures
        r == depth_0_sentinel_spec(),
{
    Node {
        board: Board { occupancy: 0xFFFF, attribute_masks: [0xFFFF, 0xFFFF, 0xFFFF, 0xFFFF] },
        piece_to_place: 0xFF,
    }
}

/// The only canonical move in depth 1.
pub fn depth_1_canonical() -> (r: Node)
    ensures
        r == depth_1_canonical_spec(),
{
    Node { board: Board { occupancy: 0, attribute_masks: [0, 0, 0, 0] }, piece_to_place: 0 }
}

impl Node {
    /// Serialized form: the board's 10 bytes, then the piece in the upper nibble.
    pub open spec fn bytes_spec(self) -> Seq<u8> {
        self.board.bytes_spec().push((self.piece_to_place << 4u8) as u8)
    }

    /// The node that an 11-byte serialization stands for.
    pub open spec fn from_bytes_spec(x: Seq<u8>) -> Node {
        Node { board: Board::from_bytes_spec(x.subrange(0, 10)), piece_to_place: (x[10] >> 4u8) as u8 }
    }

    /// Lexicographic order on (board, piece to place).
    pub open spec fn lt_spec(self, other: Node) -> bool {
        if self.board != other.board {
            self.board.lt_spec(other.board)
        } else {
            self.piece_to_place < other.piece_to_place
        }
    }

    pub fn to_bytes(self) -> (r: [u8; 11])
        ensures
            r@ == self.bytes_spec(),
    {
        let b = self.board.to_bytes();
        let r = [b[0], b[1], b[2], b[3], b[4], b[5], b[6], b[7], b[8], b[9], self.piece_to_place << 4u8];
        assert(r@ =~= self.bytes_spec());
        r
    }

    pub fn from_bytes(x: &[u8; 11]) -> (r: Self)
        ensures
            r == Node::from_bytes_spec(x@),
    {
        let b = [x[0], x[1], x[2], x[3], x[4], x[5], x[6], x[7], x[8], x[9]];
        assert(b@ =~= x@.subrange(0, 10));
        Node { board: Board::from_bytes(&b), piece_to_place: x[10] >> 4u8 }
    }

    /// Deserialize from a byte slice, which must hold exactly 11 bytes.
    pub fn from_byte_slice(bytes: &[u8]) -> (r: Self)
        requires
            bytes@.len() == 11,
        ensures
            r == Node::from_bytes_spec(bytes@),
    {
        let b = [bytes[0], bytes[1], bytes[2], bytes[3], bytes[4], bytes[5], bytes[6], bytes[7], bytes[8], bytes[9]];
        assert(b@ =~= bytes@.subrange(0, 10));
        Node { board: Board::from_bytes(&b), piece_to_place: bytes[10] >> 4u8 }
    }

    /// Whether `self` orders strictly before `other`.
    pub fn less_than(&self, other: &Node) -> (r: bool)
        ensures
            r == self.lt_spec(*other),
    {
        proof {
            lemma_board_eq(self.board, other.board);
        }
        if !self.board.equals(&other.board) {
            self.board.less_than(&other.board)
        } else {
            self.piece_to_place < other.piece_to_place
        }
    }

    /// Fieldwise equality, usable where a node's `==` is wanted in exec code.
    pub fn equals(&self, other: &Node) -> (r: bool)
        ensures
            r == (*self == *other),
    {
        self.board.equals(&other.board) && self.piece_to_place == other.piece_to_place
    }
}

/// Serializing a node with a piece id below 16 and deserializing gives it back.
pub proof fn lemma_node_bytes_roundtrip(n: Node)
    requires
        n.piece_to_place < 16,
    ensures
        Node::from_bytes_spec(n.bytes_spec()) == n,
{
    lemma_board_bytes_roundtrip(n.board);
    assert(n.bytes_spec().subrange(0, 10) =~= n.board.bytes_spec());
    let p = n.piece_to_place;
    crate::bits::lemma_nibble_u8(0, p);
}

/// Deserializing 11 bytes whose last low nibble is zero and serializing gives them back.
pub proof fn lemma_node_bytes_roundtrip_rev(x: Seq<u8>)
    requires
        x.len() == 11,
        x[10] & 0x0fu8 == 0,
    ensures
        Node::from_bytes_spec(x).bytes_spec() == x,
{
    lemma_board_bytes_roundtrip_rev(x.subrange(0, 10));
    let b = x[10];
    crate::bits::lemma_nibble_u8(b, 0);
    assert(Node::from_bytes_spec(x).bytes_spec() =~= x);
}

} // verus!

verus! {

/// The node order is a strict total order.
pub proof fn lemma_node_lt_order(a: Node, b: Node, c: Node)
    ensures
        !a.lt_spec(a),
        a.lt_spec(b) && b.lt_spec(c) ==> a.lt_spec(c),
        a != b ==> a.lt_spec(b) || b.lt_spec(a),
        a.lt_spec(b) ==> !b.lt_spec(a),
{
    if a.board.occupancy == b.board.occupancy && a.board.attr(0) == b.board.attr(0) && a.board.attr(1) == b.board.attr(1)
        && a.board.attr(2) == b.board.attr(2) && a.board.attr(3) == b.board.attr(3) {
        assert(a.board.attribute_masks =~= b.board.attribute_masks);
    }
    if b.board.occupancy == c.board.occupancy && b.board.attr(0) == c.board.attr(0) && b.board.attr(1) == c.board.attr(1)
        && b.board.attr(2) == c.board.attr(2) && b.board.attr(3) == c.board.attr(3) {
        assert(b.board.attribute_masks =~= c.board.attribute_masks);
    }
    if a.board.occupancy == c.board.occupancy && a.board.attr(0) == c.board.attr(0) && a.board.attr(1) == c.board.attr(1)
        && a.board.attr(2) == c.board.attr(2) && a.board.attr(3) == c.board.attr(3) {
        assert(a.board.attribute_masks =~= c.board.attribute_masks);
    }
}

} // verus!

verus! {

/// Lexicographic order on byte strings, from index `k` on.
pub open spec fn bytes_lt_from(x: Seq<u8>, y: Seq<u8>, k: int) -> bool
    decreases x.len() - k,
{
    if k < 0 || k >= x.len() || k >= y.len() {
        false
    } else if x[k] != y[k] {
        x[k] < y[k]
    } else {
        bytes_lt_from(x, y, k + 1)
    }
}

proof fn lemma_u16_byte_order(x: u16, y: u16)
    by (bit_vector)
    ensures
        (x == y) == ((x >> 8u16) as u8 == (y >> 8u16) as u8 && (x & 0xffu16) as u8 == (y & 0xffu16) as u8),
        (x < y) == (((x >> 8u16) as u8) < ((y >> 8u16) as u8)
            || (((x >> 8u16) as u8) == ((y >> 8u16) as u8) && ((x & 0xffu16) as u8) < ((y & 0xffu16) as u8))),
{
}

proof fn lemma_nibble_order(p: u8, q: u8)
    by (bit_vector)
    requires
        p < 16,
        q < 16,
    ensures
        ((p << 4u8) as u8 == (q << 4u8) as u8) == (p == q),
        (((p << 4u8) as u8) < ((q << 4u8) as u8)) == (p < q),
{
}

/// The node order is the order of the serialized bytes, for nodes whose
/// piece is a piece id.
pub proof fn lemma_lt_is_byte_order(a: Node, b: Node)
    requires
        a.piece_to_place < 16,
        b.piece_to_place < 16,
    ensures
        a.lt_spec(b) == bytes_lt_from(a.bytes_spec(), b.bytes_spec(), 0),
{
    let x = a.bytes_spec();
    let y = b.bytes_spec();
    lemma_u16_byte_order(a.board.occupancy, b.board.occupancy);
    lemma_u16_byte_order(a.board.attr(3), b.board.attr(3));
    lemma_u16_byte_order(a.board.attr(2), b.board.attr(2));
    lemma_u16_byte_order(a.board.attr(1), b.board.attr(1));
    lemma_u16_byte_order(a.board.attr(0), b.board.attr(0));
    lemma_nibble_order(a.piece_to_place, b.piece_to_place);
    assert(bytes_lt_from(x, y, 11) == false);
    assert(bytes_lt_from(x, y, 10) == bytes_lt_from(x, y, 10));
    if a.board.occupancy == b.board.occupancy && a.board.attr(3) == b.board.attr(3) && a.board.attr(2) == b.board.attr(2)
        && a.board.attr(1) == b.board.attr(1) && a.board.attr(0) == b.board.attr(0) {
        assert(a.board.attribute_masks =~= b.board.attribute_masks);
    }
    assert(bytes_lt_from(x, y, 9) == (if x[9] != y[9] { x[9] < y[9] } else { bytes_lt_from(x, y, 10) }));
    assert(bytes_lt_from(x, y, 8) == (if x[8] != y[8] { x[8] < y[8] } else { bytes_lt_from(x, y, 9) }));
    assert(bytes_lt_from(x, y, 7) == (if x[7] != y[7] { x[7] < y[7] } else { bytes_lt_from(x, y, 8) }));
    assert(bytes_lt_from(x, y, 6) == (if x[6] != y[6] { x[6] < y[6] } else { bytes_lt_from(x, y, 7) }));
    assert(bytes_lt_from(x, y, 5) == (if x[5] != y[5] { x[5] < y[5] } else { bytes_lt_from(x, y, 6) }));
    assert(bytes_lt_from(x, y, 4) == (if x[4] != y[4] { x[4] < y[4] } else { bytes_lt_from(x, y, 5) }));
    assert(bytes_lt_from(x, y, 3) == (if x[3] != y[3] { x[3] < y[3] } else { bytes_lt_from(x, y, 4) }));
    assert(bytes_lt_from(x, y, 2) == (if x[2] != y[2] { x[2] < y[2] } else { bytes_lt_from(x, y, 3) }));
    assert(bytes_lt_from(x, y, 1) == (if x[1] != y[1] { x[1] < y[1] } else { bytes_lt_from(x, y, 2) }));
}

/// The board order is the order of the serialized bytes.
pub proof fn lemma_board_lt_is_byte_order(a: Board, b: Board)
    ensures
        a.lt_spec(b) == bytes_lt_from(a.bytes_spec(), b.bytes_spec(), 0),
{
    let x = a.bytes_spec();
    let y = b.bytes_spec();
    lemma_u16_byte_order(a.occupancy, b.occupancy);
    lemma_u16_byte_order(a.attr(3), b.attr(3));
    lemma_u16_byte_order(a.attr(2), b.attr(2));
    lemma_u16_byte_order(a.attr(1), b.attr(1));
    lemma_u16_byte_order(a.attr(0), b.attr(0));
    assert(bytes_lt_from(x, y, 10) == false);
    assert(bytes_lt_from(x, y, 9) == (if x[9] != y[9] { x[9] < y[9] } else { bytes_lt_from(x, y, 10) }));
    assert(bytes_lt_from(x, y, 8) == (if x[8] != y[8] { x[8] < y[8] } else { bytes_lt_from(x, y, 9) }));
    assert(bytes_lt_from(x, y, 7) == (if x[7] != y[7] { x[7] < y[7] } else { bytes_lt_from(x, y, 8) }));
    assert(bytes_lt_from(x, y, 6) == (if x[6] != y[6] { x[6] < y[6] } else { bytes_lt_from(x, y, 7) }));
    assert(bytes_lt_from(x, y, 5) == (if x[5] != y[5] { x[5] < y[5] } else { bytes_lt_from(x, y, 6) }));
    assert(bytes_lt_from(x, y, 4) == (if x[4] != y[4] { x[4] < y[4] } else { bytes_lt_from(x, y, 5) }));
    assert(bytes_lt_from(x, y, 3) == (if x[3] != y[3] { x[3] < y[3] } else { bytes_lt_from(x, y, 4) }));
    assert(bytes_lt_from(x, y, 2) == (if x[2] != y[2] { x[2] < y[2] } else { bytes_lt_from(x, y, 3) }));
    assert(bytes_lt_from(x, y, 1) == (if x[1] != y[1] { x[1] < y[1] } else { bytes_lt_from(x, y, 2) }));
}

} // verus!
