//! A solved position: a node and its game outcome, packed in 11 bytes.

use vstd::prelude::*;
use crate::board::{Board, lemma_board_bytes_roundtrip, lemma_board_bytes_roundtrip_rev};
use crate::node::Node;

verus! {

/// Serialization format (11 bytes):
/// - Bytes 0-1: Occupancy mask (u16, big-endian)
/// - Bytes 2-9: Four attribute masks (4 × u16, big-endian)
/// - Byte 10: Upper 4 bits = piece_to_place, Lower 4 bits = outcome
#[derive(Clone, Copy, Debug, Eq)]
pub struct Record {
    pub node: Node,
    /// Only the lower 4 bits are stored.
    pub outcome: u8,
}

impl PartialEq for Record {
    fn eq(&self, other: &Record) -> (r: bool) {
        proof {
            crate::node::lemma_node_eq(self.node, other.node);
        }
        self.node == other.node && self.outcome == other.outcome
    }
}

impl vstd::std_specs::cmp::PartialEqSpecImpl for Record {
    open spec fn obeys_eq_spec() -> bool {
        true
    }

    open spec fn eq_spec(&self, other: &Record) -> bool {
        self.node == other.node && self.outcome == other.outcome
    }
}

/// The packed last byte: piece in the upper nibble, outcome in the lower one.
pub open spec fn pack_byte(piece: u8, outcome: u8) -> u8 {
    (((piece << 4u8) as u8) | (outcome & 0x0fu8)) as u8
}

impl Record {
    pub open spec fn bytes_spec(self) -> Seq<u8> {
        self.node.board.bytes_spec().push(pack_byte(self.node.piece_to_place, self.outcome))
    }

    pub open spec fn from_bytes_spec(x: Seq<u8>) -> Record {
        Record {
            node: Node {
                board: Board::from_bytes_spec(x.subrange(0, 10)),
                piece_to_place: (x[10] >> 4u8) as u8,
            },
            outcome: (x[10] & 0x0fu8) as u8,
        }
    }

    pub fn to_bytes(self) -> (r: [u8; 11])
        ensures
            r@ == self.bytes_spec(),
    {
        let b = self.node.board.to_bytes();
        let packed = (self.node.piece_to_place << 4u8) | (self.outcome & 0x0Fu8);
        let r = [b[0], b[1], b[2], b[3], b[4], b[5], b[6], b[7], b[8], b[9], packed];
        assert(r@ =~= self.bytes_spec());
        r
    }

    pub fn from_bytes(x: &[u8; 11]) -> (r: Self)
        ensures
            r == Record::from_bytes_spec(x@),
    {
        let b = [x[0], x[1], x[2], x[3], x[4], x[5], x[6], x[7], x[8], x[9]];
        assert(b@ =~= x@.subrange(0, 10));
        Record {
            node: Node { board: Board::from_bytes(&b), piece_to_place: x[10] >> 4u8 },
            outcome: x[10] & 0x0Fu8,
        }
    }

    /// Deserialize a Record from a byte slice, which must hold exactly 11 bytes.
    pub fn from_byte_slice(bytes: &[u8]) -> (r: Self)
        requires
            bytes@.len() == 11,
        ensures
            r == Record::from_bytes_spec(bytes@),
    {
        let b = [bytes[0], bytes[1], bytes[2], bytes[3], bytes[4], bytes[5], bytes[6], bytes[7], bytes[8], bytes[9]];
        assert(b@ =~= bytes@.subrange(0, 10));
        Record {
            node: Node { board: Board::from_bytes(&b), piece_to_place: bytes[10] >> 4u8 },
            outcome: bytes[10] & 0x0Fu8,
        }
    }
}

/// A record whose piece and outcome fit in four bits survives serialization.
pub proof fn lemma_record_bytes_roundtrip(r: Record)
    requires
        r.node.piece_to_place < 16,
        r.outcome < 16,
    ensures
        Record::from_bytes_spec(r.bytes_spec()) == r,
{
    lemma_board_bytes_roundtrip(r.node.board);
    assert(r.bytes_spec().subrange(0, 10) =~= r.node.board.bytes_spec());
    let p = r.node.piece_to_place;
    let o = r.outcome;
    crate::bits::lemma_nibble_u8(o, p);
}

/// Every 11-byte string is the serialization of the record it decodes to.
pub proof fn lemma_record_bytes_roundtrip_rev(x: Seq<u8>)
    requires
        x.len() == 11,
    ensures
        Record::from_bytes_spec(x).bytes_spec() == x,
{
    lemma_board_bytes_roundtrip_rev(x.subrange(0, 10));
    let b = x[10];
    crate::bits::lemma_nibble_u8(b, 0);
    assert(Record::from_bytes_spec(x).bytes_spec() =~= x);
}

} // verus!
