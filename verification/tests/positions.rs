use escapade::board::{root_board, Board};
use escapade::canonicalization::{
    apply_attribute_relabeling, canonicalize, is_node_canonical_under_attribute_relabeling_only,
};
use escapade::line_masks::{check_any_line, check_line_mask, check_lines_through, line_masks, ROW_0, ROW_1};
use escapade::node::{depth_0_sentinel, depth_1_canonical, Node};
use escapade::place::{check_after_place, place};
use escapade::record::Record;
use escapade::transform::{
    all_transformations, apply, apply_u16, canonical_transformations, is_canonical_occupancy, Transformation,
};

fn grid(s: &str) -> Node {
    escapade::parsing::parse_node(s).expect("grid parses")
}

#[test]
fn board_bytes_are_big_endian_and_round_trip() {
    let b = Board { occupancy: 0x1234, attribute_masks: [0x0004, 0x0030, 0x0200, 0x1000] };
    let bytes = b.to_bytes();
    assert_eq!(bytes, [0x12, 0x34, 0x10, 0x00, 0x02, 0x00, 0x00, 0x30, 0x00, 0x04]);
    assert_eq!(Board::from_bytes(&bytes), b);
}

#[test]
fn node_bytes_hold_the_piece_in_the_upper_nibble() {
    let n = Node { board: Board { occupancy: 0x0003, attribute_masks: [0x0001, 0, 0x0002, 0] }, piece_to_place: 0xA };
    let bytes = n.to_bytes();
    assert_eq!(bytes[10], 0xA0);
    assert_eq!(Node::from_bytes(&bytes), n);
    let v: Vec<u8> = bytes.to_vec();
    assert_eq!(Node::from_byte_slice(&v), n);
}

#[test]
fn record_bytes_pack_piece_and_outcome() {
    let n = Node { board: Board { occupancy: 0x8001, attribute_masks: [0x8000, 0x0001, 0, 0x8001] }, piece_to_place: 3 };
    let r = Record { node: n, outcome: 13 };
    let bytes = r.to_bytes();
    assert_eq!(bytes[10], 0x3D);
    assert_eq!(Record::from_bytes(&bytes), r);
    assert_eq!(Record::from_byte_slice(&bytes.to_vec()), r);
}

#[test]
fn piece_at_reads_the_four_attribute_bits() {
    let b = Board { occupancy: 0x0003, attribute_masks: [0x0001, 0x0002, 0x0001, 0x0003] };
    assert_eq!(b.piece_at(0x0001), 0b1101);
    assert_eq!(b.piece_at(0x0002), 0b1010);
    assert_eq!(b.piece_at(0x0004), 0);
}

#[test]
fn placing_sets_the_attribute_bits_of_the_piece() {
    let b = place(&root_board(), 0b0110, 1u16 << 5);
    assert_eq!(b.occupancy, 0x0020);
    assert_eq!(b.attribute_masks, [0, 0x0020, 0x0020, 0]);
    assert_eq!(b.piece_at(0x0020), 0b0110);
}

#[test]
fn a_row_of_pieces_sharing_an_attribute_is_a_quarto() {
    let mut b = root_board();
    for (sq, piece) in [(0u16, 0u8), (1, 1), (2, 2)] {
        let (next, q) = check_after_place(&b, piece, 1u16 << sq);
        assert!(!q);
        b = next;
    }
    let (full, q) = check_after_place(&b, 3, 1u16 << 3);
    assert!(q);
    assert!(check_line_mask(&full, ROW_0));
    assert!(!check_line_mask(&full, ROW_1));
    assert!(check_lines_through(&full, 3));
    assert!(check_any_line(&full));
    assert_eq!(line_masks().len(), 10);
}

#[test]
fn pieces_with_no_common_attribute_make_no_quarto() {
    // 0b0000, 0b1111, 0b0011, 0b1100 share no attribute value on all four.
    let mut b = root_board();
    let mut q = false;
    for (sq, piece) in [(0u16, 0u8), (1, 15), (2, 3), (3, 12)] {
        let (next, quarto) = check_after_place(&b, piece, 1u16 << sq);
        b = next;
        q = quarto;
    }
    assert!(!q);
    assert!(!check_any_line(&b));
}

#[test]
fn symmetries_keep_the_number_of_squares() {
    for t in all_transformations() {
        assert_eq!(apply_u16(0, t), 0);
        assert_eq!(apply_u16(0xFFFF, t), 0xFFFF);
        assert_eq!(apply_u16(0x0421, t).count_ones(), 3);
        let b = Board { occupancy: 0x0003, attribute_masks: [0x0001, 0, 0x0002, 0x0003] };
        let img = apply(&b, t);
        assert_eq!(img.occupancy, apply_u16(0x0003, t));
        assert_eq!(img.attribute_masks[3], apply_u16(0x0003, t));
    }
    assert_eq!(all_transformations()[0].index(), 0);
    assert_eq!(all_transformations()[7].index(), 7);
}

#[test]
fn canonical_occupancy_is_the_least_image() {
    assert!(is_canonical_occupancy(0x0000));
    assert!(is_canonical_occupancy(0x0001));
    assert!(!is_canonical_occupancy(0x8000));
    assert!(!is_canonical_occupancy(0x0008));
    assert!(is_canonical_occupancy(0x0020));
    assert!(!is_canonical_occupancy(0x0400));
    assert_eq!(canonical_transformations(0x0000).len(), 8);
    assert_eq!(canonical_transformations(0xFFFF).len(), 8);
    assert_eq!(canonical_transformations(0x0001).len(), 2);
}

#[test]
fn canonicalizing_the_root_and_the_empty_board() {
    let s = depth_0_sentinel();
    assert_eq!(canonicalize(&s), s);
    let n = Node { board: root_board(), piece_to_place: 9 };
    assert_eq!(canonicalize(&n), depth_1_canonical());
    assert_eq!(depth_1_canonical(), Node { board: root_board(), piece_to_place: 0 });
}

#[test]
fn canonical_forms_agree_across_symmetric_positions() {
    let a = grid("5               3");
    let b = grid("               53");
    let c = grid("   5            3");
    let ca = canonicalize(&a);
    assert_eq!(canonicalize(&b), ca);
    assert_eq!(canonicalize(&c), ca);
    assert_eq!(canonicalize(&ca), ca);
    assert!(is_node_canonical_under_attribute_relabeling_only(&ca));
    assert_eq!(ca.board.occupancy, 0x0001);
}

#[test]
fn relabeling_gives_a_relabel_canonical_node() {
    let n = grid("F7   3  9      A0");
    let r = apply_attribute_relabeling(&n);
    assert!(is_node_canonical_under_attribute_relabeling_only(&r));
    assert_eq!(r.board.occupancy, n.board.occupancy);
    assert_eq!(apply_attribute_relabeling(&r), r);
    assert!(!is_node_canonical_under_attribute_relabeling_only(&grid("F               0")));
}

#[test]
fn every_symmetry_is_undone_by_its_inverse_and_keeps_quartos() {
    let inverse = |t: Transformation| match t {
        Transformation::Rotate90 => Transformation::Rotate270,
        Transformation::Rotate270 => Transformation::Rotate90,
        other => other,
    };
    // A quarto on the main diagonal (every piece has attribute 0) plus a stray piece.
    let quarto = Board { occupancy: 0x8423, attribute_masks: [0x8421, 0x0002, 0x0400, 0x0000] };
    // Three pieces of a row: no quarto.
    let open = Board { occupancy: 0x0070, attribute_masks: [0x0070, 0x0010, 0x0000, 0x0040] };
    for t in all_transformations() {
        for b in [quarto, open] {
            let moved = apply(&b, t);
            assert_eq!(apply(&moved, inverse(t)), b);
            assert_eq!(check_any_line(&moved), check_any_line(&b));
        }
    }
    assert!(check_any_line(&quarto));
    assert!(!check_any_line(&open));
    assert_eq!(apply(&quarto, Transformation::Rotate90).occupancy, apply_u16(0x8423, Transformation::Rotate90));
}

#[test]
fn symmetries_keep_piece_counts_and_boards_order_by_bytes() {
    for x in [0u16, 1, 0x8421, 0x0F0F, 0xFFFF, 0x1234] {
        for t in all_transformations() {
            assert_eq!(apply_u16(x, t).count_ones(), x.count_ones());
        }
    }
    let boards = [
        Board { occupancy: 0x1234, attribute_masks: [0x0004, 0x0030, 0x0200, 0x1000] },
        Board { occupancy: 0x1234, attribute_masks: [0x0004, 0x0030, 0x0200, 0x0000] },
        Board { occupancy: 0x1235, attribute_masks: [0, 0, 0, 0] },
        Board { occupancy: 0x0135, attribute_masks: [0x0100, 0, 0, 0] },
    ];
    for a in boards {
        for b in boards {
            assert_eq!(a.less_than(&b), a.to_bytes() < b.to_bytes());
            assert_eq!(a < b, a.less_than(&b));
            for (p, q) in [(0u8, 0u8), (3, 1), (1, 3)] {
                let x = Node { board: a, piece_to_place: p };
                let y = Node { board: b, piece_to_place: q };
                assert_eq!(x < y, x.less_than(&y));
            }
        }
    }
}
