use escapade::board::{root_board, Board};
use escapade::commands::{analyze_request, loaded_depths, parse_command_line, request_node, RequestError};
use escapade::evaluate::{compute_unused_pieces_mask, outcome_to_sort_score};
use escapade::node::{depth_0_sentinel, Node};
use escapade::parsing::{format_node_grid, format_node_hex, parse_node, trim_whitespace, ParseError};
use escapade::validation::{validate_board, validate_node, ValidationError};

fn sample() -> Node {
    Node {
        board: Board { occupancy: 0x000F, attribute_masks: [0x0006, 0x0006, 0x000A, 0x000A] },
        piece_to_place: 5,
    }
}

#[test]
fn hex_format_is_masks_then_piece_nibble() {
    assert_eq!(format_node_hex(&sample()), "000F000A000A0006000650");
    assert_eq!(format_node_hex(&depth_0_sentinel()), "FFFFFFFFFFFFFFFFFFFFF0");
}

#[test]
fn hex_text_parses_back_in_either_case_and_trimmed() {
    assert_eq!(parse_node("000F000A000A0006000650"), Ok(sample()));
    assert_eq!(parse_node("000f000a000a0006000650"), Ok(sample()));
    assert_eq!(parse_node("  000F000A000A0006000650\n"), Ok(sample()));
    assert_eq!(parse_node("+F0F000A000A0006000650").map(|n| n.board.occupancy), Ok(0x0F0F));
}

#[test]
fn grid_format_lists_pieces_then_piece_to_place() {
    assert_eq!(format_node_grid(&sample()), "0F3C            5");
    assert_eq!(format_node_grid(&depth_0_sentinel()), "                 ");
    let g = format_node_grid(&Node { board: root_board(), piece_to_place: 11 });
    assert_eq!(g, "                B");
}

#[test]
fn grid_text_parses_back() {
    assert_eq!(parse_node("0F3C            5"), Ok(sample()));
    assert_eq!(parse_node("                 "), Ok(depth_0_sentinel()));
    let n = parse_node("a   b          3c").unwrap();
    assert_eq!(n.piece_to_place, 12);
    assert_eq!(n.board.occupancy, 0x8011);
    assert_eq!(n.board.piece_at(0x0001), 10);
    assert_eq!(n.board.piece_at(0x0010), 11);
    assert_eq!(n.board.piece_at(0x8000), 3);
}

#[test]
fn terminal_grid_without_piece_gets_piece_zero() {
    let n = parse_node("0123             ").unwrap();
    assert_eq!(n.piece_to_place, 0);
    assert_eq!(n.board.occupancy, 0x000F);
}

#[test]
fn parse_errors_name_the_fault() {
    assert_eq!(parse_node("000F"), Err(ParseError::InvalidLength { len: 4 }));
    assert_eq!(parse_node("0123           X5"), Err(ParseError::InvalidPiece { pos: 15, ch: 'X' }));
    assert_eq!(parse_node("0               "), Err(ParseError::InvalidLength { len: 16 }));
    assert_eq!(parse_node("01               "), Err(ParseError::MissingPieceToPlace));
    assert_eq!(parse_node("0123            "), Err(ParseError::InvalidLength { len: 16 }));
    assert_eq!(parse_node("01              z"), Err(ParseError::InvalidPieceToPlace { ch: 'z' }));
    assert_eq!(parse_node("0G0F00000000000C000A50"), Err(ParseError::InvalidHexByte { hi: b'0', lo: b'G' }));
    assert_eq!(parse_node("é012345678901234"), Err(ParseError::GridLength { chars: 16 }));
}

#[test]
fn a_quarto_with_a_piece_to_place_is_refused() {
    assert_eq!(parse_node("0123            7"), Err(ParseError::TerminalWithPiece { ch: '7' }));
}

#[test]
fn hex_text_that_would_cut_a_character_is_refused() {
    assert_eq!(parse_node("0é0000000000000000000"), Err(ParseError::InvalidHexByte { hi: 0x30, lo: 0xC3 }));
    assert_eq!(parse_node("é00000000000000000000"), Err(ParseError::InvalidHexByte { hi: 0xC3, lo: 0xA9 }));
    assert!(parse_node("000F000A000A0006000650").is_ok());
    assert_eq!(trim_whitespace("  ab \t"), "ab");
}

#[test]
fn command_lines_split_on_blanks_outside_quotes() {
    assert_eq!(parse_command_line("analyze root"), vec!["analyze".to_string(), "root".to_string()]);
    assert_eq!(
        parse_command_line("  analyze \"0F3C            5\"\tx "),
        vec!["analyze".to_string(), "0F3C            5".to_string(), "x".to_string()]
    );
    assert!(parse_command_line("   ").is_empty());
    assert_eq!(parse_command_line("a\"\"b"), vec!["ab".to_string()]);
}

#[test]
fn analyze_requests_resolve_to_positions_or_errors() {
    assert_eq!(request_node("root"), Ok(depth_0_sentinel()));
    assert_eq!(request_node("0F3C            5"), Ok(sample()));
    assert_eq!(request_node("xyz"), Err(RequestError::Parse(ParseError::InvalidLength { len: 3 })));
    assert_eq!(request_node("5               5"), Err(RequestError::Invalid(ValidationError::PieceToPlaceAlreadyUsed)));
    assert_eq!(analyze_request(&vec!["analyze".to_string()]), Err(RequestError::MissingArgument));
    assert_eq!(analyze_request(&vec!["analyze".to_string(), "root".to_string()]), Ok(depth_0_sentinel()));
}

#[test]
fn loaded_depths_lists_the_available_ones() {
    let mut a = [false; 18];
    a[3] = true;
    a[10] = true;
    a[0] = true;
    assert_eq!(loaded_depths(&a), vec![0usize, 3, 10]);
    assert!(loaded_depths(&[false; 18]).is_empty());
}

#[test]
fn validation_finds_each_fault() {
    assert_eq!(validate_node(&depth_0_sentinel()), Ok(()));
    assert_eq!(validate_node(&sample()), Ok(()));
    let dup = parse_node("00              1").unwrap();
    assert_eq!(validate_node(&dup), Err(ValidationError::DuplicatePieceId));
    let outside = Board { occupancy: 0x0001, attribute_masks: [0x0002, 0, 0, 0] };
    assert_eq!(validate_board(&outside), Err(ValidationError::AttributeMaskOutOfBounds));
    let used = parse_node("5               5").unwrap();
    assert_eq!(validate_node(&used), Err(ValidationError::PieceToPlaceAlreadyUsed));
    let two = parse_node("0123    4567     ").unwrap();
    assert_eq!(validate_node(&two), Err(ValidationError::NonIntersectingQuartos));
    let terminal = Node { board: parse_node("0123             ").unwrap().board, piece_to_place: 3 };
    assert_eq!(validate_node(&terminal), Err(ValidationError::TerminalPositionInvalidPiece));
    assert_eq!(validate_node(&Node { board: terminal.board, piece_to_place: 0 }), Ok(()));
    let crossing = parse_node("0123456 8   C    ").unwrap();
    assert_eq!(validate_board(&crossing.board), Ok(()));
}

#[test]
fn validation_messages() {
    assert_eq!(ValidationError::DuplicatePieceId.message(), "The same piece ID appears multiple times on the board");
    assert_eq!(ValidationError::TerminalPositionInvalidPiece.message(), "Terminal position must have piece_to_place = 0");
}

#[test]
fn sort_scores_favour_the_player_whose_win_it_is() {
    assert_eq!(outcome_to_sort_score(15, true), 0);
    assert_eq!(outcome_to_sort_score(15, false), 0);
    assert_eq!(outcome_to_sort_score(1, true), 100);
    assert_eq!(outcome_to_sort_score(1, false), -100);
    assert_eq!(outcome_to_sort_score(4, true), -103);
    assert_eq!(outcome_to_sort_score(4, false), 103);
}

#[test]
fn unused_pieces_exclude_the_board_and_the_piece_to_place() {
    assert_eq!(compute_unused_pieces_mask(&sample()), 0xFFFF ^ 0x9009 ^ 0x0020);
    assert_eq!(compute_unused_pieces_mask(&Node { board: root_board(), piece_to_place: 0 }), 0xFFFE);
}
