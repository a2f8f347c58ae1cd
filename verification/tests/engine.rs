use escapade::analyze::{analyze, sort_orbits, Orbit};
use escapade::board::{root_board, Board};
use escapade::canonicalization::{apply_attribute_relabeling, canonicalize, is_node_canonical_under_attribute_relabeling_only};
use escapade::evaluate::{compute_unused_pieces_mask, evaluate, evaluate_with_remaining_pieces, negamax};
use escapade::hashing::{hash_bucket_bytes, hash_shard_node, hash_worker_node, DOMAIN_BUCKET, DOMAIN_SHARD};
use escapade::index::{build_index, record_count, record_to_key, IndexBuildError};
use escapade::line_masks::check_any_line;
use escapade::node::{depth_0_sentinel, Node};
use escapade::parsing::{format_node_grid, format_node_hex, parse_node};
use escapade::place::check_after_place;
use escapade::record::Record;
use escapade::shard_buffer::{filename_width, spill_victim, ShardBuffer};
use escapade::solve::{occupancy_masks, shard_id_from_hash, solve_mask, solve_small_layer};
use escapade::transform::{all_transformations, apply};
use escapade::tablebase::{TablebaseFile, TablebaseFileError, TablebaseIndex, TablebaseIndexError};

struct Lcg(u64);

impl Lcg {
    fn next(&mut self, n: usize) -> usize {
        self.0 = self.0.wrapping_mul(6364136223846793005).wrapping_add(1442695040888963407);
        ((self.0 >> 33) as usize) % n
    }
}

/// A position with `placed` pieces and no quarto, and the pieces left over.
fn random_position(seed: u64, placed: usize) -> (Node, Vec<u8>, Vec<u16>) {
    let mut rng = Lcg(seed);
    loop {
        let mut pieces: Vec<u8> = (0..16).collect();
        let mut squares: Vec<u16> = (0..16).collect();
        for i in (1..16).rev() {
            let j = rng.next(i + 1);
            pieces.swap(i, j);
            let k = rng.next(i + 1);
            squares.swap(i, k);
        }
        let mut b = root_board();
        let mut ok = true;
        for i in 0..placed {
            let (next, q) = check_after_place(&b, pieces[i], 1u16 << squares[i]);
            if q {
                ok = false;
                break;
            }
            b = next;
        }
        if ok {
            let node = Node { board: b, piece_to_place: pieces[placed] };
            return (node, pieces[placed + 1..].to_vec(), squares[placed..].to_vec());
        }
    }
}

fn wins(board: &Board, piece: u8, square: u16) -> bool {
    check_after_place(board, piece, 1u16 << square).1
}

fn anon_map(bytes: &[u8]) -> memmap2::Mmap {
    let mut m = memmap2::MmapMut::map_anon(bytes.len()).unwrap();
    m.copy_from_slice(bytes);
    m.make_read_only().unwrap()
}

/// A depth's tablebase that answers `outcome` for every position.
fn constant_tablebase(depth: u8, outcome: u8) -> TablebaseIndex {
    let (node, _, _) = random_position(7 + depth as u64, depth as usize - 1);
    let rec = Record { node, outcome }.to_bytes();
    let bytes = build_index(&vec![rec], depth, 0, 0, 0, 0).unwrap();
    let file = TablebaseFile::from_mmap(anon_map(&bytes)).unwrap();
    TablebaseIndex::from_files(vec![file]).unwrap()
}

#[test]
fn depth_16_is_decided_by_the_last_placement() {
    for seed in 0..12u64 {
        let (node, rest, squares) = random_position(seed, 15);
        assert!(rest.is_empty());
        let expected = if wins(&node.board, node.piece_to_place, squares[0]) { 1 } else { 15 };
        assert_eq!(evaluate(&node, None), expected);
    }
}

#[test]
fn depth_15_takes_the_best_of_two_squares() {
    for seed in 100..112u64 {
        let (node, rest, squares) = random_position(seed, 14);
        let other = rest[0];
        let (a, b) = (squares[0], squares[1]);
        let expected = if wins(&node.board, node.piece_to_place, a) || wins(&node.board, node.piece_to_place, b) {
            2
        } else {
            let draw_a = !wins(&check_after_place(&node.board, node.piece_to_place, 1u16 << a).0, other, b);
            let draw_b = !wins(&check_after_place(&node.board, node.piece_to_place, 1u16 << b).0, other, a);
            if draw_a || draw_b { 15 } else { 1 }
        };
        assert_eq!(evaluate(&node, None), expected);
        assert_eq!(evaluate_with_remaining_pieces(&node, 1u16 << other, None), expected);
    }
}

#[test]
fn hashes_are_xxh3_with_their_domains() {
    let node = Node { board: Board { occupancy: 0x0011, attribute_masks: [0x0001, 0x0010, 0, 0] }, piece_to_place: 6 };
    let key = node.to_bytes();
    assert_eq!(hash_bucket_bytes(&key), xxhash_rust::xxh3::xxh3_64_with_seed(&key, DOMAIN_BUCKET));
    assert_eq!(hash_shard_node(&node), xxhash_rust::xxh3::xxh3_64_with_seed(&key, DOMAIN_SHARD));
    assert_ne!(hash_shard_node(&node), hash_worker_node(&node));
}

#[test]
fn shard_ids_are_the_top_bits_of_the_hash() {
    assert_eq!(shard_id_from_hash(0, 0xFFFF_FFFF_FFFF_FFFF), 0);
    assert_eq!(shard_id_from_hash(3, 0xA000_0000_0000_0000), 5);
    assert_eq!(shard_id_from_hash(16, 0x1234_5678_9ABC_DEF0), 0x1234);
}

#[test]
fn record_counts_and_keys() {
    assert_eq!(record_count(33), Ok(3));
    assert_eq!(record_count(34), Err(IndexBuildError::ShardSizeNotMultiple { size: 34 }));
    let rec = Record { node: Node { board: root_board(), piece_to_place: 9 }, outcome: 4 }.to_bytes();
    assert_eq!(rec[10], 0x94);
    assert_eq!(record_to_key(&rec)[10], 0x90);
}

#[test]
fn a_built_index_answers_every_record() {
    let mut records = Vec::new();
    let mut nodes = Vec::new();
    for seed in 0..60u64 {
        let (node, _, _) = random_position(1000 + seed, 9);
        if nodes.contains(&node) {
            continue;
        }
        let outcome = (seed % 15) as u8 + 1;
        nodes.push(node);
        records.push(Record { node, outcome }.to_bytes());
    }
    let bytes = build_index(&records, 10, 0, 0, 3, 7).unwrap();
    assert_eq!(&bytes[0..4], b"ESCQ");
    assert_eq!(bytes[4], 1);
    assert_eq!(bytes[5], 10);
    assert_eq!(bytes.len(), 18 + 2 * 8 + 64);
    let map = anon_map(&bytes);
    assert!(TablebaseFile::header_in_range(&map));
    let file = TablebaseFile::from_mmap(map).unwrap();
    assert_eq!(file.size(), bytes.len());
    for r in &records {
        let rec = Record::from_bytes(r);
        assert_eq!(file.query(&rec.node), rec.outcome);
    }
    let ix = TablebaseIndex::from_files(vec![file]).unwrap();
    let depths = ix.available_depths();
    assert!(depths[10]);
    assert!(!depths[9]);
    for r in &records {
        let rec = Record::from_bytes(r);
        assert_eq!(ix.query(&rec.node), Some(rec.outcome));
    }
    assert_eq!(ix.query(&Node { board: root_board(), piece_to_place: 0 }), None);
}

#[test]
fn opening_refuses_bad_headers() {
    assert_eq!(TablebaseFile::from_mmap(anon_map(&[0u8; 5])).err(), Some(TablebaseFileError::FileTooSmall { len: 5 }));
    let mut bytes = build_index(&vec![[0u8; 11]], 3, 0, 0, 0, 0).unwrap();
    bytes[4] = 2;
    assert_eq!(TablebaseFile::from_mmap(anon_map(&bytes)).err(), Some(TablebaseFileError::UnsupportedVersion { version: 2 }));
    bytes[4] = 1;
    bytes[8] = 63;
    assert!(!TablebaseFile::header_in_range(&anon_map(&bytes)));
    assert!(TablebaseFile::from_mmap_checked(anon_map(&bytes)).is_none());
    bytes[8] = 0;
    bytes[5] = 17;
    assert_eq!(
        TablebaseFile::from_mmap_checked(anon_map(&bytes)).map(|r| r.err()),
        Some(Some(TablebaseFileError::InvalidDepth { depth: 17 }))
    );
}

#[test]
fn evaluation_takes_the_tablebase_answer() {
    let tb = constant_tablebase(3, 9);
    let (node, _, _) = random_position(5, 2);
    assert_eq!(evaluate(&node, Some(&tb)), 9);
}

#[test]
fn occupancy_masks_of_the_first_layers() {
    assert_eq!(occupancy_masks(0), vec![0u16]);
    assert_eq!(occupancy_masks(1), vec![0u16]);
    assert_eq!(occupancy_masks(2), vec![0x0001u16, 0x0002, 0x0020]);
    assert_eq!(occupancy_masks(17), vec![0xFFFFu16]);
    for m in occupancy_masks(5) {
        assert_eq!(m.count_ones(), 4);
    }
}

fn solve_layer(layer: usize, workers: u32, worker: u32, tb: &TablebaseIndex) -> Vec<(u16, Record)> {
    let mut out = Vec::new();
    for mask in occupancy_masks(layer) {
        out.extend(solve_mask(worker, workers, layer, mask, 4, Some(tb)));
    }
    out
}

#[test]
fn solving_layers_two_and_three_finds_the_canonical_positions() {
    let tb2 = constant_tablebase(2, 9);
    assert_eq!(solve_layer(2, 1, 0, &tb2).len(), 12);
    let tb3 = constant_tablebase(3, 7);
    let recs = solve_layer(3, 1, 0, &tb3);
    assert_eq!(recs.len(), 462);
    for (shard, rec) in &recs {
        assert_eq!(rec.outcome, 7);
        assert_eq!(*shard, shard_id_from_hash(4, hash_shard_node(&rec.node)));
        assert_eq!(rec.node.board.occupancy.count_ones(), 2);
        assert!(is_node_canonical_under_attribute_relabeling_only(&rec.node));
        assert!(!check_any_line(&rec.node.board));
    }
}

#[test]
fn workers_partition_layer_four() {
    let tb = constant_tablebase(4, 11);
    let all = solve_layer(4, 1, 0, &tb);
    assert_eq!(all.len(), 13013);
    let mut total = 0;
    for w in 0..3 {
        total += solve_layer(4, 3, w, &tb).len();
    }
    assert_eq!(total, 13013);
}

#[test]
fn only_worker_zero_writes_the_first_layers() {
    let tb = constant_tablebase(3, 7);
    assert!(solve_small_layer(1, 0, 4, Some(&tb)).is_empty());
    assert!(solve_small_layer(2, 1, 4, Some(&tb)).is_empty());
}

#[test]
fn shard_buffers_append_keys_in_order() {
    let mut b = ShardBuffer::new();
    assert_eq!(b.buffered_len(), 0);
    b.append_fast(&[1; 11]);
    b.append_fast(&[2; 11]);
    assert_eq!(b.buffered_len(), 22);
    assert_eq!(&b.as_bytes()[10..12], &[1, 2]);
    b.clear();
    assert_eq!(b.buffered_len(), 0);
    assert_eq!(ShardBuffer::default().buffered_len(), 0);
}

#[test]
fn the_first_longest_buffer_is_spilled() {
    assert_eq!(spill_victim(&vec![0, 22, 33, 33, 11]), Some(2));
    assert_eq!(spill_victim(&vec![0, 0]), None);
    assert_eq!(spill_victim(&vec![]), None);
    assert_eq!(filename_width(0), 1);
    assert_eq!(filename_width(3), 1);
    assert_eq!(filename_width(4), 2);
    assert_eq!(filename_width(7), 3);
    assert_eq!(filename_width(16), 5);
}

#[test]
fn analysis_of_a_position_with_a_quarto_lists_it() {
    let n = parse_node("0123             ").unwrap();
    let r = analyze(&n, None);
    assert_eq!(r.ply_grid, format_node_grid(&n));
    assert_eq!(r.ply_hex, format_node_hex(&n));
    assert!(r.orbits.is_none());
    let qs = r.quartos.unwrap();
    assert_eq!(qs.len(), 2);
    assert_eq!(qs[0].intersection, [0, 1, 2, 3]);
    assert_eq!(qs[0].attribute, "round");
    assert_eq!(qs[1].attribute, "light");
}

#[test]
fn analysis_of_a_late_position_groups_its_moves() {
    let (node, rest, squares) = random_position(77, 14);
    let r = analyze(&node, None);
    assert_eq!(r.canon_hex, format_node_hex(&canonicalize(&node)));
    assert!(r.quartos.is_none());
    let orbits = r.orbits.unwrap();
    let moves: usize = orbits.iter().map(|o| o.moves.len()).sum();
    assert_eq!(moves, squares.len() * rest.len());
    for o in &orbits {
        assert!(o.outcome == 1 || o.outcome == 2 || o.outcome == 15);
        for m in &o.moves {
            let reached = parse_node(&m.hex).unwrap();
            assert_eq!(format_node_hex(&canonicalize(&reached)), o.canon_hex);
        }
    }
}

#[test]
fn analysis_of_the_root_with_depth_one_loaded() {
    let tb = constant_tablebase(1, 15);
    let r = analyze(&depth_0_sentinel(), Some(&tb));
    let orbits = r.orbits.unwrap();
    assert_eq!(orbits.len(), 1);
    assert_eq!(orbits[0].outcome, 15);
    assert_eq!(orbits[0].moves.len(), 16);
}

#[test]
fn orbits_sort_by_score_then_canonical_form() {
    let mk = |hex: &str, outcome: u8| Orbit { canon_hex: hex.to_string(), outcome, moves: Vec::new() };
    let mut v = vec![mk("B", 15), mk("A", 2), mk("C", 1), mk("A", 15)];
    sort_orbits(&mut v, true);
    let got: Vec<(String, u8)> = v.iter().map(|o| (o.canon_hex.clone(), o.outcome)).collect();
    assert_eq!(got, vec![("C".to_string(), 1), ("A".to_string(), 15), ("B".to_string(), 15), ("A".to_string(), 2)]);
    sort_orbits(&mut v, false);
    assert_eq!(v[0].outcome, 2);
    assert_eq!(v[3].outcome, 1);
}

/// Plain negamax over every move, without pruning or symmetry.
fn plain_score(board: &Board, piece: u8, rest: &[u8], depth: u8) -> i32 {
    let empty: Vec<u16> = (0..16).filter(|s| board.occupancy & (1u16 << s) == 0).collect();
    if depth == 16 {
        return if wins(board, piece, empty[0]) { 100 } else { 0 };
    }
    for &s in &empty {
        if wins(board, piece, s) {
            return (17 - depth) as i32 - 1 + 100;
        }
    }
    let mut best = i32::MIN;
    for &s in &empty {
        let next = check_after_place(board, piece, 1u16 << s).0;
        for (k, &p) in rest.iter().enumerate() {
            let mut others = rest.to_vec();
            others.remove(k);
            let v = -plain_score(&next, p, &others, depth + 1);
            best = best.max(v);
        }
    }
    best
}

fn outcome_of_score(score: i32) -> u8 {
    if score == 0 { 15 } else { (score.abs() - 100 + 1) as u8 }
}

#[test]
fn pruned_search_agrees_with_plain_search() {
    for seed in 200..210u64 {
        for placed in [12usize, 13] {
            let (node, rest, _) = random_position(seed, placed);
            let expected = outcome_of_score(plain_score(&node.board, node.piece_to_place, &rest, placed as u8 + 1));
            assert_eq!(evaluate(&node, None), expected);
        }
    }
}

fn file_of(bytes: &[u8]) -> TablebaseFile {
    TablebaseFile::from_mmap(anon_map(bytes)).unwrap()
}

#[test]
fn the_last_placement_on_a_drawn_board_is_a_draw() {
    let n = Node {
        board: Board { occupancy: 0x7FFF, attribute_masks: [0x3C3C, 0x1696, 0x55AA, 0x1966] },
        piece_to_place: 10,
    };
    let r = analyze(&n, None);
    let orbits = r.orbits.unwrap();
    assert_eq!(orbits.len(), 1);
    assert_eq!(orbits[0].outcome, 15);
    assert_eq!(orbits[0].moves.len(), 1);
    assert_eq!(orbits[0].moves[0].square, Some(15));
    assert_eq!(orbits[0].moves[0].hex, "FFFF996655AA96963C3C00");
    let full = Node { board: check_after_place(&n.board, 10, 0x8000).0, piece_to_place: 0 };
    assert_eq!(evaluate(&full, None), 15);
}

#[test]
fn a_full_board_with_a_quarto_is_won_by_the_first_player() {
    let (node, _, squares) = random_position(300, 15);
    let full = Node { board: check_after_place(&node.board, node.piece_to_place, 1u16 << squares[0]).0, piece_to_place: 0 };
    let expected = if check_any_line(&full.board) { 1 } else { 15 };
    assert_eq!(evaluate(&full, None), expected);
}

#[test]
fn the_root_is_answered_from_the_depth_zero_table() {
    let root = depth_0_sentinel();
    let d0 = build_index(&vec![Record { node: root, outcome: 5 }.to_bytes()], 0, 0, 0, 0, 1).unwrap();
    let start = Node { board: root_board(), piece_to_place: 0 };
    let d1 = build_index(&vec![Record { node: start, outcome: 5 }.to_bytes()], 1, 0, 0, 0, 1).unwrap();
    let ix = TablebaseIndex::from_files(vec![file_of(&d0), file_of(&d1)]).unwrap();
    assert_eq!(ix.query(&root), Some(5));
    assert_eq!(ix.memory_usage(), d0.len() + d1.len());
    assert_eq!(evaluate(&root, Some(&ix)), 5);
}

#[test]
fn shard_ids_up_to_the_shard_count_open() {
    let mut bytes = vec![0x45u8, 0x53, 0x43, 0x51, 0x01, 0x0A, 0xC8, 0x08];
    bytes.extend_from_slice(&[0u8; 13]);
    let f = file_of(&bytes);
    assert_eq!((f.depth, f.shard_id, f.shard_bits, f.size()), (10, 200, 8, 21));
    let (node, _, _) = random_position(400, 9);
    let built = build_index(&vec![Record { node, outcome: 6 }.to_bytes()], 10, 255, 8, 0, 2).unwrap();
    let g = file_of(&built);
    assert_eq!(g.shard_id, 255);
    assert_eq!(g.query(&node), 6);
    let mut bad = bytes.clone();
    bad[7] = 2;
    bad[6] = 4;
    assert_eq!(
        TablebaseFile::from_mmap(anon_map(&bad)).err(),
        Some(TablebaseFileError::InvalidShardId { shard_id: 4, num_shards: 4, shard_bits: 2 })
    );
}

#[test]
fn a_terminal_grid_leaves_the_piece_blank() {
    let t = Node { board: Board { occupancy: 0x000F, attribute_masks: [0x000A, 0x000C, 0, 0] }, piece_to_place: 0 };
    let g = format_node_grid(&t);
    assert_eq!(g, "0123             ");
    assert_eq!(parse_node(&g), Ok(t));
}

#[test]
fn index_workers_are_capped_by_memory() {
    assert_eq!(escapade::index::index_worker_cap(1000, 10, 4), 25);
    assert_eq!(escapade::index::index_worker_cap(100, 10, 4), 1);
    assert_eq!(escapade::index::index_worker_cap(100, 10, 0), u32::MAX);
    assert_eq!(escapade::index::index_worker_count(Some(50), 7, 25), 25);
    assert_eq!(escapade::index::index_worker_count(None, 7, 25), 7);
    assert_eq!(escapade::index::index_worker_count(Some(3), 7, 25), 3);
}

#[test]
fn sixteen_shard_bits_open_but_cannot_form_a_full_depth() {
    // "ESCQ", version 1, depth 0, shard 0, 16 shard bits, no bucket or slot bits.
    let mut bytes = vec![0x45, 0x53, 0x43, 0x51, 1, 0, 0, 16, 0, 0];
    bytes.extend_from_slice(&[0u8; 11]);
    assert_eq!(bytes.len(), 21);
    let map = anon_map(&bytes);
    assert!(TablebaseFile::header_in_range(&map));
    let file = TablebaseFile::from_mmap_checked(map).unwrap().unwrap();
    assert_eq!((file.depth, file.shard_id, file.shard_bits), (0, 0, 16));
    assert_eq!(file.size(), 21);
    bytes[6] = 255;
    assert!(TablebaseFile::from_mmap(anon_map(&bytes)).is_ok());
    bytes[6] = 0;
    let built = build_index(&vec![[0u8; 11]], 0, 0, 16, 0, 0).unwrap();
    let file = TablebaseFile::from_mmap(anon_map(&built)).unwrap();
    assert_eq!(file.shard_bits, 16);
    assert_eq!(
        TablebaseIndex::from_files(vec![file]).err(),
        Some(TablebaseIndexError::MissingShard { shard: 1, depth: 0, shard_bits: 16 })
    );
    bytes[7] = 3;
    bytes[6] = 8;
    assert_eq!(
        TablebaseFile::from_mmap(anon_map(&bytes)).err(),
        Some(TablebaseFileError::InvalidShardId { shard_id: 8, num_shards: 8, shard_bits: 3 })
    );
}

#[test]
fn the_root_without_its_table_takes_the_value_of_its_one_move() {
    let root = depth_0_sentinel();
    let start = Node { board: root_board(), piece_to_place: 0 };
    for outcome in [2u8, 15, 7] {
        let d1 = build_index(&vec![Record { node: start, outcome }.to_bytes()], 1, 0, 0, 0, 1).unwrap();
        let ix = TablebaseIndex::from_files(vec![file_of(&d1)]).unwrap();
        assert_eq!(evaluate(&start, Some(&ix)), outcome);
        assert_eq!(evaluate(&root, Some(&ix)), outcome);
    }
}

#[test]
fn canonical_forms_ignore_symmetries_and_relabelings() {
    for seed in 0..20u64 {
        let (node, _, _) = random_position(600 + seed, 1 + (seed as usize % 12));
        let canon = canonicalize(&node);
        // fixed point
        assert_eq!(canonicalize(&canon), canon);
        // board symmetries
        for t in all_transformations() {
            let moved = Node { board: apply(&node.board, t), piece_to_place: node.piece_to_place };
            assert_eq!(canonicalize(&moved), canon);
        }
        // swap attributes 0 and 2 and complement attribute 1 within the occupancy
        let b = node.board;
        let p = node.piece_to_place;
        let bit = |i: u8| (p >> i) & 1;
        let relabeled = Node {
            board: Board {
                occupancy: b.occupancy,
                attribute_masks: [b.attribute_masks[2], b.occupancy ^ b.attribute_masks[1], b.attribute_masks[0], b.attribute_masks[3]],
            },
            piece_to_place: bit(2) | ((bit(1) ^ 1) << 1) | (bit(0) << 2) | (bit(3) << 3),
        };
        assert_eq!(canonicalize(&relabeled), canon);
        // relabeling never makes a node larger
        let r = apply_attribute_relabeling(&node);
        assert!(!node.less_than(&r));
        assert!(r == node || r.less_than(&node));
    }
}

#[test]
fn pruning_keeps_values_inside_the_window() {
    for seed in 0..6u64 {
        let (node, _, _) = random_position(700 + seed, 13);
        let depth = node.board.occupancy.count_ones() as usize + 1;
        let mask = compute_unused_pieces_mask(&node);
        let v = negamax(&node, mask, depth, i16::MIN + 1, i16::MAX, None);
        for (a, b) in [(-50i16, 50i16), (v - 1, v + 1), (v, v + 2), (v - 2, v), (-300, 300)] {
            let r = negamax(&node, mask, depth, a, b, None);
            if a < v && v < b {
                assert_eq!(r, v);
            }
            if r <= a {
                assert!(v <= r);
            }
            if r >= b {
                assert!(v >= r);
            }
        }
    }
}

#[test]
fn a_tablebase_holding_the_searched_outcome_changes_nothing() {
    for seed in 0..5u64 {
        let (node, _, _) = random_position(800 + seed, 12);
        let o = evaluate(&node, None);
        let canon = canonicalize(&node);
        let bytes = build_index(&vec![Record { node: canon, outcome: o }.to_bytes()], 13, 0, 0, 0, 1).unwrap();
        let tb = TablebaseIndex::from_files(vec![file_of(&bytes)]).unwrap();
        assert_eq!(evaluate(&node, Some(&tb)), o);
        assert_eq!(evaluate(&canon, None), o);
    }
}
