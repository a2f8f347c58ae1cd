//! Solving a depth: enumerating the canonical positions of one occupancy
//! pattern, evaluating them, and routing the records to shards.

use vstd::prelude::*;
use vstd::multiset::Multiset;
use crate::board::Board;
use crate::node::Node;
use crate::record::Record;
use crate::tablebase::TablebaseIndex;

verus! {

/// Depth at which work is split among workers.
pub const SPLIT_DEPTH: usize = 4;

/// The shard of a record: the top `shard_bits` bits of its shard hash.
pub open spec fn shard_of(shard_bits: u8, hash64: u64) -> u16 {
    if shard_bits == 0 {
        0
    } else {
        (hash64 >> ((64 - shard_bits) as u64)) as u16
    }
}

/// The shard of a record with shard hash `hash64`.
pub fn shard_id_from_hash(shard_bits: u8, hash64: u64) -> (r: u16)
    requires
        shard_bits < 64,
    ensures
        r == shard_of(shard_bits, hash64),
{
    if shard_bits == 0 {
        0
    } else {
        (hash64 >> (64 - shard_bits) as u64) as u16
    }
}

/// What an enumeration of one occupancy pattern is about.
pub struct EnumContext {
    pub worker_id: u32,
    pub total_workers: u32,
    pub layer: int,
    pub split_depth: int,
}

/// This worker owns the subtree under `board` at the split depth.
pub open spec fn owns(ctx: EnumContext, board: Board) -> bool {
    crate::hashing::xxh3_64_with_seed_spec(Node { board, piece_to_place: 0 }.bytes_spec(), crate::hashing::DOMAIN_WORKER)
        % (ctx.total_workers as u64) == ctx.worker_id as u64
}

/// The positions (each with the pieces still to hand over after its piece to
/// place) reached from `board` at depth `depth` with the squares of
/// `squares` still to fill (lowest first) and the pieces of `pieces` still in hand.
pub open spec fn positions_from(ctx: EnumContext, depth: int, board: Board, squares: u16, pieces: u16) -> Seq<(Node, u16)>
    decreases ctx.layer - depth, 17int,
{
    if depth == ctx.split_depth && !owns(ctx, board) {
        Seq::empty()
    } else if depth >= ctx.layer - 2 || depth < 0 {
        last_positions(board, squares, pieces)
    } else {
        positions_with_pieces(ctx, depth, board, squares, pieces, 0)
    }
}

/// The positions reached by placing, on the lowest square of `squares`, each
/// piece of `pieces` from `p` on, ascending, that makes no quarto.
pub open spec fn positions_with_pieces(ctx: EnumContext, depth: int, board: Board, squares: u16, pieces: u16, p: int) -> Seq<(Node, u16)>
    decreases ctx.layer - depth, 16 - p,
{
    if p >= 16 || p < 0 || depth >= ctx.layer - 2 || depth < 0 {
        Seq::empty()
    } else {
        let rest = positions_with_pieces(ctx, depth, board, squares, pieces, p + 1);
        if (pieces >> (p as u16)) & 1u16 == 1u16 {
            let sq = crate::bits::lowest_bit_spec(squares);
            let next = crate::place::place_spec(board, p as u8, sq);
            if crate::line_masks::has_quarto_through(next, sq.trailing_zeros()) {
                rest
            } else {
                positions_from(ctx, depth + 1, next, (squares ^ sq) as u16, (pieces ^ (1u16 << (p as u16))) as u16) + rest
            }
        } else {
            rest
        }
    }
}

/// The last placement: piece 0 on the last square; unless that makes a
/// quarto, each piece left in hand, ascending, whose position is canonical
/// under attribute relabeling.
pub open spec fn last_positions(board: Board, squares: u16, pieces: u16) -> Seq<(Node, u16)> {
    let fb = crate::place::place_spec(board, 0, squares);
    if crate::line_masks::has_quarto_through(fb, squares.trailing_zeros()) {
        Seq::empty()
    } else {
        handed_pieces(fb, pieces, 16)
    }
}

/// The positions on `fb` with each piece of `pieces` below `n` to place, ascending,
/// kept when canonical under attribute relabeling.
pub open spec fn handed_pieces(fb: Board, pieces: u16, n: int) -> Seq<(Node, u16)>
    decreases n,
{
    if n <= 0 {
        Seq::empty()
    } else {
        let prev = handed_pieces(fb, pieces, n - 1);
        let node = Node { board: fb, piece_to_place: (n - 1) as u8 };
        if (pieces >> ((n - 1) as u16)) & 1u16 == 1u16 && crate::canonicalization::is_relabel_canonical(node) {
            prev.push((node, (pieces ^ (1u16 << ((n - 1) as u16))) as u16))
        } else {
            prev
        }
    }
}

/// Records `recs` are the positions `ps` with their game outcomes (given the
/// pieces still to hand over), each routed to its shard.
pub open spec fn records_for(ps: Seq<(Node, u16)>, recs: Seq<(u16, Record)>, shard_bits: u8, tablebase: Option<&TablebaseIndex>) -> bool {
    &&& recs.len() == ps.len()
    &&& forall|i: int| 0 <= i < ps.len() ==> {
        let (shard, rec) = #[trigger] recs[i];
        &&& rec.node == ps[i].0
        &&& crate::evaluate::evaluate_post(ps[i].0, tablebase, rec.outcome)
        &&& rec.outcome == crate::evaluate::game_outcome(ps[i].0, ps[i].1, tablebase)
        &&& shard == shard_of(shard_bits, crate::hashing::xxh3_64_with_seed_spec(ps[i].0.bytes_spec(), crate::hashing::DOMAIN_SHARD))
    }
}

} // verus!

verus! {

/// `new` is `old` followed by the records of positions `ps`.
pub open spec fn appended(old: Seq<(u16, Record)>, new: Seq<(u16, Record)>, ps: Seq<(Node, u16)>, shard_bits: u8, tablebase: Option<&TablebaseIndex>) -> bool {
    &&& new.len() == old.len() + ps.len()
    &&& new.subrange(0, old.len() as int) == old
    &&& records_for(ps, new.subrange(old.len() as int, new.len() as int), shard_bits, tablebase)
}

proof fn lemma_appended_step(
    o0: Seq<(u16, Record)>, o1: Seq<(u16, Record)>, o2: Seq<(u16, Record)>, a: Seq<(Node, u16)>, b: Seq<(Node, u16)>, shard_bits: u8,
    tablebase: Option<&TablebaseIndex>,
)
    requires
        appended(o0, o1, a, shard_bits, tablebase),
        appended(o1, o2, b, shard_bits, tablebase),
    ensures
        appended(o0, o2, a + b, shard_bits, tablebase),
{
    let r1 = o1.subrange(o0.len() as int, o1.len() as int);
    let r2 = o2.subrange(o1.len() as int, o2.len() as int);
    let r = o2.subrange(o0.len() as int, o2.len() as int);
    assert(o2.subrange(0, o0.len() as int) =~= o1.subrange(0, o0.len() as int));
    assert(r =~= r1 + r2) by {
        assert forall|i: int| 0 <= i < r.len() implies r[i] == (r1 + r2)[i] by {
            if i < r1.len() {
                assert(o2[o0.len() + i] == o1[o0.len() + i]);
            }
        }
    }
    assert forall|i: int| 0 <= i < (a + b).len() implies {
        let (shard, rec) = #[trigger] r[i];
        &&& rec.node == (a + b)[i].0
        &&& crate::evaluate::evaluate_post((a + b)[i].0, tablebase, rec.outcome)
        &&& rec.outcome == crate::evaluate::game_outcome((a + b)[i].0, (a + b)[i].1, tablebase)
        &&& shard == shard_of(shard_bits, crate::hashing::xxh3_64_with_seed_spec((a + b)[i].0.bytes_spec(), crate::hashing::DOMAIN_SHARD))
    } by {
        if i < a.len() {
            assert(r[i] == r1[i]);
        } else {
            assert(r[i] == r2[i - a.len()]);
        }
    }
}

proof fn lemma_appended_push(
    o0: Seq<(u16, Record)>, o1: Seq<(u16, Record)>, a: Seq<(Node, u16)>, x: (u16, Record), n: (Node, u16), shard_bits: u8,
    tablebase: Option<&TablebaseIndex>,
)
    requires
        appended(o0, o1, a, shard_bits, tablebase),
        x.1.node == n.0,
        crate::evaluate::evaluate_post(n.0, tablebase, x.1.outcome),
        x.1.outcome == crate::evaluate::game_outcome(n.0, n.1, tablebase),
        x.0 == shard_of(shard_bits, crate::hashing::xxh3_64_with_seed_spec(n.0.bytes_spec(), crate::hashing::DOMAIN_SHARD)),
    ensures
        appended(o0, o1.push(x), a.push(n), shard_bits, tablebase),
{
    let o2 = o1.push(x);
    let r = o2.subrange(o0.len() as int, o2.len() as int);
    let r1 = o1.subrange(o0.len() as int, o1.len() as int);
    assert(o2.subrange(0, o0.len() as int) =~= o1.subrange(0, o0.len() as int));
    assert(r =~= r1.push(x));
}

/// Emit the records of the last placement on `board`.
fn last_level(
    board: &Board, squares: u16, pieces: u16, shard_bits: u8, tablebase: Option<&TablebaseIndex>, out: &mut Vec<(u16, Record)>,
)
    requires
        squares != 0,
        shard_bits < 64,
        crate::evaluate::tb_ok(tablebase),
    ensures
        appended(old(out)@, final(out)@, last_positions(*board, squares, pieces), shard_bits, tablebase),
{
    let ghost o0 = out@;
    let (final_board, is_quarto) = crate::place::check_after_place(board, 0, squares);
    if is_quarto {
        assert(out@.subrange(0, o0.len() as int) =~= o0);
        assert(out@.subrange(o0.len() as int, out@.len() as int) =~= Seq::<(u16, Record)>::empty());
        return;
    }
    assert(out@.subrange(0, o0.len() as int) =~= o0);
    assert(out@.subrange(o0.len() as int, out@.len() as int) =~= Seq::<(u16, Record)>::empty());
    let mut p: u16 = 0;
    while p < 16
        invariant
            p <= 16,
            shard_bits < 64,
            crate::evaluate::tb_ok(tablebase),
            appended(o0, out@, handed_pieces(final_board, pieces, p as int), shard_bits, tablebase),
        decreases 16 - p,
    {
        if (pieces >> p) & 1u16 == 1u16 {
            let node = Node { board: final_board, piece_to_place: p as u8 };
            if crate::canonicalization::is_node_canonical_under_attribute_relabeling_only(&node) {
                let remaining = pieces ^ (1u16 << p);
                let outcome = crate::evaluate::evaluate_with_remaining_pieces(&node, remaining, tablebase);
                let shard = shard_id_from_hash(shard_bits, crate::hashing::hash_shard_node(&node));
                let x = (shard, Record { node, outcome });
                let ghost o1 = out@;
                out.push(x);
                proof {
                    lemma_appended_push(o0, o1, handed_pieces(final_board, pieces, p as int), x, (node, remaining), shard_bits, tablebase);
                }
            }
        }
        p = p + 1;
    }
}

} // verus!

verus! {

/// Enumerate, depth first, the positions of this worker reached from `board`
/// at depth `depth`, placing pieces on the squares of `squares` lowest first.
fn backtrack_split(
    worker_id: u32,
    total_workers: u32,
    layer: usize,
    depth: usize,
    board: &Board,
    squares: u16,
    pieces: u16,
    split_depth: usize,
    shard_bits: u8,
    tablebase: Option<&TablebaseIndex>,
    out: &mut Vec<(u16, Record)>,
)
    requires
        total_workers > 0,
        2 <= layer <= 17,
        depth <= layer - 2,
        shard_bits < 64,
        crate::evaluate::tb_ok(tablebase),
        crate::bits::popcount(squares) == layer - 1 - depth,
    ensures
        appended(
            old(out)@,
            final(out)@,
            positions_from(
                (EnumContext { worker_id, total_workers, layer: layer as int, split_depth: split_depth as int }),
                depth as int,
                *board,
                squares,
                pieces,
            ),
            shard_bits,
            tablebase,
        ),
    decreases layer - depth,
{
    let ghost ctx = EnumContext { worker_id, total_workers, layer: layer as int, split_depth: split_depth as int };
    let ghost o0 = out@;
    proof {
        if squares == 0 {
            crate::bits::lemma_popcount_zero();
        }
    }
    if depth == split_depth {
        let h = crate::hashing::hash_worker_node(&Node { board: *board, piece_to_place: 0 });
        if h % (total_workers as u64) != worker_id as u64 {
            assert(out@.subrange(0, o0.len() as int) =~= o0);
            assert(out@.subrange(o0.len() as int, out@.len() as int) =~= Seq::<(u16, Record)>::empty());
            return;
        }
    }
    if depth == layer - 2 {
        last_level(board, squares, pieces, shard_bits, tablebase, out);
        return;
    }
    let square = crate::bits::lowest_bit(squares);
    proof {
        crate::bits::lemma_lowest_bit(squares);
        crate::bits::lemma_popcount_clear_lowest(squares);
    }
    assert(out@.subrange(0, o0.len() as int) =~= o0);
    assert(out@.subrange(o0.len() as int, out@.len() as int) =~= Seq::<(u16, Record)>::empty());
    let ghost mut done: Seq<(Node, u16)> = Seq::empty();
    let mut p: u16 = 0;
    while p < 16
        invariant
            p <= 16,
            total_workers > 0,
            2 <= layer <= 17,
            depth < layer - 2,
            shard_bits < 64,
            crate::evaluate::tb_ok(tablebase),
            square == crate::bits::lowest_bit_spec(squares),
            square != 0,
            crate::bits::popcount((squares ^ square) as u16) == layer - 1 - (depth + 1),
            ctx == (EnumContext { worker_id, total_workers, layer: layer as int, split_depth: split_depth as int }),
            appended(o0, out@, done, shard_bits, tablebase),
            done + positions_with_pieces(ctx, depth as int, *board, squares, pieces, p as int)
                == positions_with_pieces(ctx, depth as int, *board, squares, pieces, 0),
        decreases 16 - p,
    {
        let ghost rest = positions_with_pieces(ctx, depth as int, *board, squares, pieces, p + 1);
        if (pieces >> p) & 1u16 == 1u16 {
            let (board_next, is_quarto) = crate::place::check_after_place(board, p as u8, square);
            if !is_quarto {
                let ghost o1 = out@;
                let ghost sub = positions_from(ctx, depth + 1, board_next, (squares ^ square) as u16, (pieces ^ (1u16 << p)) as u16);
                backtrack_split(worker_id, total_workers, layer, depth + 1, &board_next, squares ^ square, pieces ^ (1u16 << p),
                    split_depth, shard_bits, tablebase, out);
                proof {
                    lemma_appended_step(o0, o1, out@, done, sub, shard_bits, tablebase);
                    assert(done + sub + rest =~= done + (sub + rest));
                    done = done + sub;
                }
            } else {
                assert(positions_with_pieces(ctx, depth as int, *board, squares, pieces, p as int) == rest);
            }
        } else {
            assert(positions_with_pieces(ctx, depth as int, *board, squares, pieces, p as int) == rest);
        }
        p = p + 1;
    }
    proof {
        assert(positions_with_pieces(ctx, depth as int, *board, squares, pieces, 16) =~= Seq::<(Node, u16)>::empty());
        assert(done + Seq::<(Node, u16)>::empty() =~= done);
        assert(positions_from(ctx, depth as int, *board, squares, pieces) == positions_with_pieces(ctx, depth as int, *board, squares, pieces, 0));
    }
}

} // verus!

verus! {

/// The canonical occupancy patterns of a layer: those with `layer - 1`
/// squares filled (none for layers 0 and 1) that no symmetry maps lower.
pub open spec fn is_layer_mask(layer: usize, m: u16) -> bool {
    &&& crate::bits::popcount(m) == (if layer == 0 { 0 } else { layer - 1 })
    &&& crate::transform::is_canonical_occupancy_spec(m)
}

/// The canonical occupancy patterns of `layer`, ascending.
pub fn occupancy_masks(layer: usize) -> (r: Vec<u16>)
    requires
        layer <= 17,
    ensures
        forall|i: int| 0 <= i < r.len() ==> is_layer_mask(layer, #[trigger] r@[i]),
        forall|i: int, j: int| 0 <= i < j < r.len() ==> r@[i] < r@[j],
        forall|m: u16| is_layer_mask(layer, m) ==> r@.contains(m),
{
    let pieces: u32 = if layer == 0 { 0 } else { (layer - 1) as u32 };
    let mut r: Vec<u16> = Vec::new();
    let mut candidate: u32 = 0;
    while candidate < 0x10000
        invariant
            candidate <= 0x10000,
            pieces == (if layer == 0 { 0 } else { layer - 1 }),
            forall|i: int| 0 <= i < r.len() ==> is_layer_mask(layer, #[trigger] r@[i]) && r@[i] < candidate,
            forall|i: int, j: int| 0 <= i < j < r.len() ==> r@[i] < r@[j],
            forall|m: u16| (m as u32) < candidate && is_layer_mask(layer, m) ==> r@.contains(m),
        decreases 0x10000 - candidate,
    {
        let mask = candidate as u16;
        let c = crate::bits::count_ones(mask);
        if c == pieces && crate::transform::is_canonical_occupancy(mask) {
            let ghost old_r = r@;
            r.push(mask);
            proof {
                assert forall|m: u16| (m as u32) < candidate + 1 && is_layer_mask(layer, m) implies r@.contains(m) by {
                    if m == mask {
                        assert(r@[r.len() - 1] == m);
                    } else {
                        assert(old_r.contains(m));
                        let k = choose|k: int| 0 <= k < old_r.len() && old_r[k] == m;
                        assert(r@[k] == m);
                    }
                }
            }
        }
        candidate = candidate + 1;
    }
    r
}

/// The enumeration context of `layer` for one worker: work is split at
/// depth `min(layer - 2, SPLIT_DEPTH)`.
pub open spec fn layer_context(worker_id: u32, total_workers: u32, layer: usize) -> EnumContext {
    EnumContext {
        worker_id,
        total_workers,
        layer: layer as int,
        split_depth: if layer - 2 < SPLIT_DEPTH { layer - 2 } else { SPLIT_DEPTH as int },
    }
}

/// The pieces in hand at the start of an enumeration: all but piece 0,
/// which is placed last so that the position is canonical.
pub open spec fn pieces_but_zero() -> u16 {
    0xFFFEu16
}

/// The positions of occupancy pattern `mask` in `layer` that this worker owns.
pub open spec fn mask_positions(worker_id: u32, total_workers: u32, layer: usize, mask: u16) -> Seq<(Node, u16)> {
    positions_from(layer_context(worker_id, total_workers, layer), 0, crate::board::root_board_spec(), mask, pieces_but_zero())
}

/// The records, routed to shards, of the positions of occupancy pattern
/// `mask` in `layer` owned by worker `worker_id` of `total_workers`: pieces
/// fill the squares of the mask lowest first, piece 0 last, positions with a
/// quarto are cut off, and only positions canonical under attribute
/// relabeling are kept and evaluated.
pub fn solve_mask(
    worker_id: u32,
    total_workers: u32,
    layer: usize,
    mask: u16,
    shard_bits: u8,
    tablebase: Option<&TablebaseIndex>,
) -> (r: Vec<(u16, Record)>)
    requires
        total_workers > 0,
        2 <= layer <= 17,
        crate::bits::popcount(mask) == layer - 1,
        shard_bits < 64,
        crate::evaluate::tb_ok(tablebase),
    ensures
        records_for(mask_positions(worker_id, total_workers, layer, mask), r@, shard_bits, tablebase),
{
    let split_depth: usize = if layer - 2 < SPLIT_DEPTH { layer - 2 } else { SPLIT_DEPTH };
    let root = crate::board::root_board();
    let mut out: Vec<(u16, Record)> = Vec::new();
    backtrack_split(worker_id, total_workers, layer, 0, &root, mask, 0xFFFEu16, split_depth, shard_bits, tablebase, &mut out);
    proof {
        assert(out@.subrange(0, 0) =~= Seq::<(u16, Record)>::empty());
        assert(out@.subrange(0, out@.len() as int) =~= out@);
    }
    out
}

/// The one record of layer 0 or 1, both of which hold only the empty board:
/// layer 0 the root sentinel, layer 1 the empty board with piece 0 to place.
/// Either takes the outcome of the empty board with piece 0 to place, the
/// only canonical move of the root.
pub open spec fn small_layer_record(layer: usize, shard_bits: u8, tablebase: Option<&TablebaseIndex>, r: (u16, Record)) -> bool {
    let start = Node { board: crate::board::root_board_spec(), piece_to_place: 0 };
    let node = if layer == 0 { crate::node::depth_0_sentinel_spec() } else { start };
    &&& r.1.node == node
    &&& crate::evaluate::evaluate_post(start, tablebase, r.1.outcome)
    &&& r.1.outcome == crate::evaluate::game_outcome(start, pieces_but_zero(), tablebase)
    &&& r.0 == shard_of(shard_bits, crate::hashing::xxh3_64_with_seed_spec(node.bytes_spec(), crate::hashing::DOMAIN_SHARD))
}

/// The records of layer 0 or 1 for worker `worker_id`: worker 0 emits the
/// layer's one record, the others none.
pub fn solve_small_layer(worker_id: u32, layer: usize, shard_bits: u8, tablebase: Option<&TablebaseIndex>) -> (r: Vec<(u16, Record)>)
    requires
        layer <= 1,
        shard_bits < 64,
        crate::evaluate::tb_ok(tablebase),
    ensures
        worker_id != 0 ==> r@.len() == 0,
        worker_id == 0 ==> r@.len() == 1 && small_layer_record(layer, shard_bits, tablebase, r@[0]),
{
    let mut out: Vec<(u16, Record)> = Vec::new();
    if worker_id != 0 {
        return out;
    }
    let start = Node { board: crate::board::root_board(), piece_to_place: 0 };
    let outcome = crate::evaluate::evaluate_with_remaining_pieces(&start, 0xFFFEu16, tablebase);
    let node = if layer == 0 { crate::node::depth_0_sentinel() } else { start };
    let shard = shard_id_from_hash(shard_bits, crate::hashing::hash_shard_node(&node));
    out.push((shard, Record { node, outcome }));
    out
}

} // verus!

verus! {

/// What a solve run reports as it goes; times are seconds since the Unix epoch.
#[derive(Debug, Clone, Copy, PartialEq, Eq, Structural)]
pub enum SolveEvent {
    RunStart { layer: u32, workers: u32, shard_bits: u8, timestamp: u64 },
    RunResume { layer: u32, workers: u32, shard_bits: u8, timestamp: u64 },
    WorkerStart { worker_id: u16, timestamp: u64 },
    MaskComplete { worker_id: u16, mask_index: usize, positions: u64, timestamp: u64 },
    ShardSpill { worker_id: u16, shard_id: u16, mask_index: usize, bytes_written: usize, timestamp: u64 },
    WorkerEnd { worker_id: u16, total_positions: u64, timestamp: u64 },
    RunEnd { total_positions: u64, timestamp: u64 },
}

} // verus!

verus! {

proof fn lemma_occupancy_step(o: u16, s: u16, l: u16, w: u16)
    by (bit_vector)
    requires
        l == s & w,
        s != 0 ==> ((s ^ l) | l) == s,
    ensures
        ((o | l) | (s ^ l)) == (o | s),
{
}

/// An enumerated position: its board fills exactly `occupied` and has no
/// quarto, it is canonical under attribute relabeling, and it names a piece
/// to place.
pub open spec fn has_shape(e: (Node, u16), occupied: u16) -> bool {
    &&& e.0.board.occupancy == occupied
    &&& !crate::line_masks::has_quarto(e.0.board)
    &&& crate::canonicalization::is_relabel_canonical(e.0)
    &&& e.0.piece_to_place < 16
}

proof fn lemma_off_line(x: u16, l: u16, s: u16)
    by (bit_vector)
    requires
        s < 16,
        (l >> s) & 1u16 != 1u16,
    ensures
        ((x | (1u16 << s)) & l) == (x & l),
        (0u16 & l) == 0u16,
{
}

/// Placing a piece makes no quarto away from the square it is placed on.
proof fn lemma_no_new_quarto(board: Board, p: u8, s: u32)
    requires
        s < 16,
        !crate::line_masks::has_quarto(board),
        !crate::line_masks::has_quarto_through(crate::place::place_spec(board, p, 1u16 << (s as u16)), s),
    ensures
        !crate::line_masks::has_quarto(crate::place::place_spec(board, p, 1u16 << (s as u16))),
{
    let next = crate::place::place_spec(board, p, 1u16 << (s as u16));
    assert forall|k: int| 0 <= k < 10 implies !crate::line_masks::is_quarto_line(next, #[trigger] crate::line_masks::line_masks_spec()[k]) by {
        let l = crate::line_masks::line_masks_spec()[k];
        if (l >> (s as u16)) & 1u16 == 1u16 {
            assert(!((l >> (s as u16)) & 1u16 == 1u16 && crate::line_masks::is_quarto_line(next, l)));
        } else {
            lemma_off_line(board.occupancy, l, s as u16);
            lemma_off_line(board.attr(0), l, s as u16);
            lemma_off_line(board.attr(1), l, s as u16);
            lemma_off_line(board.attr(2), l, s as u16);
            lemma_off_line(board.attr(3), l, s as u16);
            assert(!crate::line_masks::is_quarto_line(board, l));
        }
    }
}

/// A mask with one square set is that square's bit.
proof fn lemma_single_square(x: u16)
    requires
        crate::bits::popcount(x) == 1,
    ensures
        x == 1u16 << (x.trailing_zeros() as u16),
        x.trailing_zeros() < 16,
{
    if x == 0 {
        crate::bits::lemma_popcount_zero();
    }
    crate::bits::lemma_lowest_bit(x);
    crate::bits::lemma_popcount_clear_lowest(x);
    let y = (x ^ crate::bits::lowest_bit_spec(x)) as u16;
    if y != 0 {
        crate::bits::lemma_popcount_clear_lowest(y);
    }
    assert(y == 0);
    crate::bits::lemma_xor_u16(0, 0, 0);
    assert((y | crate::bits::lowest_bit_spec(x)) as u16 == x);
    assert((0u16 | crate::bits::lowest_bit_spec(x)) == crate::bits::lowest_bit_spec(x)) by {
        let l = crate::bits::lowest_bit_spec(x);
        assert((0u16 | l) == l) by (bit_vector);
    }
}

proof fn lemma_handed_shape(fb: Board, pieces: u16, n: int)
    requires
        n <= 16,
        !crate::line_masks::has_quarto(fb),
    ensures
        forall|i: int| 0 <= i < handed_pieces(fb, pieces, n).len() ==> has_shape(#[trigger] handed_pieces(fb, pieces, n)[i], fb.occupancy),
    decreases n,
{
    if n > 0 {
        lemma_handed_shape(fb, pieces, n - 1);
        let prev = handed_pieces(fb, pieces, n - 1);
        let node = Node { board: fb, piece_to_place: (n - 1) as u8 };
        let x = (node, (pieces ^ (1u16 << ((n - 1) as u16))) as u16);
        if (pieces >> ((n - 1) as u16)) & 1u16 == 1u16 && crate::canonicalization::is_relabel_canonical(node) {
            assert forall|i: int| 0 <= i < prev.push(x).len() implies has_shape(#[trigger] prev.push(x)[i], fb.occupancy) by {
                if i < prev.len() {
                    assert(prev.push(x)[i] == prev[i]);
                }
            }
        }
    }
}

proof fn lemma_positions_from_shape(ctx: EnumContext, depth: int, board: Board, squares: u16, pieces: u16)
    requires
        0 <= depth <= ctx.layer - 2,
        crate::bits::popcount(squares) == ctx.layer - 1 - depth,
        !crate::line_masks::has_quarto(board),
    ensures
        forall|i: int| 0 <= i < positions_from(ctx, depth, board, squares, pieces).len()
            ==> has_shape(#[trigger] positions_from(ctx, depth, board, squares, pieces)[i], board.occupancy | squares),
    decreases ctx.layer - depth, 17int,
{
    if depth == ctx.split_depth && !owns(ctx, board) {
        assert(positions_from(ctx, depth, board, squares, pieces).len() == 0);
    } else if depth >= ctx.layer - 2 || depth < 0 {
        let fb = crate::place::place_spec(board, 0, squares);
        assert(positions_from(ctx, depth, board, squares, pieces) == last_positions(board, squares, pieces));
        assert(fb.occupancy == board.occupancy | squares);
        if crate::line_masks::has_quarto_through(fb, squares.trailing_zeros()) {
            assert(last_positions(board, squares, pieces).len() == 0);
        } else {
            lemma_single_square(squares);
            lemma_no_new_quarto(board, 0, squares.trailing_zeros());
            lemma_handed_shape(fb, pieces, 16);
            assert(last_positions(board, squares, pieces) == handed_pieces(fb, pieces, 16));
        }
    } else {
        lemma_positions_with_pieces_shape(ctx, depth, board, squares, pieces, 0);
        assert(positions_from(ctx, depth, board, squares, pieces) == positions_with_pieces(ctx, depth, board, squares, pieces, 0));
    }
}

proof fn lemma_positions_with_pieces_shape(ctx: EnumContext, depth: int, board: Board, squares: u16, pieces: u16, p: int)
    requires
        0 <= depth < ctx.layer - 2,
        crate::bits::popcount(squares) == ctx.layer - 1 - depth,
        !crate::line_masks::has_quarto(board),
    ensures
        forall|i: int| 0 <= i < positions_with_pieces(ctx, depth, board, squares, pieces, p).len()
            ==> has_shape(#[trigger] positions_with_pieces(ctx, depth, board, squares, pieces, p)[i], board.occupancy | squares),
    decreases ctx.layer - depth, 16 - p,
{
    if p >= 16 || p < 0 || depth >= ctx.layer - 2 || depth < 0 {
    } else {
        lemma_positions_with_pieces_shape(ctx, depth, board, squares, pieces, p + 1);
        if (pieces >> (p as u16)) & 1u16 == 1u16 {
            let sq = crate::bits::lowest_bit_spec(squares);
            let next = crate::place::place_spec(board, p as u8, sq);
            if !crate::line_masks::has_quarto_through(next, sq.trailing_zeros()) {
                let sub = positions_from(ctx, depth + 1, next, (squares ^ sq) as u16, (pieces ^ (1u16 << (p as u16))) as u16);
                let rest = positions_with_pieces(ctx, depth, board, squares, pieces, p + 1);
                if squares == 0 {
                    crate::bits::lemma_popcount_zero();
                }
                crate::bits::lemma_lowest_bit(squares);
                crate::bits::lemma_popcount_clear_lowest(squares);
                crate::bits::lemma_tz_single(squares.trailing_zeros() as u16);
                lemma_no_new_quarto(board, p as u8, squares.trailing_zeros());
                lemma_positions_from_shape(ctx, depth + 1, next, (squares ^ sq) as u16, (pieces ^ (1u16 << (p as u16))) as u16);
                lemma_occupancy_step(board.occupancy, squares, sq, ((!squares) as u16).wrapping_add(1u16));
                assert(positions_with_pieces(ctx, depth, board, squares, pieces, p) == sub + rest);
                assert(next.occupancy | ((squares ^ sq) as u16) == board.occupancy | squares);
                assert forall|i: int| 0 <= i < (sub + rest).len() implies has_shape(#[trigger] (sub + rest)[i], board.occupancy | squares) by {
                    if i < sub.len() {
                        assert((sub + rest)[i] == sub[i]);
                        assert(has_shape(sub[i], next.occupancy | ((squares ^ sq) as u16)));
                    } else {
                        assert((sub + rest)[i] == rest[i - sub.len()]);
                    }
                }
            } else {
                assert(positions_with_pieces(ctx, depth, board, squares, pieces, p) == positions_with_pieces(ctx, depth, board, squares, pieces, p + 1));
            }
        } else {
            assert(positions_with_pieces(ctx, depth, board, squares, pieces, p) == positions_with_pieces(ctx, depth, board, squares, pieces, p + 1));
        }
    }
}

/// Every position that a worker enumerates for occupancy pattern `mask`
/// fills exactly the squares of `mask` and has no quarto, is canonical under
/// attribute relabeling, and names a piece to place.
pub proof fn lemma_mask_positions_shape(worker_id: u32, total_workers: u32, layer: usize, mask: u16)
    requires
        2 <= layer <= 17,
        crate::bits::popcount(mask) == layer - 1,
    ensures
        forall|i: int| 0 <= i < mask_positions(worker_id, total_workers, layer, mask).len()
            ==> has_shape(#[trigger] mask_positions(worker_id, total_workers, layer, mask)[i], mask),
{
    let root = crate::board::root_board_spec();
    assert forall|k: int| 0 <= k < 10 implies !crate::line_masks::is_quarto_line(root, #[trigger] crate::line_masks::line_masks_spec()[k]) by {
        let l = crate::line_masks::line_masks_spec()[k];
        assert((0u16 & l) == 0u16) by (bit_vector);
    }
    lemma_positions_from_shape(layer_context(worker_id, total_workers, layer), 0, root, mask, pieces_but_zero());
    assert((0u16 | mask) == mask) by (bit_vector);
}

} // verus!

verus! {

/// `ctx` for worker `w`.
pub open spec fn as_worker(ctx: EnumContext, w: int) -> EnumContext {
    EnumContext { worker_id: w as u32, total_workers: ctx.total_workers, layer: ctx.layer, split_depth: ctx.split_depth }
}

/// `ctx` with a single worker, which owns everything.
pub open spec fn single(ctx: EnumContext) -> EnumContext {
    EnumContext { worker_id: 0, total_workers: 1, layer: ctx.layer, split_depth: ctx.split_depth }
}

/// The positions of workers `0..n` together.
pub open spec fn sum_from(ctx: EnumContext, n: nat, depth: int, board: Board, squares: u16, pieces: u16) -> Multiset<(Node, u16)>
    decreases n,
{
    if n == 0 {
        Multiset::empty()
    } else {
        sum_from(ctx, (n - 1) as nat, depth, board, squares, pieces).add(
            positions_from(as_worker(ctx, n - 1), depth, board, squares, pieces).to_multiset(),
        )
    }
}

/// The positions of workers `0..n` together, from piece `p` on.
pub open spec fn sum_with(ctx: EnumContext, n: nat, depth: int, board: Board, squares: u16, pieces: u16, p: int) -> Multiset<(Node, u16)>
    decreases n,
{
    if n == 0 {
        Multiset::empty()
    } else {
        sum_with(ctx, (n - 1) as nat, depth, board, squares, pieces, p).add(
            positions_with_pieces(as_worker(ctx, n - 1), depth, board, squares, pieces, p).to_multiset(),
        )
    }
}

/// Below the split depth the enumeration does not depend on the worker.
proof fn lemma_from_worker_free(a: EnumContext, b: EnumContext, depth: int, board: Board, squares: u16, pieces: u16)
    requires
        a.layer == b.layer,
        a.split_depth == b.split_depth,
        depth > a.split_depth,
    ensures
        positions_from(a, depth, board, squares, pieces) == positions_from(b, depth, board, squares, pieces),
    decreases a.layer - depth, 17int,
{
    if depth >= a.layer - 2 || depth < 0 {
    } else {
        lemma_with_worker_free(a, b, depth, board, squares, pieces, 0);
    }
}

proof fn lemma_with_worker_free(a: EnumContext, b: EnumContext, depth: int, board: Board, squares: u16, pieces: u16, p: int)
    requires
        a.layer == b.layer,
        a.split_depth == b.split_depth,
        depth >= a.split_depth,
    ensures
        positions_with_pieces(a, depth, board, squares, pieces, p) == positions_with_pieces(b, depth, board, squares, pieces, p),
    decreases a.layer - depth, 16 - p,
{
    if p >= 16 || p < 0 || depth >= a.layer - 2 || depth < 0 {
    } else {
        lemma_with_worker_free(a, b, depth, board, squares, pieces, p + 1);
        if (pieces >> (p as u16)) & 1u16 == 1u16 {
            let sq = crate::bits::lowest_bit_spec(squares);
            let next = crate::place::place_spec(board, p as u8, sq);
            lemma_from_worker_free(a, b, depth + 1, next, (squares ^ sq) as u16, (pieces ^ (1u16 << (p as u16))) as u16);
        }
    }
}

/// At the split depth exactly one worker, the hash of the board modulo the
/// number of workers, keeps the subtree.
proof fn lemma_sum_at_split(ctx: EnumContext, n: nat, depth: int, board: Board, squares: u16, pieces: u16)
    requires
        ctx.total_workers > 0,
        n <= ctx.total_workers,
        depth == ctx.split_depth,
    ensures
        sum_from(ctx, n, depth, board, squares, pieces) == (if owner(ctx, board) < n {
            positions_from(single(ctx), depth, board, squares, pieces).to_multiset()
        } else {
            Multiset::empty()
        }),
    decreases n,
{
    broadcast use vstd::multiset::group_multiset_axioms;
    if n > 0 {
        lemma_sum_at_split(ctx, (n - 1) as nat, depth, board, squares, pieces);
        let w = as_worker(ctx, n - 1);
        let prev = sum_from(ctx, (n - 1) as nat, depth, board, squares, pieces);
        let full = positions_from(single(ctx), depth, board, squares, pieces);
        assert(owns(single(ctx), board));
        if owner(ctx, board) == n - 1 {
            assert(owns(w, board));
            if depth >= ctx.layer - 2 || depth < 0 {
            } else {
                lemma_with_worker_free(w, single(ctx), depth, board, squares, pieces, 0);
            }
            assert(positions_from(w, depth, board, squares, pieces) == full);
            assert(prev.add(full.to_multiset()) =~= full.to_multiset());
        } else {
            assert(!owns(w, board));
            assert(positions_from(w, depth, board, squares, pieces) =~= Seq::<(Node, u16)>::empty());
            assert(Seq::<(Node, u16)>::empty().to_multiset() =~= Multiset::<(Node, u16)>::empty()) by {
                broadcast use vstd::seq_lib::group_to_multiset_ensures;
            }
            assert(prev.add(Multiset::<(Node, u16)>::empty()) =~= prev);
        }
    }
}

/// The worker that keeps the subtree under `board` at the split depth.
pub open spec fn owner(ctx: EnumContext, board: Board) -> int {
    (crate::hashing::xxh3_64_with_seed_spec(Node { board, piece_to_place: 0 }.bytes_spec(), crate::hashing::DOMAIN_WORKER)
        % (ctx.total_workers as u64)) as int
}

/// Above the split depth, the workers' positions from piece `p` on split
/// into those of the first piece's subtree and those of the later pieces.
proof fn lemma_sum_with_step(ctx: EnumContext, n: nat, depth: int, board: Board, squares: u16, pieces: u16, p: int)
    requires
        0 <= depth < ctx.layer - 2,
        0 <= p < 16,
        depth != ctx.split_depth,
    ensures
        sum_with(ctx, n, depth, board, squares, pieces, p) == ({
            let sq = crate::bits::lowest_bit_spec(squares);
            let next = crate::place::place_spec(board, p as u8, sq);
            if (pieces >> (p as u16)) & 1u16 == 1u16 && !crate::line_masks::has_quarto_through(next, sq.trailing_zeros()) {
                sum_from(ctx, n, depth + 1, next, (squares ^ sq) as u16, (pieces ^ (1u16 << (p as u16))) as u16).add(
                    sum_with(ctx, n, depth, board, squares, pieces, p + 1))
            } else {
                sum_with(ctx, n, depth, board, squares, pieces, p + 1)
            }
        }),
    decreases n,
{
    broadcast use vstd::multiset::group_multiset_axioms;
    broadcast use vstd::seq_lib::lemma_multiset_commutative;
    if n > 0 {
        lemma_sum_with_step(ctx, (n - 1) as nat, depth, board, squares, pieces, p);
        let sq = crate::bits::lowest_bit_spec(squares);
        let next = crate::place::place_spec(board, p as u8, sq);
        let w = as_worker(ctx, n - 1);
        if (pieces >> (p as u16)) & 1u16 == 1u16 && !crate::line_masks::has_quarto_through(next, sq.trailing_zeros()) {
            let a = positions_from(w, depth + 1, next, (squares ^ sq) as u16, (pieces ^ (1u16 << (p as u16))) as u16);
            let b = positions_with_pieces(w, depth, board, squares, pieces, p + 1);
            assert(positions_with_pieces(w, depth, board, squares, pieces, p) == a + b);
            assert((a + b).to_multiset() =~= a.to_multiset().add(b.to_multiset()));
            let sa = sum_from(ctx, (n - 1) as nat, depth + 1, next, (squares ^ sq) as u16, (pieces ^ (1u16 << (p as u16))) as u16);
            let sb = sum_with(ctx, (n - 1) as nat, depth, board, squares, pieces, p + 1);
            assert(sa.add(sb).add(a.to_multiset().add(b.to_multiset())) =~= sa.add(a.to_multiset()).add(sb.add(b.to_multiset())));
        } else {
            assert(positions_with_pieces(w, depth, board, squares, pieces, p) == positions_with_pieces(w, depth, board, squares, pieces, p + 1));
        }
    }
}

proof fn lemma_partition_from(ctx: EnumContext, depth: int, board: Board, squares: u16, pieces: u16)
    requires
        ctx.total_workers > 0,
        0 <= depth <= ctx.split_depth,
        ctx.split_depth <= ctx.layer - 2,
    ensures
        sum_from(ctx, ctx.total_workers as nat, depth, board, squares, pieces)
            == positions_from(single(ctx), depth, board, squares, pieces).to_multiset(),
    decreases ctx.split_depth - depth, 17int,
{
    if depth == ctx.split_depth {
        lemma_sum_at_split(ctx, ctx.total_workers as nat, depth, board, squares, pieces);
    } else {
        lemma_sum_from_is_with(ctx, ctx.total_workers as nat, depth, board, squares, pieces);
        lemma_partition_with(ctx, depth, board, squares, pieces, 0);
    }
}

proof fn lemma_sum_from_is_with(ctx: EnumContext, n: nat, depth: int, board: Board, squares: u16, pieces: u16)
    requires
        0 <= depth < ctx.split_depth,
        ctx.split_depth <= ctx.layer - 2,
    ensures
        sum_from(ctx, n, depth, board, squares, pieces) == sum_with(ctx, n, depth, board, squares, pieces, 0),
    decreases n,
{
    if n > 0 {
        lemma_sum_from_is_with(ctx, (n - 1) as nat, depth, board, squares, pieces);
    }
}

proof fn lemma_partition_with(ctx: EnumContext, depth: int, board: Board, squares: u16, pieces: u16, p: int)
    requires
        ctx.total_workers > 0,
        0 <= depth < ctx.split_depth,
        ctx.split_depth <= ctx.layer - 2,
        0 <= p <= 16,
    ensures
        sum_with(ctx, ctx.total_workers as nat, depth, board, squares, pieces, p)
            == positions_with_pieces(single(ctx), depth, board, squares, pieces, p).to_multiset(),
    decreases ctx.split_depth - depth, 16 - p,
{
    broadcast use vstd::multiset::group_multiset_axioms;
    broadcast use vstd::seq_lib::lemma_multiset_commutative;
    let t = ctx.total_workers as nat;
    if p == 16 {
        lemma_sum_with_empty(ctx, t, depth, board, squares, pieces);
        assert(positions_with_pieces(single(ctx), depth, board, squares, pieces, p) =~= Seq::<(Node, u16)>::empty());
        assert(Seq::<(Node, u16)>::empty().to_multiset() =~= Multiset::<(Node, u16)>::empty()) by {
            broadcast use vstd::seq_lib::group_to_multiset_ensures;
        }
    } else {
        lemma_sum_with_step(ctx, t, depth, board, squares, pieces, p);
        lemma_partition_with(ctx, depth, board, squares, pieces, p + 1);
        let sq = crate::bits::lowest_bit_spec(squares);
        let next = crate::place::place_spec(board, p as u8, sq);
        if (pieces >> (p as u16)) & 1u16 == 1u16 && !crate::line_masks::has_quarto_through(next, sq.trailing_zeros()) {
            lemma_partition_from(ctx, depth + 1, next, (squares ^ sq) as u16, (pieces ^ (1u16 << (p as u16))) as u16);
            let a = positions_from(single(ctx), depth + 1, next, (squares ^ sq) as u16, (pieces ^ (1u16 << (p as u16))) as u16);
            let b = positions_with_pieces(single(ctx), depth, board, squares, pieces, p + 1);
            assert((a + b).to_multiset() =~= a.to_multiset().add(b.to_multiset()));
        }
    }
}

proof fn lemma_sum_with_empty(ctx: EnumContext, n: nat, depth: int, board: Board, squares: u16, pieces: u16)
    ensures
        sum_with(ctx, n, depth, board, squares, pieces, 16) == Multiset::<(Node, u16)>::empty(),
    decreases n,
{
    broadcast use vstd::multiset::group_multiset_axioms;
    if n > 0 {
        lemma_sum_with_empty(ctx, (n - 1) as nat, depth, board, squares, pieces);
        assert(Seq::<(Node, u16)>::empty().to_multiset() =~= Multiset::<(Node, u16)>::empty()) by {
            broadcast use vstd::seq_lib::group_to_multiset_ensures;
        }
        assert(Multiset::<(Node, u16)>::empty().add(Multiset::<(Node, u16)>::empty()) =~= Multiset::<(Node, u16)>::empty());
    }
}

/// The positions of all `total_workers` workers for occupancy pattern `mask`, together.
pub open spec fn workers_positions(total_workers: u32, layer: usize, mask: u16) -> Multiset<(Node, u16)> {
    sum_from(layer_context(0, total_workers, layer), total_workers as nat, 0, crate::board::root_board_spec(), mask, pieces_but_zero())
}

/// The workers split the positions of an occupancy pattern among them: taken
/// together, the positions of all workers are those of a single worker, each
/// exactly once.
pub proof fn lemma_workers_partition(total_workers: u32, layer: usize, mask: u16)
    requires
        total_workers > 0,
        2 <= layer <= 17,
    ensures
        workers_positions(total_workers, layer, mask) == mask_positions(0, 1, layer, mask).to_multiset(),
{
    let ctx = layer_context(0, total_workers, layer);
    lemma_partition_from(ctx, 0, crate::board::root_board_spec(), mask, pieces_but_zero());
    assert(single(ctx) == layer_context(0, 1, layer));
}

} // verus!

verus! {

proof fn lemma_top_bits_fit(h: u64, b: u8)
    by (bit_vector)
    requires
        1 <= b < 16,
    ensures
        (h >> ((64 - b) as u64)) < 0x10000u64,
{
}

/// A record is routed at solve time to the shard whose file the index reads
/// for it: both take the top shard bits of the record's shard hash.
pub proof fn lemma_shard_routing_agrees(ix: TablebaseIndex, node: Node, d: int)
    requires
        ix.wf(),
        0 <= d < 18,
        ix.depth_available(d),
    ensures
        ix.shard_of(node, d) == shard_of(ix.shard_bits_of(d), crate::hashing::xxh3_64_with_seed_spec(node.bytes_spec(), crate::hashing::DOMAIN_SHARD)) as int,
{
    ix.lemma_shard_bits_small(d);
    let b = ix.shard_bits_of(d);
    if b != 0 {
        lemma_top_bits_fit(crate::hashing::xxh3_64_with_seed_spec(node.bytes_spec(), crate::hashing::DOMAIN_SHARD), b);
    }
}

/// A loaded depth whose shard files were each indexed from the records routed
/// to their shard answers every record: looking up a record's position gives
/// the record's outcome. (`recs` are the records routed to the shard that the
/// position's shard hash picks, and the file of that shard was built from them.)
pub proof fn lemma_index_answers_routed_record(
    ix: TablebaseIndex, node: Node, recs: Seq<[u8; 11]>, bucket_bits: u8, slot_bits: u8, i: int,
)
    requires
        ix.wf(),
        TablebaseIndex::node_depth(node) <= 16,
        ix.depth_available(TablebaseIndex::node_depth(node)),
        bucket_bits < 63,
        slot_bits < 63,
        ({
            let d = TablebaseIndex::node_depth(node);
            let bits = ix.shard_bits_of(d);
            let s = shard_of(bits, crate::hashing::xxh3_64_with_seed_spec(node.bytes_spec(), crate::hashing::DOMAIN_SHARD));
            crate::index::index_built(recs, d as u8, s as u8, bits, bucket_bits, slot_bits, ix.file_of(d, s as int).bytes())
        }),
        0 <= i < recs.len(),
        node.bytes_spec() == crate::index::key_of(recs[i]),
    ensures
        ix.query_spec(node) == Some(crate::index::outcome_of(recs[i])),
{
    let d = TablebaseIndex::node_depth(node);
    assert(0 <= d) by {
        if node != crate::node::depth_0_sentinel_spec() {
        }
    }
    let bits = ix.shard_bits_of(d);
    let h = crate::hashing::xxh3_64_with_seed_spec(node.bytes_spec(), crate::hashing::DOMAIN_SHARD);
    let s = shard_of(bits, h);
    lemma_shard_routing_agrees(ix, node, d);
    ix.lemma_shard_bits_small(d);
    crate::tablebase::lemma_shard_top_bits(bits, h);
    assert(0 <= s < crate::tablebase::pow2_64(bits));
    let f = ix.file_of(d, s as int);
    assert(f.wf());
    crate::index::lemma_built_file_answers(f, recs, d as u8, s as u8, bits, bucket_bits, slot_bits, node, i);
}

} // verus!
