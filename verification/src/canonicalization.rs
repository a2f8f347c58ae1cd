//! Canonical forms of positions under board symmetries and attribute relabelings.

use vstd::prelude::*;
use crate::board::Board;
use crate::node::{Node, depth_0_sentinel, depth_0_sentinel_spec, depth_1_canonical, depth_1_canonical_spec};
use crate::place::masks_within_occupancy;
use crate::transform::{Transformation, apply, apply_spec, canonical_transformations, canonical_transformations_spec};

verus! {

/// Orient one attribute mask: replace it by its complement within the
/// occupancy when that is smaller, flipping the piece's bit along with it.
pub open spec fn orient_attribute_spec(occupancy: u16, attribute_mask: u16, piece_to_place_bit: u8) -> (u16, u8) {
    let inverted = (occupancy ^ attribute_mask) as u16;
    if inverted < attribute_mask {
        (inverted, (piece_to_place_bit ^ 1u8) as u8)
    } else {
        (attribute_mask, piece_to_place_bit)
    }
}

fn orient_attribute(occupancy: u16, attribute_mask: u16, piece_to_place_bit: u8) -> (r: (u16, u8))
    ensures
        r == orient_attribute_spec(occupancy, attribute_mask, piece_to_place_bit),
{
    let attribute_mask_inverted = occupancy ^ attribute_mask;
    if attribute_mask_inverted < attribute_mask {
        (attribute_mask_inverted, piece_to_place_bit ^ 1u8)
    } else {
        (attribute_mask, piece_to_place_bit)
    }
}

/// Bit `i` of the node's piece to place.
pub open spec fn piece_bit(node: Node, i: int) -> u8 {
    ((node.piece_to_place >> (i as u8)) & 1u8) as u8
}

/// Oriented attribute mask `i`.
pub open spec fn om(node: Node, i: int) -> u16 {
    orient_attribute_spec(node.board.occupancy, node.board.attr(i), piece_bit(node, i)).0
}

/// Oriented piece bit `i`.
pub open spec fn ob(node: Node, i: int) -> u8 {
    orient_attribute_spec(node.board.occupancy, node.board.attr(i), piece_bit(node, i)).1
}

/// The four oriented masks.
pub open spec fn oms(node: Node) -> Seq<u16> {
    seq![om(node, 0), om(node, 1), om(node, 2), om(node, 3)]
}

/// The four oriented piece bits.
pub open spec fn obs(node: Node) -> Seq<u8> {
    seq![ob(node, 0), ob(node, 1), ob(node, 2), ob(node, 3)]
}

/// Entry `j` sorts before entry `l`: by mask, then bit, then index.
pub open spec fn key_lt_seq(ms: Seq<u16>, bs: Seq<u8>, j: int, l: int) -> bool {
    ms[j] < ms[l] || (ms[j] == ms[l] && (bs[j] < bs[l] || (bs[j] == bs[l] && j < l)))
}

/// Number of entries sorting before entry `j`.
pub open spec fn rank_seq(ms: Seq<u16>, bs: Seq<u8>, j: int) -> int {
    (if key_lt_seq(ms, bs, 0, j) { 1int } else { 0int }) + (if key_lt_seq(ms, bs, 1, j) { 1int } else { 0int })
        + (if key_lt_seq(ms, bs, 2, j) { 1int } else { 0int }) + (if key_lt_seq(ms, bs, 3, j) { 1int } else { 0int })
}

/// Attribute `j` sorts before attribute `l`.
pub open spec fn key_lt(node: Node, j: int, l: int) -> bool {
    key_lt_seq(oms(node), obs(node), j, l)
}

/// Number of attributes sorting before attribute `j`.
pub open spec fn rank(node: Node, j: int) -> int {
    rank_seq(oms(node), obs(node), j)
}

/// The attribute at position `r` of the ascending key order.
pub open spec fn elem_with_rank(node: Node, r: int) -> int {
    if rank(node, 0) == r {
        0
    } else if rank(node, 1) == r {
        1
    } else if rank(node, 2) == r {
        2
    } else {
        3
    }
}

/// Attribute relabeling: orient every attribute, then order the attributes by
/// descending key, moving the piece's bits along with them.
pub open spec fn relabel_spec(node: Node) -> Node {
    let e3 = elem_with_rank(node, 3);
    let e2 = elem_with_rank(node, 2);
    let e1 = elem_with_rank(node, 1);
    let e0 = elem_with_rank(node, 0);
    Node {
        board: Board {
            occupancy: node.board.occupancy,
            attribute_masks: [om(node, e3), om(node, e2), om(node, e1), om(node, e0)],
        },
        piece_to_place: (ob(node, e3) | (ob(node, e2) << 1u8) | (ob(node, e1) << 2u8) | (ob(node, e0) << 3u8)) as u8,
    }
}

/// The node is its own attribute relabeling: every attribute mask is no larger
/// than its complement within the occupancy, masks do not increase, and equal
/// masks carry non-increasing piece bits.
pub open spec fn is_relabel_canonical(node: Node) -> bool {
    forall|i: int, ii: int| 0 <= i < 4 && i <= ii < 4 ==> #[trigger] canon_pair_ok(node, i, ii)
}

/// The conditions of `is_relabel_canonical` on attributes `i <= ii`.
pub open spec fn canon_pair_ok(node: Node, i: int, ii: int) -> bool {
    &&& !(((node.board.occupancy ^ node.board.attr(i)) as u16) < node.board.attr(i))
    &&& (i < ii ==> !(node.board.attr(i) < node.board.attr(ii)))
    &&& (i < ii && node.board.attr(i) == node.board.attr(ii) ==> !(piece_bit(node, ii) > piece_bit(node, i)))
}

fn rank_exec(om_: &[u16; 4], ob_: &[u8; 4], j: usize) -> (r: usize)
    requires
        j < 4,
    ensures
        r == rank_seq(om_@, ob_@, j as int),
{
    let mut r: usize = 0;
    let mut l: usize = 0;
    while l < 4
        invariant
            l <= 4,
            j < 4,
            r <= l,
            r == (if 0 < l && key_lt_seq(om_@, ob_@, 0, j as int) { 1int } else { 0int })
                + (if 1 < l && key_lt_seq(om_@, ob_@, 1, j as int) { 1int } else { 0int })
                + (if 2 < l && key_lt_seq(om_@, ob_@, 2, j as int) { 1int } else { 0int })
                + (if 3 < l && key_lt_seq(om_@, ob_@, 3, j as int) { 1int } else { 0int }),
        decreases 4 - l,
    {
        if om_[l] < om_[j] || (om_[l] == om_[j] && (ob_[l] < ob_[j] || (ob_[l] == ob_[j] && l < j))) {
            r = r + 1;
        }
        l = l + 1;
    }
    r
}

/// Apply attribute relabeling canonicalization to a node.
pub fn apply_attribute_relabeling(node: &Node) -> (r: Node)
    ensures
        r == relabel_spec(*node),
{
    let mut om_ = [0u16; 4];
    let mut ob_ = [0u8; 4];
    let mut i: usize = 0;
    while i < 4
        invariant
            i <= 4,
            forall|j: int| 0 <= j < i ==> om_@[j] == om(*node, j) && ob_@[j] == ob(*node, j),
        decreases 4 - i,
    {
        let piece_to_play_bit = (node.piece_to_place >> (i as u8)) & 1u8;
        let (m, b) = orient_attribute(node.board.occupancy, node.board.attribute_masks[i], piece_to_play_bit);
        om_[i] = m;
        ob_[i] = b;
        i = i + 1;
    }
    let ghost n = *node;
    assert(om_@ =~= oms(n));
    assert(ob_@ =~= obs(n));
    let r0 = rank_exec(&om_, &ob_, 0);
    let r1 = rank_exec(&om_, &ob_, 1);
    let r2 = rank_exec(&om_, &ob_, 2);
    let r3 = rank_exec(&om_, &ob_, 3);
    assert(r0 == rank(n, 0) && r1 == rank(n, 1) && r2 == rank(n, 2) && r3 == rank(n, 3));
    // idx[r] is the attribute at position r of the ascending key order
    let mut idx = [0usize; 4];
    let mut r: usize = 0;
    while r < 4
        invariant
            r <= 4,
            r0 == rank(n, 0),
            r1 == rank(n, 1),
            r2 == rank(n, 2),
            r3 == rank(n, 3),
            forall|q: int| 0 <= q < r ==> idx@[q] == elem_with_rank(n, q),
            forall|q: int| 0 <= q < 4 ==> idx@[q] < 4,
        decreases 4 - r,
    {
        idx[r] = if r0 == r { 0 } else if r1 == r { 1 } else if r2 == r { 2 } else { 3 };
        r = r + 1;
    }
    let new_attribute_masks = [om_[idx[3]], om_[idx[2]], om_[idx[1]], om_[idx[0]]];
    let new_piece_to_place: u8 = ob_[idx[3]] | (ob_[idx[2]] << 1u8) | (ob_[idx[1]] << 2u8) | (ob_[idx[0]] << 3u8);
    let res = Node {
        board: Board { occupancy: node.board.occupancy, attribute_masks: new_attribute_masks },
        piece_to_place: new_piece_to_place,
    };
    assert(res.board.attribute_masks =~= relabel_spec(n).board.attribute_masks);
    res
}

/// Check if a node is canonical under attribute relabeling only.
pub fn is_node_canonical_under_attribute_relabeling_only(node: &Node) -> (r: bool)
    ensures
        r == is_relabel_canonical(*node),
{
    let mut i: usize = 0;
    while i < 4
        invariant
            i <= 4,
            forall|a: int, b: int| 0 <= a < i && a <= b < 4 ==> #[trigger] canon_pair_ok(*node, a, b),
        decreases 4 - i,
    {
        let attribute_mask_inverted = node.board.occupancy ^ node.board.attribute_masks[i];
        if attribute_mask_inverted < node.board.attribute_masks[i] {
            assert(!canon_pair_ok(*node, i as int, i as int));
            return false;
        }
        assert(canon_pair_ok(*node, i as int, i as int));
        let mut ii: usize = i + 1;
        while ii < 4
            invariant
                i < 4,
                i + 1 <= ii <= 4,
                !(((node.board.occupancy ^ node.board.attr(i as int)) as u16) < node.board.attr(i as int)),
                forall|b: int| i <= b < ii ==> #[trigger] canon_pair_ok(*node, i as int, b),
            decreases 4 - ii,
        {
            let ai = node.board.attribute_masks[i];
            let aii = node.board.attribute_masks[ii];
            if ai < aii {
                assert(!canon_pair_ok(*node, i as int, ii as int));
                return false;
            } else if ai == aii {
                if ((node.piece_to_place >> (ii as u8)) & 1u8) > ((node.piece_to_place >> (i as u8)) & 1u8) {
                    assert(!canon_pair_ok(*node, i as int, ii as int));
                    return false;
                }
            }
            ii = ii + 1;
        }
        i = i + 1;
    }
    true
}

} // verus!

verus! {

/// The key order on four entries is a strict total order, so ranks are a
/// permutation of 0..4 that lists the entries in ascending key order.
proof fn lemma_rank_order(ms: Seq<u16>, bs: Seq<u8>)
    requires
        ms.len() == 4,
        bs.len() == 4,
    ensures
        forall|j: int, l: int| 0 <= j < 4 && 0 <= l < 4 ==> (#[trigger] rank_seq(ms, bs, j) < #[trigger] rank_seq(ms, bs, l) <==> key_lt_seq(ms, bs, j, l)),
        forall|j: int| 0 <= j < 4 ==> 0 <= #[trigger] rank_seq(ms, bs, j) < 4,
{
    assert forall|j: int, l: int| 0 <= j < 4 && 0 <= l < 4 && key_lt_seq(ms, bs, j, l) implies #[trigger] rank_seq(ms, bs, j) < #[trigger] rank_seq(ms, bs, l) by {
        assert(forall|x: int| 0 <= x < 4 && key_lt_seq(ms, bs, x, j) ==> key_lt_seq(ms, bs, x, l));
        assert(!key_lt_seq(ms, bs, j, j));
    }
    assert forall|j: int, l: int| 0 <= j < 4 && 0 <= l < 4 && !key_lt_seq(ms, bs, j, l) implies !(#[trigger] rank_seq(ms, bs, j) < #[trigger] rank_seq(ms, bs, l)) by {
        if j != l {
            assert(key_lt_seq(ms, bs, l, j));
            assert(forall|x: int| 0 <= x < 4 && key_lt_seq(ms, bs, x, l) ==> key_lt_seq(ms, bs, x, j));
            assert(!key_lt_seq(ms, bs, l, l));
        }
    }
}

proof fn lemma_pack_bits(b3: u8, b2: u8, b1: u8, b0: u8)
    by (bit_vector)
    requires
        b3 <= 1,
        b2 <= 1,
        b1 <= 1,
        b0 <= 1,
    ensures
        (((b3 | (b2 << 1u8) | (b1 << 2u8) | (b0 << 3u8)) as u8 >> 0u8) & 1u8) == b3,
        (((b3 | (b2 << 1u8) | (b1 << 2u8) | (b0 << 3u8)) as u8 >> 1u8) & 1u8) == b2,
        (((b3 | (b2 << 1u8) | (b1 << 2u8) | (b0 << 3u8)) as u8 >> 2u8) & 1u8) == b1,
        (((b3 | (b2 << 1u8) | (b1 << 2u8) | (b0 << 3u8)) as u8 >> 3u8) & 1u8) == b0,
        ((b3 | (b2 << 1u8) | (b1 << 2u8) | (b0 << 3u8)) as u8) < 16u8,
{
}

proof fn lemma_orient_bv(p: u8, jj: u8, a: u16, occ: u16)
    by (bit_vector)
    ensures
        ((p >> jj) & 1u8) <= 1u8,
        (((p >> jj) & 1u8) ^ 1u8) <= 1u8,
        a & !occ == 0 ==> (occ ^ ((occ ^ a) as u16)) as u16 == a,
{
}

proof fn lemma_oriented(node: Node, j: int)
    requires
        masks_within_occupancy(node.board),
        0 <= j < 4,
    ensures
        ob(node, j) <= 1,
        !(((node.board.occupancy ^ om(node, j)) as u16) < om(node, j)),
{
    let occ = node.board.occupancy;
    let p = node.piece_to_place;
    let a = node.board.attr(j);
    let jj = j as u8;
    lemma_orient_bv(p, jj, a, occ);
}

proof fn lemma_elem_rank(node: Node)
    ensures
        forall|r: int| 0 <= r < 4 ==> rank(node, #[trigger] elem_with_rank(node, r)) == r && 0 <= elem_with_rank(node, r) < 4,
        forall|j: int, l: int| 0 <= j < 4 && 0 <= l < 4 ==> (#[trigger] rank(node, j) < #[trigger] rank(node, l) <==> key_lt(node, j, l)),
{
    lemma_rank_order(oms(node), obs(node));
    assert(rank(node, 0) != rank(node, 1) && rank(node, 0) != rank(node, 2) && rank(node, 0) != rank(node, 3));
    assert(rank(node, 1) != rank(node, 2) && rank(node, 1) != rank(node, 3) && rank(node, 2) != rank(node, 3));
    assert(0 <= rank(node, 0) < 4 && 0 <= rank(node, 1) < 4 && 0 <= rank(node, 2) < 4 && 0 <= rank(node, 3) < 4);
}

/// Relabeling a node whose attribute masks lie within its occupancy gives a
/// node that is canonical under attribute relabeling.
#[verifier::spinoff_prover]
#[verifier::rlimit(40)]
pub proof fn lemma_relabel_is_canonical(node: Node)
    requires
        masks_within_occupancy(node.board),
    ensures
        is_relabel_canonical(relabel_spec(node)),
{
    lemma_elem_rank(node);
    let r = relabel_spec(node);
    let e3 = elem_with_rank(node, 3);
    let e2 = elem_with_rank(node, 2);
    let e1 = elem_with_rank(node, 1);
    let e0 = elem_with_rank(node, 0);
    lemma_oriented(node, e3);
    lemma_oriented(node, e2);
    lemma_oriented(node, e1);
    lemma_oriented(node, e0);
    lemma_pack_bits(ob(node, e3), ob(node, e2), ob(node, e1), ob(node, e0));
    assert(piece_bit(r, 0) == ob(node, e3) && piece_bit(r, 1) == ob(node, e2) && piece_bit(r, 2) == ob(node, e1) && piece_bit(r, 3) == ob(node, e0));
    assert forall|i: int, ii: int| 0 <= i < 4 && i <= ii < 4 implies #[trigger] canon_pair_ok(r, i, ii) by {
        let a = elem_with_rank(node, 3 - i);
        let b = elem_with_rank(node, 3 - ii);
        assert(r.board.attr(i) == om(node, a));
        assert(r.board.attr(ii) == om(node, b));
        assert(piece_bit(r, i) == ob(node, a));
        assert(piece_bit(r, ii) == ob(node, b));
        assert(rank(node, a) == 3 - i);
        assert(rank(node, b) == 3 - ii);
        if i < ii {
            assert(key_lt(node, b, a));
        }
    }
}

} // verus!

verus! {

/// The node under board symmetry `t`, then relabeled.
pub open spec fn candidate(node: Node, t: Transformation) -> Node {
    relabel_spec(Node { board: apply_spec(node.board, t), piece_to_place: node.piece_to_place })
}

/// One relabeled image for each symmetry that minimizes the occupancy.
pub open spec fn candidates(node: Node) -> Seq<Node> {
    canonical_transformations_spec(node.board.occupancy).map_values(|t: Transformation| candidate(node, t))
}

/// The full canonical form of a non-trivial node: the least of the node
/// itself and its candidates.
pub open spec fn is_least_candidate(node: Node, r: Node) -> bool {
    &&& (r == node || candidates(node).contains(r))
    &&& !node.lt_spec(r)
    &&& forall|k: int| 0 <= k < candidates(node).len() ==> !(#[trigger] candidates(node)[k]).lt_spec(r)
}

/// Two least candidates are the same node.
proof fn lemma_least_unique(node: Node, a: Node, b: Node)
    requires
        is_least_candidate(node, a),
        is_least_candidate(node, b),
    ensures
        a == b,
{
    crate::node::lemma_node_lt_order(a, b, a);
    if a != b {
        if a.lt_spec(b) {
            if b == node {
            } else {
                let k = choose|k: int| 0 <= k < candidates(node).len() && candidates(node)[k] == b;
                assert(!candidates(node)[k].lt_spec(a));
            }
        } else {
            if a == node {
            } else {
                let k = choose|k: int| 0 <= k < candidates(node).len() && candidates(node)[k] == a;
                assert(!candidates(node)[k].lt_spec(b));
            }
        }
    }
}

/// The canonical form of a node: the root stays the root, an empty board
/// becomes piece 0 on the empty board, and any other node becomes the least
/// of itself and its candidates.
pub open spec fn canonical_spec(node: Node) -> Node {
    if node == depth_0_sentinel_spec() {
        depth_0_sentinel_spec()
    } else if node.board.occupancy == 0 {
        depth_1_canonical_spec()
    } else {
        choose|r: Node| is_least_candidate(node, r)
    }
}

/// Full node canonicalization (both board transformations and attribute relabeling).
pub fn canonicalize(node: &Node) -> (r: Node)
    ensures
        r == canonical_spec(*node),
        *node == depth_0_sentinel_spec() ==> r == depth_0_sentinel_spec(),
        *node != depth_0_sentinel_spec() && node.board.occupancy == 0 ==> r == depth_1_canonical_spec(),
        *node != depth_0_sentinel_spec() && node.board.occupancy != 0 ==> is_least_candidate(*node, r),
{
    let sentinel = depth_0_sentinel();
    if node.equals(&sentinel) {
        return sentinel;
    }
    if node.board.occupancy == 0 {
        return depth_1_canonical();
    }
    let transformations = canonical_transformations(node.board.occupancy);
    let ghost cands = candidates(*node);
    let mut best_node = *node;
    let mut k: usize = 0;
    proof {
        crate::node::lemma_node_lt_order(*node, *node, *node);
    }
    while k < transformations.len()
        invariant
            k <= transformations.len(),
            transformations@ == canonical_transformations_spec(node.board.occupancy),
            cands == candidates(*node),
            cands.len() == transformations@.len(),
            best_node == *node || cands.contains(best_node),
            !node.lt_spec(best_node),
            forall|j: int| 0 <= j < k ==> !(#[trigger] cands[j]).lt_spec(best_node),
        decreases transformations.len() - k,
    {
        let t = transformations[k];
        let transformed_board = apply(&node.board, t);
        let transformed_node = Node { board: transformed_board, piece_to_place: node.piece_to_place };
        let canonical_candidate = apply_attribute_relabeling(&transformed_node);
        assert(cands[k as int] == canonical_candidate);
        if canonical_candidate.less_than(&best_node) {
            proof {
                crate::node::lemma_node_lt_order(canonical_candidate, best_node, *node);
                crate::node::lemma_node_lt_order(*node, canonical_candidate, best_node);
                assert forall|j: int| 0 <= j < k + 1 implies !(#[trigger] cands[j]).lt_spec(canonical_candidate) by {
                    crate::node::lemma_node_lt_order(cands[j], canonical_candidate, best_node);
                    crate::node::lemma_node_lt_order(canonical_candidate, best_node, cands[j]);
                    crate::node::lemma_node_lt_order(cands[j], best_node, canonical_candidate);
                }
                assert(cands.contains(canonical_candidate));
            }
            best_node = canonical_candidate;
        } else {
            proof {
                crate::node::lemma_node_lt_order(canonical_candidate, best_node, canonical_candidate);
            }
        }
        k = k + 1;
    }
    proof {
        assert(is_least_candidate(*node, best_node));
        let c = choose|r: Node| is_least_candidate(*node, r);
        lemma_least_unique(*node, c, best_node);
    }
    best_node
}

} // verus!

verus! {

/// The least candidate of a position whose piece is a piece id (below 16)
/// also hands over a piece id, so it is not the root.
pub proof fn lemma_least_candidate_piece(node: Node, r: Node)
    requires
        is_least_candidate(node, r),
        node.piece_to_place < 16,
    ensures
        r.piece_to_place < 16,
        r != depth_0_sentinel_spec(),
{
    if r != node {
        let k = choose|k: int| 0 <= k < candidates(node).len() && candidates(node)[k] == r;
        let t = canonical_transformations_spec(node.board.occupancy)[k];
        let m = Node { board: apply_spec(node.board, t), piece_to_place: node.piece_to_place };
        let e3 = elem_with_rank(m, 3);
        let e2 = elem_with_rank(m, 2);
        let e1 = elem_with_rank(m, 1);
        let e0 = elem_with_rank(m, 0);
        lemma_orient_bv(m.piece_to_place, e3 as u8, m.board.attr(e3), m.board.occupancy);
        lemma_orient_bv(m.piece_to_place, e2 as u8, m.board.attr(e2), m.board.occupancy);
        lemma_orient_bv(m.piece_to_place, e1 as u8, m.board.attr(e1), m.board.occupancy);
        lemma_orient_bv(m.piece_to_place, e0 as u8, m.board.attr(e0), m.board.occupancy);
        lemma_pack_bits(ob(m, e3), ob(m, e2), ob(m, e1), ob(m, e0));
        assert(r == relabel_spec(m));
    }
}

} // verus!

verus! {

proof fn lemma_unpack_bits(p: u8)
    by (bit_vector)
    requires
        p < 16,
    ensures
        p == (((p >> 0u8) & 1u8) | (((p >> 1u8) & 1u8) << 1u8) | (((p >> 2u8) & 1u8) << 2u8) | (((p >> 3u8) & 1u8) << 3u8)) as u8,
        (p >> 0u8) & 1u8 <= 1u8,
        (p >> 1u8) & 1u8 <= 1u8,
        (p >> 2u8) & 1u8 <= 1u8,
        (p >> 3u8) & 1u8 <= 1u8,
{
}

/// A node canonical under attribute relabeling is its own relabeling: being
/// canonical is being a fixed point of relabeling.
#[verifier::spinoff_prover]
#[verifier::rlimit(40)]
pub proof fn lemma_relabel_fixed_point(node: Node)
    requires
        is_relabel_canonical(node),
        node.piece_to_place < 16,
    ensures
        relabel_spec(node) == node,
{
    lemma_elem_rank(node);
    lemma_unpack_bits(node.piece_to_place);
    assert(canon_pair_ok(node, 0, 0) && canon_pair_ok(node, 1, 1) && canon_pair_ok(node, 2, 2) && canon_pair_ok(node, 3, 3));
    assert(canon_pair_ok(node, 0, 1) && canon_pair_ok(node, 0, 2) && canon_pair_ok(node, 0, 3));
    assert(canon_pair_ok(node, 1, 2) && canon_pair_ok(node, 1, 3) && canon_pair_ok(node, 2, 3));
    assert(om(node, 0) == node.board.attr(0) && om(node, 1) == node.board.attr(1));
    assert(om(node, 2) == node.board.attr(2) && om(node, 3) == node.board.attr(3));
    assert(ob(node, 0) == piece_bit(node, 0) && ob(node, 1) == piece_bit(node, 1));
    assert(ob(node, 2) == piece_bit(node, 2) && ob(node, 3) == piece_bit(node, 3));
    let r = relabel_spec(node);
    assert(r.board.attribute_masks =~= node.board.attribute_masks);
}

/// Relabeling twice is relabeling once.
pub proof fn lemma_relabel_idempotent(node: Node)
    requires
        crate::place::masks_within_occupancy(node.board),
    ensures
        relabel_spec(relabel_spec(node)) == relabel_spec(node),
{
    lemma_relabel_is_canonical(node);
    let r = relabel_spec(node);
    lemma_elem_rank(node);
    let e3 = elem_with_rank(node, 3);
    let e2 = elem_with_rank(node, 2);
    let e1 = elem_with_rank(node, 1);
    let e0 = elem_with_rank(node, 0);
    lemma_oriented(node, e3);
    lemma_oriented(node, e2);
    lemma_oriented(node, e1);
    lemma_oriented(node, e0);
    lemma_pack_bits(ob(node, e3), ob(node, e2), ob(node, e1), ob(node, e0));
    lemma_relabel_fixed_point(r);
}

} // verus!

verus! {

/// `(a0, a1, a2, a3)` is at most `(b0, b1, b2, b3)` in lexicographic order.
pub open spec fn lex_le4(a0: int, a1: int, a2: int, a3: int, b0: int, b1: int, b2: int, b3: int) -> bool {
    a0 < b0 || (a0 == b0 && (a1 < b1 || (a1 == b1 && (a2 < b2 || (a2 == b2 && a3 <= b3)))))
}

/// Four values listed in ascending order come lexicographically first among
/// their orderings, so at most any pointwise larger values listed from index
/// 3 down; equality there forces the values to equal the larger ones.
#[verifier::spinoff_prover]
#[verifier::rlimit(60)]
proof fn lemma_sorted_lex_min(c: Seq<int>, d: Seq<int>, e0: int, e1: int, e2: int, e3: int)
    requires
        c.len() == 4,
        d.len() == 4,
        0 <= e0 < 4 && 0 <= e1 < 4 && 0 <= e2 < 4 && 0 <= e3 < 4,
        e0 != e1 && e0 != e2 && e0 != e3 && e1 != e2 && e1 != e3 && e2 != e3,
        c[e0] <= c[e1] <= c[e2] <= c[e3],
        forall|i: int| 0 <= i < 4 ==> c[i] <= #[trigger] d[i],
    ensures
        lex_le4(c[e0], c[e1], c[e2], c[e3], d[3], d[2], d[1], d[0]),
        (c[e0] == d[3] && c[e1] == d[2] && c[e2] == d[1] && c[e3] == d[0]) ==> (c[0] == d[0] && c[1] == d[1] && c[2] == d[2] && c[3] == d[3]),
{
    assert(c[0] <= d[0] && c[1] <= d[1] && c[2] <= d[2] && c[3] <= d[3]);
    assert(e0 + e1 + e2 + e3 == 6);
}

proof fn lemma_pack_value(b3: u8, b2: u8, b1: u8, b0: u8, p: u8)
    by (bit_vector)
    requires
        b3 <= 1,
        b2 <= 1,
        b1 <= 1,
        b0 <= 1,
    ensures
        ((b3 | (b2 << 1u8) | (b1 << 2u8) | (b0 << 3u8)) as u8) as int == b3 + 2 * b2 + 4 * b1 + 8 * b0,
        p < 16 ==> p as int == ((p >> 0u8) & 1u8) + 2 * ((p >> 1u8) & 1u8) + 4 * ((p >> 2u8) & 1u8) + 8 * ((p >> 3u8) & 1u8),
{
}

/// Orienting an attribute never enlarges its mask, and a mask it keeps keeps
/// the piece's bit.
proof fn lemma_orient_le(node: Node, j: int)
    requires
        0 <= j < 4,
    ensures
        om(node, j) <= node.board.attr(j),
        ob(node, j) <= 1,
        piece_bit(node, j) <= 1,
        om(node, j) == node.board.attr(j) ==> ob(node, j) == piece_bit(node, j),
{
    lemma_orient_bv(node.piece_to_place, j as u8, node.board.attr(j), node.board.occupancy);
}

/// Attribute relabeling never makes a node larger: the relabeled node is at
/// most the node in the node order.
#[verifier::spinoff_prover]
#[verifier::rlimit(60)]
pub proof fn lemma_relabel_at_most(node: Node)
    ensures
        !node.lt_spec(relabel_spec(node)),
{
    let r = relabel_spec(node);
    lemma_elem_rank(node);
    let e0 = elem_with_rank(node, 0);
    let e1 = elem_with_rank(node, 1);
    let e2 = elem_with_rank(node, 2);
    let e3 = elem_with_rank(node, 3);
    lemma_orient_le(node, 0);
    lemma_orient_le(node, 1);
    lemma_orient_le(node, 2);
    lemma_orient_le(node, 3);
    assert(key_lt(node, e0, e1) && key_lt(node, e1, e2) && key_lt(node, e2, e3));
    let c = seq![om(node, 0) as int, om(node, 1) as int, om(node, 2) as int, om(node, 3) as int];
    let d = seq![node.board.attr(0) as int, node.board.attr(1) as int, node.board.attr(2) as int, node.board.attr(3) as int];
    assert(om(node, e0) == c[e0] && om(node, e1) == c[e1] && om(node, e2) == c[e2] && om(node, e3) == c[e3]);
    lemma_sorted_lex_min(c, d, e0, e1, e2, e3);
    assert(r.board.occupancy == node.board.occupancy);
    assert(r.board.attr(3) == om(node, e0) && r.board.attr(2) == om(node, e1) && r.board.attr(1) == om(node, e2) && r.board.attr(0) == om(node, e3));
    if om(node, e0) == node.board.attr(3) && om(node, e1) == node.board.attr(2) && om(node, e2) == node.board.attr(1)
        && om(node, e3) == node.board.attr(0) {
        assert(r.board.attribute_masks =~= node.board.attribute_masks);
        let k = seq![
            2 * om(node, 0) + ob(node, 0),
            2 * om(node, 1) + ob(node, 1),
            2 * om(node, 2) + ob(node, 2),
            2 * om(node, 3) + ob(node, 3),
        ];
        assert(k[e0] == 2 * om(node, e0) + ob(node, e0));
        assert(k[e1] == 2 * om(node, e1) + ob(node, e1));
        assert(k[e2] == 2 * om(node, e2) + ob(node, e2));
        assert(k[e3] == 2 * om(node, e3) + ob(node, e3));
        lemma_sorted_lex_min(k, k, e0, e1, e2, e3);
        lemma_pack_value(ob(node, e3), ob(node, e2), ob(node, e1), ob(node, e0), node.piece_to_place);
        lemma_pack_bits(ob(node, e3), ob(node, e2), ob(node, e1), ob(node, e0));
    }
}

/// `perm` lists each of the four attributes once.
pub open spec fn is_perm4(perm: Seq<int>) -> bool {
    &&& perm.len() == 4
    &&& forall|k: int| 0 <= k < 4 ==> 0 <= #[trigger] perm[k] < 4
    &&& forall|k: int, l: int| 0 <= k < l < 4 ==> #[trigger] perm[k] != #[trigger] perm[l]
}

/// Attribute mask `i`, complemented within the occupancy when `flips[i]`.
pub open spec fn flipped_mask(node: Node, flips: Seq<bool>, i: int) -> u16 {
    if flips[i] {
        (node.board.occupancy ^ node.board.attr(i)) as u16
    } else {
        node.board.attr(i)
    }
}

/// Bit `i` of the piece to place, flipped when `flips[i]`.
pub open spec fn flipped_bit(node: Node, flips: Seq<bool>, i: int) -> u8 {
    if flips[i] {
        (piece_bit(node, i) ^ 1u8) as u8
    } else {
        piece_bit(node, i)
    }
}

/// The node under an attribute relabeling: attribute `i` complemented within
/// the occupancy where `flips[i]` (its piece bit flipped along), then the
/// attributes reordered so that new attribute `k` is old attribute `perm[k]`.
pub open spec fn relabel_by(node: Node, perm: Seq<int>, flips: Seq<bool>) -> Node {
    Node {
        board: Board {
            occupancy: node.board.occupancy,
            attribute_masks: [
                flipped_mask(node, flips, perm[0]),
                flipped_mask(node, flips, perm[1]),
                flipped_mask(node, flips, perm[2]),
                flipped_mask(node, flips, perm[3]),
            ],
        },
        piece_to_place: (flipped_bit(node, flips, perm[0]) | (flipped_bit(node, flips, perm[1]) << 1u8)
            | (flipped_bit(node, flips, perm[2]) << 2u8) | (flipped_bit(node, flips, perm[3]) << 3u8)) as u8,
    }
}

/// The relabeled node lies in the node's relabeling orbit: it is the node
/// under one permutation of the attributes together with complementing some
/// of them within the occupancy, applied to the masks and the piece's bits alike.
pub proof fn lemma_relabel_in_orbit(node: Node)
    ensures
        exists|perm: Seq<int>, flips: Seq<bool>|
            is_perm4(perm) && flips.len() == 4 && relabel_spec(node) == #[trigger] relabel_by(node, perm, flips),
{
    lemma_elem_rank(node);
    let e0 = elem_with_rank(node, 0);
    let e1 = elem_with_rank(node, 1);
    let e2 = elem_with_rank(node, 2);
    let e3 = elem_with_rank(node, 3);
    let perm = seq![e3, e2, e1, e0];
    let occ = node.board.occupancy;
    let flips = seq![
        ((occ ^ node.board.attr(0)) as u16) < node.board.attr(0),
        ((occ ^ node.board.attr(1)) as u16) < node.board.attr(1),
        ((occ ^ node.board.attr(2)) as u16) < node.board.attr(2),
        ((occ ^ node.board.attr(3)) as u16) < node.board.attr(3),
    ];
    assert(is_perm4(perm));
    assert forall|i: int| 0 <= i < 4 implies om(node, i) == #[trigger] flipped_mask(node, flips, i) && ob(node, i) == flipped_bit(node, flips, i) by {
    }
    let x = relabel_by(node, perm, flips);
    let r = relabel_spec(node);
    assert(om(node, e3) == flipped_mask(node, flips, perm[0]));
    assert(om(node, e2) == flipped_mask(node, flips, perm[1]));
    assert(om(node, e1) == flipped_mask(node, flips, perm[2]));
    assert(om(node, e0) == flipped_mask(node, flips, perm[3]));
    assert(ob(node, e3) == flipped_bit(node, flips, perm[0]));
    assert(ob(node, e2) == flipped_bit(node, flips, perm[1]));
    assert(ob(node, e1) == flipped_bit(node, flips, perm[2]));
    assert(ob(node, e0) == flipped_bit(node, flips, perm[3]));
    assert(r.board.attribute_masks =~= x.board.attribute_masks);
    assert(r == x);
}

} // verus!

verus! {

/// The node with its board under symmetry `g`.
pub open spec fn transformed(node: Node, g: Transformation) -> Node {
    Node { board: apply_spec(node.board, g), piece_to_place: node.piece_to_place }
}

proof fn lemma_listed(t: Transformation)
    ensures
        crate::transform::all_transformations_spec()[t.index_spec() as int] == t,
        t.index_spec() < 8,
{
}

/// A board and each of its images have the same smallest occupancy image.
proof fn lemma_min_image_invariant(occ: u16, g: Transformation)
    ensures
        crate::transform::min_image(crate::transform::apply_u16_spec(occ, g)) == crate::transform::min_image(occ),
{
    let o2 = crate::transform::apply_u16_spec(occ, g);
    let all = crate::transform::all_transformations_spec();
    crate::transform::lemma_min_image(occ);
    crate::transform::lemma_min_image(o2);
    let j0 = choose|j: int| 0 <= j < 8 && crate::transform::min_image(occ) == #[trigger] crate::transform::apply_u16_spec(occ, all[j]);
    let u = all[j0];
    let t = crate::transform::compose(g.inverse_spec(), u);
    crate::transform::lemma_compose_onto(g, u);
    crate::transform::lemma_apply_u16_compose(occ, g, t);
    lemma_listed(t);
    assert(crate::transform::min_image(o2) <= crate::transform::apply_u16_spec(o2, all[t.index_spec() as int]));
    let j1 = choose|j: int| 0 <= j < 8 && crate::transform::min_image(o2) == #[trigger] crate::transform::apply_u16_spec(o2, all[j]);
    let t1 = all[j1];
    crate::transform::lemma_apply_u16_compose(occ, g, t1);
    let c = crate::transform::compose(g, t1);
    lemma_listed(c);
    assert(crate::transform::min_image(occ) <= crate::transform::apply_u16_spec(occ, all[c.index_spec() as int]));
}

/// A candidate of a node is a candidate of each of its images.
proof fn lemma_candidate_moves(node: Node, g: Transformation, c: Node)
    requires
        candidates(node).contains(c),
    ensures
        candidates(transformed(node, g)).contains(c),
{
    broadcast use vstd::seq_lib::group_filter_ensures;
    let occ = node.board.occupancy;
    let n2 = transformed(node, g);
    let occ2 = n2.board.occupancy;
    let all = crate::transform::all_transformations_spec();
    let ts = canonical_transformations_spec(occ);
    let ts2 = canonical_transformations_spec(occ2);
    let k = choose|k: int| 0 <= k < candidates(node).len() && candidates(node)[k] == c;
    let u = ts[k];
    assert(crate::transform::apply_u16_spec(occ, u) == crate::transform::min_image(occ));
    let t = crate::transform::compose(g.inverse_spec(), u);
    crate::transform::lemma_compose_onto(g, u);
    crate::transform::lemma_apply_compose(node.board, g, t);
    crate::transform::lemma_apply_u16_compose(occ, g, t);
    lemma_min_image_invariant(occ, g);
    lemma_listed(t);
    assert(crate::transform::apply_u16_spec(occ2, t) == crate::transform::min_image(occ2));
    assert(ts2.contains(all[t.index_spec() as int]));
    let k2 = choose|k2: int| 0 <= k2 < ts2.len() && ts2[k2] == t;
    assert(candidates(n2)[k2] == candidate(n2, t));
    assert(candidate(n2, t) == c);
}

} // verus!

verus! {

/// A non-empty list of nodes has a least element.
proof fn lemma_least_exists(s: Seq<Node>)
    requires
        s.len() > 0,
    ensures
        exists|r: Node| s.contains(r) && forall|k: int| 0 <= k < s.len() ==> !(#[trigger] s[k]).lt_spec(r),
    decreases s.len(),
{
    if s.len() == 1 {
        crate::node::lemma_node_lt_order(s[0], s[0], s[0]);
        assert(s.contains(s[0]));
    } else {
        let t = s.drop_last();
        lemma_least_exists(t);
        let r = choose|r: Node| t.contains(r) && forall|k: int| 0 <= k < t.len() ==> !(#[trigger] t[k]).lt_spec(r);
        let x = s.last();
        let i = choose|i: int| 0 <= i < t.len() && t[i] == r;
        assert(s[i] == r);
        if x.lt_spec(r) {
            assert forall|k: int| 0 <= k < s.len() implies !(#[trigger] s[k]).lt_spec(x) by {
                crate::node::lemma_node_lt_order(s[k], x, r);
                crate::node::lemma_node_lt_order(x, r, x);
                if k < s.len() - 1 {
                    assert(s[k] == t[k]);
                    crate::node::lemma_node_lt_order(s[k], x, r);
                } else {
                    crate::node::lemma_node_lt_order(x, x, x);
                }
            }
            assert(s.contains(x));
        } else {
            assert forall|k: int| 0 <= k < s.len() implies !(#[trigger] s[k]).lt_spec(r) by {
                if k < s.len() - 1 {
                    assert(s[k] == t[k]);
                }
            }
            assert(s.contains(r));
        }
    }
}

/// The least of a node's candidates is its canonical form: it is at most the
/// node itself.
proof fn lemma_least_candidate_of(node: Node, r: Node)
    requires
        candidates(node).contains(r),
        forall|k: int| 0 <= k < candidates(node).len() ==> !(#[trigger] candidates(node)[k]).lt_spec(r),
    ensures
        is_least_candidate(node, r),
{
    broadcast use vstd::seq_lib::group_filter_ensures;
    let occ = node.board.occupancy;
    let all = crate::transform::all_transformations_spec();
    let ts = canonical_transformations_spec(occ);
    crate::transform::lemma_min_image(occ);
    crate::transform::lemma_apply_identity(node.board);
    assert(all[0] == Transformation::Identity);
    let k = choose|k: int| 0 <= k < candidates(node).len() && candidates(node)[k] == r;
    assert(r.board.occupancy == crate::transform::apply_u16_spec(occ, ts[k]));
    assert(r.board.occupancy == crate::transform::min_image(occ));
    if occ == crate::transform::min_image(occ) {
        assert(ts.contains(all[0]));
        let j = choose|j: int| 0 <= j < ts.len() && ts[j] == Transformation::Identity;
        assert(transformed(node, Transformation::Identity) == node);
        assert(candidates(node)[j] == relabel_spec(node));
        lemma_relabel_at_most(node);
        let q = relabel_spec(node);
        crate::node::lemma_node_lt_order(node, r, q);
        crate::node::lemma_node_lt_order(r, q, node);
        crate::node::lemma_node_lt_order(node, q, node);
        crate::node::lemma_node_lt_order(q, node, r);
    } else {
        assert(crate::transform::min_image(occ) <= crate::transform::apply_u16_spec(occ, all[0]));
        assert(r.lt_spec(node));
        crate::node::lemma_node_lt_order(r, node, r);
    }
}

/// Canonicalization does not see the board's symmetries: a position and each
/// of its images under the eight symmetries of the square have the same
/// canonical form (the root and the empty board have fixed forms of their own).
#[verifier::spinoff_prover]
#[verifier::rlimit(40)]
pub proof fn lemma_canonical_symmetric(node: Node, g: Transformation)
    requires
        node != depth_0_sentinel_spec(),
        node.board.occupancy != 0,
    ensures
        canonical_spec(transformed(node, g)) == canonical_spec(node),
{
    broadcast use vstd::seq_lib::group_filter_ensures;
    let n2 = transformed(node, g);
    let gi = g.inverse_spec();
    let occ = node.board.occupancy;
    crate::transform::lemma_apply_inverse(node.board, g);
    crate::transform::lemma_apply_empty_full(gi);
    assert(transformed(n2, gi) == node);
    assert(n2.board.occupancy != 0);
    if n2 == depth_0_sentinel_spec() {
        assert(node.board.attribute_masks =~= depth_0_sentinel_spec().board.attribute_masks);
        assert(false);
    }
    // the node has candidates: a symmetry reaching the smallest occupancy
    crate::transform::lemma_min_image(occ);
    let all = crate::transform::all_transformations_spec();
    let j = choose|j: int| 0 <= j < 8 && crate::transform::min_image(occ) == #[trigger] crate::transform::apply_u16_spec(occ, all[j]);
    assert(canonical_transformations_spec(occ).contains(all[j]));
    lemma_least_exists(candidates(node));
    let r = choose|r: Node| candidates(node).contains(r) && forall|k: int| 0 <= k < candidates(node).len() ==> !(#[trigger] candidates(node)[k]).lt_spec(r);
    lemma_least_candidate_of(node, r);
    lemma_candidate_moves(node, g, r);
    assert forall|k: int| 0 <= k < candidates(n2).len() implies !(#[trigger] candidates(n2)[k]).lt_spec(r) by {
        let c = candidates(n2)[k];
        assert(candidates(n2).contains(c));
        lemma_candidate_moves(n2, gi, c);
        let i = choose|i: int| 0 <= i < candidates(node).len() && candidates(node)[i] == c;
    }
    lemma_least_candidate_of(n2, r);
    let c1 = choose|x: Node| is_least_candidate(node, x);
    let c2 = choose|x: Node| is_least_candidate(n2, x);
    lemma_least_unique(node, c1, r);
    lemma_least_unique(n2, c2, r);
}

} // verus!

verus! {

/// Value `i` of four.
spec fn pick4(v0: int, v1: int, v2: int, v3: int, i: int) -> int {
    if i == 0 { v0 } else if i == 1 { v1 } else if i == 2 { v2 } else { v3 }
}

/// Rearranging four ascending values keeps them ascending only when each
/// lands on an equal value.
#[verifier::spinoff_prover]
#[verifier::rlimit(60)]
proof fn lemma_sorted_perm_eq(v0: int, v1: int, v2: int, v3: int, p0: int, p1: int, p2: int, p3: int)
    requires
        v0 <= v1 <= v2 <= v3,
        0 <= p0 < 4 && 0 <= p1 < 4 && 0 <= p2 < 4 && 0 <= p3 < 4,
        p0 != p1 && p0 != p2 && p0 != p3 && p1 != p2 && p1 != p3 && p2 != p3,
        pick4(v0, v1, v2, v3, p0) <= pick4(v0, v1, v2, v3, p1) <= pick4(v0, v1, v2, v3, p2) <= pick4(v0, v1, v2, v3, p3),
    ensures
        pick4(v0, v1, v2, v3, p0) == v0,
        pick4(v0, v1, v2, v3, p1) == v1,
        pick4(v0, v1, v2, v3, p2) == v2,
        pick4(v0, v1, v2, v3, p3) == v3,
{
    assert(p0 + p1 + p2 + p3 == 6);
}

/// Two ascending arrangements of the same four values list the same values.
proof fn lemma_sorted_unique(c: Seq<int>, e0: int, e1: int, e2: int, e3: int, f0: int, f1: int, f2: int, f3: int)
    requires
        c.len() == 4,
        0 <= e0 < 4 && 0 <= e1 < 4 && 0 <= e2 < 4 && 0 <= e3 < 4,
        e0 != e1 && e0 != e2 && e0 != e3 && e1 != e2 && e1 != e3 && e2 != e3,
        0 <= f0 < 4 && 0 <= f1 < 4 && 0 <= f2 < 4 && 0 <= f3 < 4,
        f0 != f1 && f0 != f2 && f0 != f3 && f1 != f2 && f1 != f3 && f2 != f3,
        c[e0] <= c[e1] <= c[e2] <= c[e3],
        c[f0] <= c[f1] <= c[f2] <= c[f3],
    ensures
        c[e0] == c[f0] && c[e1] == c[f1] && c[e2] == c[f2] && c[e3] == c[f3],
{
    let pos = |x: int| if e0 == x { 0int } else if e1 == x { 1int } else if e2 == x { 2int } else { 3int };
    assert(e0 + e1 + e2 + e3 == 6);
    let p0 = pos(f0);
    let p1 = pos(f1);
    let p2 = pos(f2);
    let p3 = pos(f3);
    assert(pick4(c[e0], c[e1], c[e2], c[e3], p0) == c[f0]);
    assert(pick4(c[e0], c[e1], c[e2], c[e3], p1) == c[f1]);
    assert(pick4(c[e0], c[e1], c[e2], c[e3], p2) == c[f2]);
    assert(pick4(c[e0], c[e1], c[e2], c[e3], p3) == c[f3]);
    lemma_sorted_perm_eq(c[e0], c[e1], c[e2], c[e3], p0, p1, p2, p3);
}

} // verus!

verus! {

proof fn lemma_flip_bv(occ: u16, a: u16, b: u8)
    by (bit_vector)
    ensures
        a & !occ == 0 ==> (occ ^ ((occ ^ a) as u16)) as u16 == a,
        occ != 0 && a & !occ == 0 ==> (occ ^ a) as u16 != a,
        b <= 1 ==> ((b ^ 1u8) ^ 1u8) as u8 == b && (b ^ 1u8) as u8 <= 1,
{
}

/// The sort key of oriented attribute `i`: its mask, then its piece bit.
spec fn okey(node: Node, i: int) -> int {
    2 * om(node, i) + ob(node, i)
}

/// Orienting a relabeled attribute gives the orientation of the attribute it
/// came from: complementing within the occupancy is undone by orienting.
proof fn lemma_orient_relabeled(z: Node, perm: Seq<int>, flips: Seq<bool>, k: int)
    requires
        masks_within_occupancy(z.board),
        z.board.occupancy != 0,
        is_perm4(perm),
        flips.len() == 4,
        0 <= k < 4,
    ensures
        om(relabel_by(z, perm, flips), k) == om(z, perm[k]),
        ob(relabel_by(z, perm, flips), k) == ob(z, perm[k]),
{
    let w = relabel_by(z, perm, flips);
    let i = perm[k];
    let occ = z.board.occupancy;
    let a = z.board.attr(i);
    assert(0 <= i < 4);
    lemma_orient_bv(z.piece_to_place, 0, z.board.attr(0), occ);
    lemma_orient_bv(z.piece_to_place, 1, z.board.attr(1), occ);
    lemma_orient_bv(z.piece_to_place, 2, z.board.attr(2), occ);
    lemma_orient_bv(z.piece_to_place, 3, z.board.attr(3), occ);
    assert(z.board.attr(i) & !occ == 0) by {
        assert(masks_within_occupancy(z.board));
    }
    lemma_flip_bv(occ, a, piece_bit(z, i));
    lemma_flip_bv(occ, a, 0);
    lemma_pack_bits(flipped_bit(z, flips, perm[0]), flipped_bit(z, flips, perm[1]), flipped_bit(z, flips, perm[2]), flipped_bit(z, flips, perm[3]));
    assert(piece_bit(w, k) == flipped_bit(z, flips, i));
    assert(w.board.attr(k) == flipped_mask(z, flips, i));
}

} // verus!

verus! {

/// The attributes in rank order have ascending sort keys.
proof fn lemma_sorted_keys(n: Node)
    ensures
        ({
            let e0 = elem_with_rank(n, 0);
            let e1 = elem_with_rank(n, 1);
            let e2 = elem_with_rank(n, 2);
            let e3 = elem_with_rank(n, 3);
            &&& 0 <= e0 < 4 && 0 <= e1 < 4 && 0 <= e2 < 4 && 0 <= e3 < 4
            &&& e0 != e1 && e0 != e2 && e0 != e3 && e1 != e2 && e1 != e3 && e2 != e3
            &&& okey(n, e0) <= okey(n, e1) <= okey(n, e2) <= okey(n, e3)
        }),
        ob(n, 0) <= 1 && ob(n, 1) <= 1 && ob(n, 2) <= 1 && ob(n, 3) <= 1,
{
    lemma_elem_rank(n);
    lemma_orient_le(n, 0);
    lemma_orient_le(n, 1);
    lemma_orient_le(n, 2);
    lemma_orient_le(n, 3);
    let e0 = elem_with_rank(n, 0);
    let e1 = elem_with_rank(n, 1);
    let e2 = elem_with_rank(n, 2);
    let e3 = elem_with_rank(n, 3);
    assert(key_lt(n, e0, e1) && key_lt(n, e1, e2) && key_lt(n, e2, e3));
}

/// Two nodes on one occupancy whose oriented attributes agree in rank order
/// relabel to the same node.
proof fn lemma_relabel_eq_from_sorted(z: Node, w: Node)
    requires
        z.board.occupancy == w.board.occupancy,
        om(z, elem_with_rank(z, 0)) == om(w, elem_with_rank(w, 0)) && ob(z, elem_with_rank(z, 0)) == ob(w, elem_with_rank(w, 0)),
        om(z, elem_with_rank(z, 1)) == om(w, elem_with_rank(w, 1)) && ob(z, elem_with_rank(z, 1)) == ob(w, elem_with_rank(w, 1)),
        om(z, elem_with_rank(z, 2)) == om(w, elem_with_rank(w, 2)) && ob(z, elem_with_rank(z, 2)) == ob(w, elem_with_rank(w, 2)),
        om(z, elem_with_rank(z, 3)) == om(w, elem_with_rank(w, 3)) && ob(z, elem_with_rank(z, 3)) == ob(w, elem_with_rank(w, 3)),
    ensures
        relabel_spec(w) == relabel_spec(z),
{
    assert(relabel_spec(w).board.attribute_masks =~= relabel_spec(z).board.attribute_masks);
}

/// The sort keys of a relabeled node are those of the attributes it came from.
proof fn lemma_keys_relabeled(z: Node, perm: Seq<int>, flips: Seq<bool>)
    requires
        masks_within_occupancy(z.board),
        z.board.occupancy != 0,
        is_perm4(perm),
        flips.len() == 4,
    ensures
        forall|k: int| 0 <= k < 4 ==> #[trigger] okey(relabel_by(z, perm, flips), k) == okey(z, perm[k]),
{
    lemma_orient_relabeled(z, perm, flips, 0);
    lemma_orient_relabeled(z, perm, flips, 1);
    lemma_orient_relabeled(z, perm, flips, 2);
    lemma_orient_relabeled(z, perm, flips, 3);
}

/// Equal sort keys are equal oriented masks and piece bits.
proof fn lemma_okey_split(z: Node, i: int, w: Node, j: int)
    requires
        okey(z, i) == okey(w, j),
        ob(z, i) <= 1,
        ob(w, j) <= 1,
    ensures
        om(z, i) == om(w, j),
        ob(z, i) == ob(w, j),
{
}

/// Relabeling sees only the orbit: a node under any attribute relabeling
/// relabels to the same node as the node itself (for a non-empty board whose
/// attribute masks lie within its occupancy).
#[verifier::spinoff_prover]
#[verifier::rlimit(60)]
pub proof fn lemma_relabel_orbit_invariant(z: Node, perm: Seq<int>, flips: Seq<bool>)
    requires
        masks_within_occupancy(z.board),
        z.board.occupancy != 0,
        is_perm4(perm),
        flips.len() == 4,
    ensures
        relabel_spec(relabel_by(z, perm, flips)) == relabel_spec(z),
{
    let w = relabel_by(z, perm, flips);
    lemma_keys_relabeled(z, perm, flips);
    lemma_sorted_keys(z);
    lemma_sorted_keys(w);
    let e0 = elem_with_rank(z, 0);
    let e1 = elem_with_rank(z, 1);
    let e2 = elem_with_rank(z, 2);
    let e3 = elem_with_rank(z, 3);
    let f0 = elem_with_rank(w, 0);
    let f1 = elem_with_rank(w, 1);
    let f2 = elem_with_rank(w, 2);
    let f3 = elem_with_rank(w, 3);
    assert(0 <= perm[0] < 4 && 0 <= perm[1] < 4 && 0 <= perm[2] < 4 && 0 <= perm[3] < 4);
    assert(perm[0] != perm[1] && perm[0] != perm[2] && perm[0] != perm[3] && perm[1] != perm[2] && perm[1] != perm[3] && perm[2] != perm[3]);
    let g0 = perm[f0];
    let g1 = perm[f1];
    let g2 = perm[f2];
    let g3 = perm[f3];
    assert(okey(w, f0) == okey(z, g0) && okey(w, f1) == okey(z, g1) && okey(w, f2) == okey(z, g2) && okey(w, f3) == okey(z, g3));
    let c = seq![okey(z, 0), okey(z, 1), okey(z, 2), okey(z, 3)];
    assert(c[e0] == okey(z, e0) && c[e1] == okey(z, e1) && c[e2] == okey(z, e2) && c[e3] == okey(z, e3));
    assert(c[g0] == okey(z, g0) && c[g1] == okey(z, g1) && c[g2] == okey(z, g2) && c[g3] == okey(z, g3));
    lemma_sorted_unique(c, e0, e1, e2, e3, g0, g1, g2, g3);
    lemma_okey_split(z, e0, w, f0);
    lemma_okey_split(z, e1, w, f1);
    lemma_okey_split(z, e2, w, f2);
    lemma_okey_split(z, e3, w, f3);
    lemma_relabel_eq_from_sorted(z, w);
}

} // verus!

verus! {

/// The images of a valid non-empty position (not the root) are valid,
/// non-empty and not the root.
proof fn lemma_transformed_valid(node: Node, g: Transformation)
    requires
        masks_within_occupancy(node.board),
        node.board.occupancy != 0,
        node != depth_0_sentinel_spec(),
    ensures
        masks_within_occupancy(transformed(node, g).board),
        transformed(node, g).board.occupancy != 0,
        transformed(node, g) != depth_0_sentinel_spec(),
{
    let n2 = transformed(node, g);
    let occ = node.board.occupancy;
    crate::transform::lemma_apply_within(node.board.attr(0), occ, g);
    crate::transform::lemma_apply_within(node.board.attr(1), occ, g);
    crate::transform::lemma_apply_within(node.board.attr(2), occ, g);
    crate::transform::lemma_apply_within(node.board.attr(3), occ, g);
    crate::transform::lemma_apply_inverse(node.board, g);
    crate::transform::lemma_apply_empty_full(g.inverse_spec());
    if n2 == depth_0_sentinel_spec() {
        assert(node.board.attribute_masks =~= depth_0_sentinel_spec().board.attribute_masks);
        assert(false);
    }
}

/// A board symmetry and an attribute relabeling can be applied in either order.
proof fn lemma_transform_relabel_commute(node: Node, g: Transformation, perm: Seq<int>, flips: Seq<bool>)
    requires
        is_perm4(perm),
        flips.len() == 4,
    ensures
        transformed(relabel_by(node, perm, flips), g) == relabel_by(transformed(node, g), perm, flips),
{
    let occ = node.board.occupancy;
    let m = transformed(node, g);
    assert forall|i: int| 0 <= i < 4 implies crate::transform::apply_u16_spec(#[trigger] flipped_mask(node, flips, i), g)
        == flipped_mask(m, flips, i) && flipped_bit(node, flips, i) == flipped_bit(m, flips, i) by {
        crate::transform::lemma_apply_xor(occ, node.board.attr(i), g);
    }
    assert(0 <= perm[0] < 4 && 0 <= perm[1] < 4 && 0 <= perm[2] < 4 && 0 <= perm[3] < 4);
    let l = transformed(relabel_by(node, perm, flips), g);
    let r = relabel_by(m, perm, flips);
    assert(l.board.attribute_masks =~= r.board.attribute_masks);
}

/// A valid non-empty position and each of its attribute relabelings have the
/// same candidates.
proof fn lemma_candidates_relabel(node: Node, perm: Seq<int>, flips: Seq<bool>)
    requires
        masks_within_occupancy(node.board),
        node.board.occupancy != 0,
        node != depth_0_sentinel_spec(),
        is_perm4(perm),
        flips.len() == 4,
    ensures
        candidates(relabel_by(node, perm, flips)) == candidates(node),
{
    let w = relabel_by(node, perm, flips);
    let ts = canonical_transformations_spec(node.board.occupancy);
    assert(w.board.occupancy == node.board.occupancy);
    assert forall|k: int| 0 <= k < ts.len() implies #[trigger] candidates(w)[k] == candidates(node)[k] by {
        let t = ts[k];
        lemma_transform_relabel_commute(node, t, perm, flips);
        lemma_transformed_valid(node, t);
        lemma_relabel_orbit_invariant(transformed(node, t), perm, flips);
    }
    assert(candidates(w) =~= candidates(node));
}

/// The canonical form of a valid non-empty position is the least of its
/// candidates, and it is one of them.
proof fn lemma_canonical_is_least(node: Node)
    requires
        node != depth_0_sentinel_spec(),
        node.board.occupancy != 0,
    ensures
        candidates(node).contains(canonical_spec(node)),
        forall|k: int| 0 <= k < candidates(node).len() ==> !(#[trigger] candidates(node)[k]).lt_spec(canonical_spec(node)),
{
    broadcast use vstd::seq_lib::group_filter_ensures;
    let occ = node.board.occupancy;
    crate::transform::lemma_min_image(occ);
    let all = crate::transform::all_transformations_spec();
    let j = choose|j: int| 0 <= j < 8 && crate::transform::min_image(occ) == #[trigger] crate::transform::apply_u16_spec(occ, all[j]);
    assert(canonical_transformations_spec(occ).contains(all[j]));
    lemma_least_exists(candidates(node));
    let r = choose|r: Node| candidates(node).contains(r) && forall|k: int| 0 <= k < candidates(node).len() ==> !(#[trigger] candidates(node)[k]).lt_spec(r);
    lemma_least_candidate_of(node, r);
    let c = choose|x: Node| is_least_candidate(node, x);
    lemma_least_unique(node, c, r);
}

/// Canonicalization does not see attribute relabelings: a valid non-empty
/// position and the position under any permutation of the four attributes,
/// with any of them complemented within the occupancy, have the same
/// canonical form.
pub proof fn lemma_canonical_relabel_invariant(node: Node, perm: Seq<int>, flips: Seq<bool>)
    requires
        masks_within_occupancy(node.board),
        node.board.occupancy != 0,
        node != depth_0_sentinel_spec(),
        is_perm4(perm),
        flips.len() == 4,
    ensures
        canonical_spec(relabel_by(node, perm, flips)) == canonical_spec(node),
{
    let w = relabel_by(node, perm, flips);
    lemma_orient_bv(node.piece_to_place, 0, 0, 0);
    lemma_orient_bv(node.piece_to_place, 1, 0, 0);
    lemma_orient_bv(node.piece_to_place, 2, 0, 0);
    lemma_orient_bv(node.piece_to_place, 3, 0, 0);
    assert(0 <= perm[0] < 4 && 0 <= perm[1] < 4 && 0 <= perm[2] < 4 && 0 <= perm[3] < 4);
    lemma_pack_bits(flipped_bit(node, flips, perm[0]), flipped_bit(node, flips, perm[1]), flipped_bit(node, flips, perm[2]), flipped_bit(node, flips, perm[3]));
    assert(w != depth_0_sentinel_spec());
    lemma_candidates_relabel(node, perm, flips);
    lemma_canonical_is_least(node);
    let r = canonical_spec(node);
    lemma_least_candidate_of(w, r);
    lemma_canonical_is_least(w);
    let c = choose|x: Node| is_least_candidate(w, x);
    lemma_least_unique(w, c, r);
}

} // verus!

verus! {

/// Canonicalizing a canonical form changes nothing: the canonical form is a
/// fixed point (for a valid non-empty position that is not the root).
pub proof fn lemma_canonical_idempotent(node: Node)
    requires
        masks_within_occupancy(node.board),
        node.board.occupancy != 0,
        node != depth_0_sentinel_spec(),
    ensures
        canonical_spec(canonical_spec(node)) == canonical_spec(node),
{
    lemma_canonical_is_least(node);
    let r = canonical_spec(node);
    let k = choose|k: int| 0 <= k < candidates(node).len() && candidates(node)[k] == r;
    let t = canonical_transformations_spec(node.board.occupancy)[k];
    let m = transformed(node, t);
    assert(r == relabel_spec(m));
    lemma_transformed_valid(node, t);
    lemma_relabel_in_orbit(m);
    let (perm, flips) = choose|perm: Seq<int>, flips: Seq<bool>|
        is_perm4(perm) && flips.len() == 4 && relabel_spec(m) == #[trigger] relabel_by(m, perm, flips);
    lemma_canonical_relabel_invariant(m, perm, flips);
    lemma_canonical_symmetric(node, t);
}

/// The canonical form of a non-empty position that names a piece names a
/// piece too, and is not the root.
pub proof fn lemma_canonical_piece(node: Node)
    requires
        node != depth_0_sentinel_spec(),
        node.board.occupancy != 0,
        node.piece_to_place < 16,
    ensures
        canonical_spec(node).piece_to_place < 16,
        canonical_spec(node) != depth_0_sentinel_spec(),
{
    lemma_canonical_is_least(node);
    lemma_least_candidate_of(node, canonical_spec(node));
    lemma_least_candidate_piece(node, canonical_spec(node));
}

} // verus!
