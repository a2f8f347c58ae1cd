//! The eight symmetries of the square (the dihedral group D4) acting on boards.

use vstd::prelude::*;
use crate::bits::bit_set;
use crate::board::Board;

verus! {

#[derive(Copy, Clone, Debug, Eq, PartialEq, Structural)]
pub enum Transformation {
    Identity,
    Rotate90,
    Rotate180,
    Rotate270,
    ReflectHorizontal,
    ReflectVertical,
    /// NW-SE diagonal (positions 0, 5, 10, 15)
    ReflectDiagonalMain,
    /// NE-SW diagonal (positions 3, 6, 9, 12)
    ReflectDiagonalAnti,
}

/// The transformations in index order.
pub open spec fn all_transformations_spec() -> Seq<Transformation> {
    seq![
        Transformation::Identity,
        Transformation::Rotate90,
        Transformation::Rotate180,
        Transformation::Rotate270,
        Transformation::ReflectHorizontal,
        Transformation::ReflectVertical,
        Transformation::ReflectDiagonalMain,
        Transformation::ReflectDiagonalAnti,
    ]
}

/// All eight transformations, in index order.
pub fn all_transformations() -> (r: [Transformation; 8])
    ensures
        r@ == all_transformations_spec(),
{
    let r = [
        Transformation::Identity,
        Transformation::Rotate90,
        Transformation::Rotate180,
        Transformation::Rotate270,
        Transformation::ReflectHorizontal,
        Transformation::ReflectVertical,
        Transformation::ReflectDiagonalMain,
        Transformation::ReflectDiagonalAnti,
    ];
    assert(r@ =~= all_transformations_spec());
    r
}

impl Transformation {
    pub open spec fn index_spec(self) -> usize {
        match self {
            Transformation::Identity => 0,
            Transformation::Rotate90 => 1,
            Transformation::Rotate180 => 2,
            Transformation::Rotate270 => 3,
            Transformation::ReflectHorizontal => 4,
            Transformation::ReflectVertical => 5,
            Transformation::ReflectDiagonalMain => 6,
            Transformation::ReflectDiagonalAnti => 7,
        }
    }

    /// Position of the transformation in `all_transformations`.
    pub fn index(self) -> (r: usize)
        ensures
            r == self.index_spec(),
            r < 8,
            all_transformations_spec()[r as int] == self,
    {
        match self {
            Transformation::Identity => 0,
            Transformation::Rotate90 => 1,
            Transformation::Rotate180 => 2,
            Transformation::Rotate270 => 3,
            Transformation::ReflectHorizontal => 4,
            Transformation::ReflectVertical => 5,
            Transformation::ReflectDiagonalMain => 6,
            Transformation::ReflectDiagonalAnti => 7,
        }
    }

    /// Source square of each target square: square `i` of the result is
    /// square `perm[i]` of the input.
    pub open spec fn perm_spec(self) -> Seq<u8> {
        match self {
            Transformation::Identity => seq![0u8, 1, 2, 3, 4, 5, 6, 7, 8, 9, 10, 11, 12, 13, 14, 15],
            Transformation::Rotate90 => seq![12u8, 8, 4, 0, 13, 9, 5, 1, 14, 10, 6, 2, 15, 11, 7, 3],
            Transformation::Rotate180 => seq![15u8, 14, 13, 12, 11, 10, 9, 8, 7, 6, 5, 4, 3, 2, 1, 0],
            Transformation::Rotate270 => seq![3u8, 7, 11, 15, 2, 6, 10, 14, 1, 5, 9, 13, 0, 4, 8, 12],
            Transformation::ReflectHorizontal => seq![12u8, 13, 14, 15, 8, 9, 10, 11, 4, 5, 6, 7, 0, 1, 2, 3],
            Transformation::ReflectVertical => seq![3u8, 2, 1, 0, 7, 6, 5, 4, 11, 10, 9, 8, 15, 14, 13, 12],
            Transformation::ReflectDiagonalMain => seq![0u8, 4, 8, 12, 1, 5, 9, 13, 2, 6, 10, 14, 3, 7, 11, 15],
            Transformation::ReflectDiagonalAnti => seq![15u8, 11, 7, 3, 14, 10, 6, 2, 13, 9, 5, 1, 12, 8, 4, 0],
        }
    }
}

/// The square permutation of a transformation.
pub fn permutation(t: Transformation) -> (r: [u8; 16])
    ensures
        r@ == t.perm_spec(),
{
    let r: [u8; 16] = match t {
        Transformation::Identity => [0, 1, 2, 3, 4, 5, 6, 7, 8, 9, 10, 11, 12, 13, 14, 15],
        Transformation::Rotate90 => [12, 8, 4, 0, 13, 9, 5, 1, 14, 10, 6, 2, 15, 11, 7, 3],
        Transformation::Rotate180 => [15, 14, 13, 12, 11, 10, 9, 8, 7, 6, 5, 4, 3, 2, 1, 0],
        Transformation::Rotate270 => [3, 7, 11, 15, 2, 6, 10, 14, 1, 5, 9, 13, 0, 4, 8, 12],
        Transformation::ReflectHorizontal => [12, 13, 14, 15, 8, 9, 10, 11, 4, 5, 6, 7, 0, 1, 2, 3],
        Transformation::ReflectVertical => [3, 2, 1, 0, 7, 6, 5, 4, 11, 10, 9, 8, 15, 14, 13, 12],
        Transformation::ReflectDiagonalMain => [0, 4, 8, 12, 1, 5, 9, 13, 2, 6, 10, 14, 3, 7, 11, 15],
        Transformation::ReflectDiagonalAnti => [15, 11, 7, 3, 14, 10, 6, 2, 13, 9, 5, 1, 12, 8, 4, 0],
    };
    assert(r@ =~= t.perm_spec());
    r
}

/// The mask whose bit `i` (for `i < n`) is bit `perm[i]` of `x`.
pub open spec fn permute_bits(x: u16, perm: Seq<u8>, n: nat) -> u16
    decreases n,
{
    if n == 0 {
        0
    } else {
        (permute_bits(x, perm, (n - 1) as nat) | (((x >> (perm[n - 1] as u16)) & 1u16) << ((n - 1) as u16))) as u16
    }
}

/// Permuting a mask: bit `i` of the result is bit `perm[i]` of the input.
proof fn lemma_permute_step_bv(x: u16, y: u16, p: u16, k: u16, i: u16)
    by (bit_vector)
    requires
        i < 16,
        k < 16,
    ensures
        i != k ==> (((((y | (((x >> p) & 1u16) << k)) as u16 >> i) & 1u16 == 1u16) <==> ((y >> i) & 1u16 == 1u16))),
        i == k ==> (((((y | (((x >> p) & 1u16) << k)) as u16 >> k) & 1u16 == 1u16) <==> ((y >> k) & 1u16 == 1u16 || (x >> p) & 1u16 == 1u16))),
{
}

pub proof fn lemma_permute_bits(x: u16, perm: Seq<u8>, n: nat)
    requires
        n <= 16,
        forall|i: int| 0 <= i < perm.len() ==> perm[i] < 16,
        perm.len() >= n,
    ensures
        forall|i: u16| i < n ==> (bit_set(permute_bits(x, perm, n), i) <==> bit_set(x, perm[i as int] as u16)),
        forall|i: u16| n <= i < 16 ==> !bit_set(permute_bits(x, perm, n), i),
    decreases n,
{
    if n > 0 {
        lemma_permute_bits(x, perm, (n - 1) as nat);
        let y = permute_bits(x, perm, (n - 1) as nat);
        let p = perm[n - 1] as u16;
        let k = (n - 1) as u16;
        let z = permute_bits(x, perm, n);
        assert(z == (y | (((x >> p) & 1u16) << k)) as u16);
        assert forall|i: u16| i < 16 && i != k implies (bit_set(z, i) <==> bit_set(y, i)) by {
            lemma_permute_step_bv(x, y, p, k, i);
        }
        assert(bit_set(z, k) <==> (bit_set(y, k) || bit_set(x, p))) by {
            lemma_permute_step_bv(x, y, p, k, k);
        }
    } else {
        assert forall|i: u16| i < 16 implies !bit_set(permute_bits(x, perm, n), i) by {
            crate::bits::lemma_bits_u16(0, 0, i, 0);
        }
    }
}

/// Apply a permutation of the 16 squares to a mask.
pub fn apply_permutation_u16(x: u16, perm: &[u8; 16]) -> (r: u16)
    requires
        forall|i: int| 0 <= i < 16 ==> perm@[i] < 16,
    ensures
        r == permute_bits(x, perm@, 16),
{
    let mut y: u16 = 0;
    let mut i: usize = 0;
    while i < 16
        invariant
            i <= 16,
            forall|j: int| 0 <= j < 16 ==> perm@[j] < 16,
            y == permute_bits(x, perm@, i as nat),
        decreases 16 - i,
    {
        y = y | (((x >> perm[i]) & 1u16) << (i as u16));
        i = i + 1;
    }
    y
}

pub open spec fn apply_u16_spec(x: u16, t: Transformation) -> u16 {
    permute_bits(x, t.perm_spec(), 16)
}

/// Apply a D4 transform to a board (occupancy and the 4 attribute planes).
pub open spec fn apply_spec(board: Board, t: Transformation) -> Board {
    Board {
        occupancy: apply_u16_spec(board.occupancy, t),
        attribute_masks: [
            apply_u16_spec(board.attr(0), t),
            apply_u16_spec(board.attr(1), t),
            apply_u16_spec(board.attr(2), t),
            apply_u16_spec(board.attr(3), t),
        ],
    }
}

proof fn lemma_perm_in_range(t: Transformation)
    ensures
        t.perm_spec().len() == 16,
        forall|i: int| 0 <= i < 16 ==> t.perm_spec()[i] < 16,
{
}

/// Apply a D4 transform to a single mask.
pub fn apply_u16(x: u16, t: Transformation) -> (r: u16)
    ensures
        r == apply_u16_spec(x, t),
{
    let perm = permutation(t);
    proof {
        lemma_perm_in_range(t);
    }
    apply_permutation_u16(x, &perm)
}

/// Apply a D4 transform to a `Board` (position and the 4 attribute planes).
pub fn apply(board: &Board, t: Transformation) -> (r: Board)
    ensures
        r == apply_spec(*board, t),
{
    let perm = permutation(t);
    proof {
        lemma_perm_in_range(t);
    }
    Board {
        occupancy: apply_permutation_u16(board.occupancy, &perm),
        attribute_masks: [
            apply_permutation_u16(board.attribute_masks[0], &perm),
            apply_permutation_u16(board.attribute_masks[1], &perm),
            apply_permutation_u16(board.attribute_masks[2], &perm),
            apply_permutation_u16(board.attribute_masks[3], &perm),
        ],
    }
}

/// An occupancy pattern is canonical when no symmetry maps it to a smaller mask.
pub open spec fn is_canonical_occupancy_spec(occupancy: u16) -> bool {
    forall|k: int| 0 <= k < 8 ==> occupancy <= #[trigger] apply_u16_spec(occupancy, all_transformations_spec()[k])
}

/// Whether `occupancy` is the smallest of its eight images.
pub fn is_canonical_occupancy(occupancy: u16) -> (r: bool)
    ensures
        r == is_canonical_occupancy_spec(occupancy),
{
    let all = all_transformations();
    let mut k: usize = 0;
    while k < 8
        invariant
            k <= 8,
            all@ == all_transformations_spec(),
            forall|j: int| 0 <= j < k ==> occupancy <= #[trigger] apply_u16_spec(occupancy, all_transformations_spec()[j]),
        decreases 8 - k,
    {
        if apply_u16(occupancy, all[k]) < occupancy {
            return false;
        }
        k = k + 1;
    }
    true
}

/// The smallest image of `occupancy` among its first `n` transformations.
pub open spec fn min_image_upto(occupancy: u16, n: nat) -> u16
    decreases n,
{
    if n <= 1 {
        apply_u16_spec(occupancy, all_transformations_spec()[0])
    } else {
        let prev = min_image_upto(occupancy, (n - 1) as nat);
        let cur = apply_u16_spec(occupancy, all_transformations_spec()[n - 1]);
        if cur < prev { cur } else { prev }
    }
}

/// The smallest image of `occupancy` under the eight symmetries.
pub open spec fn min_image(occupancy: u16) -> u16 {
    min_image_upto(occupancy, 8)
}

/// The transformations (in index order) mapping `occupancy` to its smallest image.
pub open spec fn canonical_transformations_spec(occupancy: u16) -> Seq<Transformation> {
    all_transformations_spec().filter(|t: Transformation| apply_u16_spec(occupancy, t) == min_image(occupancy))
}

proof fn lemma_min_image_upto(occupancy: u16, n: nat)
    requires
        1 <= n <= 8,
    ensures
        forall|j: int| 0 <= j < n ==> min_image_upto(occupancy, n) <= #[trigger] apply_u16_spec(occupancy, all_transformations_spec()[j]),
        exists|j: int| 0 <= j < n && min_image_upto(occupancy, n) == #[trigger] apply_u16_spec(occupancy, all_transformations_spec()[j]),
    decreases n,
{
    if n > 1 {
        lemma_min_image_upto(occupancy, (n - 1) as nat);
        let cur = apply_u16_spec(occupancy, all_transformations_spec()[n - 1]);
        if cur < min_image_upto(occupancy, (n - 1) as nat) {
            assert(min_image_upto(occupancy, n) == apply_u16_spec(occupancy, all_transformations_spec()[n - 1]));
        } else {
            let j = choose|j: int| 0 <= j < n - 1 && min_image_upto(occupancy, (n - 1) as nat) == #[trigger] apply_u16_spec(occupancy, all_transformations_spec()[j]);
            assert(min_image_upto(occupancy, n) == apply_u16_spec(occupancy, all_transformations_spec()[j]));
        }
    } else {
        assert(min_image_upto(occupancy, n) == apply_u16_spec(occupancy, all_transformations_spec()[0]));
    }
}

/// The smallest image is no larger than any image and is one of them.
pub proof fn lemma_min_image(occupancy: u16)
    ensures
        forall|j: int| 0 <= j < 8 ==> min_image(occupancy) <= #[trigger] apply_u16_spec(occupancy, all_transformations_spec()[j]),
        exists|j: int| 0 <= j < 8 && min_image(occupancy) == #[trigger] apply_u16_spec(occupancy, all_transformations_spec()[j]),
{
    lemma_min_image_upto(occupancy, 8);
}

/// Find all transformations that produce the canonical occupancy for a given occupancy.
pub fn canonical_transformations(occupancy: u16) -> (r: Vec<Transformation>)
    ensures
        r@ == canonical_transformations_spec(occupancy),
{
    let all = all_transformations();
    let mut best = apply_u16(occupancy, all[0]);
    let mut list: Vec<Transformation> = Vec::new();
    list.push(all[0]);
    proof {
        reveal_with_fuel(Seq::filter, 1);
        let f = |t: Transformation| apply_u16_spec(occupancy, t) == min_image_upto(occupancy, 1);
        assert(all_transformations_spec().subrange(0, 1).drop_last() =~= Seq::<Transformation>::empty());
        assert(all_transformations_spec().subrange(0, 1).filter(f) =~= seq![all[0]]);
    }
    let mut k: usize = 1;
    while k < 8
        invariant
            1 <= k <= 8,
            all@ == all_transformations_spec(),
            best == min_image_upto(occupancy, k as nat),
            list@ == all_transformations_spec().subrange(0, k as int).filter(
                |t: Transformation| apply_u16_spec(occupancy, t) == min_image_upto(occupancy, k as nat),
            ),
        decreases 8 - k,
    {
        let t = all[k];
        let transformed = apply_u16(occupancy, t);
        proof {
            lemma_min_image_upto(occupancy, k as nat);
            reveal_with_fuel(Seq::filter, 1);
        }
        let ghost old_list = list@;
        let ghost prev = all_transformations_spec().subrange(0, k as int);
        let ghost next = all_transformations_spec().subrange(0, k + 1);
        proof {
            assert(next.drop_last() =~= prev);
        }
        if transformed < best {
            best = transformed;
            list = Vec::new();
            list.push(t);
            proof {
                let f = |u: Transformation| apply_u16_spec(occupancy, u) == min_image_upto(occupancy, (k + 1) as nat);
                assert(prev.filter(f) =~= Seq::<Transformation>::empty()) by {
                    assert forall|j: int| 0 <= j < prev.len() implies !f(prev[j]) by {
                        assert(prev[j] == all_transformations_spec()[j]);
                    }
                    prev.lemma_all_neg_filter_empty(f);
                }
                assert(next.filter(f) =~= seq![t]);
            }
        } else if transformed == best {
            list.push(t);
            proof {
                let f = |u: Transformation| apply_u16_spec(occupancy, u) == min_image_upto(occupancy, (k + 1) as nat);
                let g = |u: Transformation| apply_u16_spec(occupancy, u) == min_image_upto(occupancy, k as nat);
                assert(f =~= g);
                assert(next.filter(f) =~= old_list.push(t));
            }
        } else {
            proof {
                let f = |u: Transformation| apply_u16_spec(occupancy, u) == min_image_upto(occupancy, (k + 1) as nat);
                let g = |u: Transformation| apply_u16_spec(occupancy, u) == min_image_upto(occupancy, k as nat);
                assert(f =~= g);
                assert(next.filter(f) =~= old_list);
            }
        }
        k = k + 1;
    }
    assert(all_transformations_spec().subrange(0, 8) =~= all_transformations_spec());
    list
}

} // verus!

verus! {

impl Transformation {
    /// The transformation that undoes this one: the two quarter turns undo
    /// each other, and every other symmetry is its own inverse.
    pub open spec fn inverse_spec(self) -> Transformation {
        match self {
            Transformation::Rotate90 => Transformation::Rotate270,
            Transformation::Rotate270 => Transformation::Rotate90,
            _ => self,
        }
    }
}

proof fn lemma_xor_bits(a: u16, b: u16, s: u16)
    by (bit_vector)
    requires
        s < 16,
    ensures
        ((((a ^ b) as u16) >> s) & 1u16 == 1u16) <==> (((a >> s) & 1u16 == 1u16) != ((b >> s) & 1u16 == 1u16)),
        (a ^ b) as u16 == 0u16 ==> a == b,
{
}

/// Two masks with the same sixteen bits are equal.
pub proof fn lemma_bits_ext(a: u16, b: u16)
    requires
        forall|s: u16| s < 16 ==> (bit_set(a, s) <==> bit_set(b, s)),
    ensures
        a == b,
{
    let x = (a ^ b) as u16;
    assert forall|s: u16| s < 16 implies !bit_set(x, s) by {
        assert(bit_set(a, s) <==> bit_set(b, s));
        lemma_xor_bits(a, b, s);
    }
    crate::bits::lemma_no_bits_zero(x);
    lemma_xor_bits(a, b, 0);
}

/// Following the inverse's source square, then this transformation's, leads
/// back to the square one started from.
proof fn lemma_perm_inverse(t: Transformation)
    ensures
        forall|i: int| 0 <= i < 16 ==> #[trigger] t.perm_spec()[t.inverse_spec().perm_spec()[i] as int] == i,
{
    assert forall|i: int| 0 <= i < 16 implies #[trigger] t.perm_spec()[t.inverse_spec().perm_spec()[i] as int] == i by {
        assert(i == 0 || i == 1 || i == 2 || i == 3 || i == 4 || i == 5 || i == 6 || i == 7 || i == 8 || i == 9
            || i == 10 || i == 11 || i == 12 || i == 13 || i == 14 || i == 15);
    }
}

/// Transforming a mask and then applying the inverse transformation gives
/// the mask back.
pub proof fn lemma_apply_u16_inverse(x: u16, t: Transformation)
    ensures
        apply_u16_spec(apply_u16_spec(x, t), t.inverse_spec()) == x,
{
    let u = t.inverse_spec();
    lemma_perm_in_range(t);
    lemma_perm_in_range(u);
    let y = apply_u16_spec(x, t);
    let z = apply_u16_spec(y, u);
    lemma_permute_bits(x, t.perm_spec(), 16);
    lemma_permute_bits(y, u.perm_spec(), 16);
    lemma_perm_inverse(t);
    assert forall|s: u16| s < 16 implies (bit_set(z, s) <==> bit_set(x, s)) by {
        let p = u.perm_spec()[s as int] as u16;
        assert(bit_set(z, s) <==> bit_set(y, p));
        assert(t.perm_spec()[p as int] == s);
        assert(bit_set(y, p) <==> bit_set(x, t.perm_spec()[p as int] as u16));
    }
    lemma_bits_ext(z, x);
}

/// Every symmetry of the board can be undone: transforming a board and then
/// applying the inverse transformation gives the board back.
pub proof fn lemma_apply_inverse(b: Board, t: Transformation)
    ensures
        apply_spec(apply_spec(b, t), t.inverse_spec()) == b,
{
    lemma_apply_u16_inverse(b.occupancy, t);
    lemma_apply_u16_inverse(b.attr(0), t);
    lemma_apply_u16_inverse(b.attr(1), t);
    lemma_apply_u16_inverse(b.attr(2), t);
    lemma_apply_u16_inverse(b.attr(3), t);
    let r = apply_spec(apply_spec(b, t), t.inverse_spec());
    assert(r.attribute_masks =~= b.attribute_masks);
}

} // verus!

verus! {

/// A mask holds all of line `l` when every bit of `l` is set in it, and none
/// of it when no bit of `l` is.
proof fn lemma_mask_bits(y: u16, l: u16)
    ensures
        (y & l) == l <==> forall|s: u16| s < 16 && #[trigger] bit_set(l, s) ==> bit_set(y, s),
        (y & l) == 0 <==> forall|s: u16| s < 16 && #[trigger] bit_set(l, s) ==> !bit_set(y, s),
{
    let w = y & l;
    assert forall|s: u16| s < 16 implies (bit_set(w, s) <==> (bit_set(y, s) && bit_set(l, s))) && !bit_set(0u16, s) by {
        crate::bits::lemma_bits_u16(y, l, s, 0);
    }
    if forall|s: u16| s < 16 && #[trigger] bit_set(l, s) ==> bit_set(y, s) {
        assert forall|s: u16| s < 16 implies (bit_set(w, s) <==> bit_set(l, s)) by {
            crate::bits::lemma_bits_u16(y, l, s, 0);
        }
        lemma_bits_ext(w, l);
    }
    if forall|s: u16| s < 16 && #[trigger] bit_set(l, s) ==> !bit_set(y, s) {
        assert forall|s: u16| s < 16 implies !bit_set(w, s) by {
            crate::bits::lemma_bits_u16(y, l, s, 0);
        }
        crate::bits::lemma_no_bits_zero(w);
    }
}

/// Line `k` (in the order of `line_masks_spec`) passes through square `s`.
spec fn on_line(k: int, s: int) -> bool {
    if k < 4 {
        4 * k <= s < 4 * k + 4
    } else if k < 8 {
        s % 4 == k - 4
    } else if k == 8 {
        s == 0 || s == 5 || s == 10 || s == 15
    } else {
        s == 3 || s == 6 || s == 9 || s == 12
    }
}

proof fn lemma_line_mask_bits_bv(s: u16)
    by (bit_vector)
    requires
        s < 16,
    ensures
        ((0x000Fu16 >> s) & 1u16 == 1u16) <==> s < 4,
        ((0x00F0u16 >> s) & 1u16 == 1u16) <==> (4 <= s && s < 8),
        ((0x0F00u16 >> s) & 1u16 == 1u16) <==> (8 <= s && s < 12),
        ((0xF000u16 >> s) & 1u16 == 1u16) <==> 12 <= s,
        ((0x1111u16 >> s) & 1u16 == 1u16) <==> s % 4 == 0,
        ((0x2222u16 >> s) & 1u16 == 1u16) <==> s % 4 == 1,
        ((0x4444u16 >> s) & 1u16 == 1u16) <==> s % 4 == 2,
        ((0x8888u16 >> s) & 1u16 == 1u16) <==> s % 4 == 3,
        ((0x8421u16 >> s) & 1u16 == 1u16) <==> (s == 0 || s == 5 || s == 10 || s == 15),
        ((0x1248u16 >> s) & 1u16 == 1u16) <==> (s == 3 || s == 6 || s == 9 || s == 12),
{
}

proof fn lemma_line_mask_bits(k: int, s: u16)
    requires
        0 <= k < 10,
        s < 16,
    ensures
        bit_set(crate::line_masks::line_masks_spec()[k], s) <==> on_line(k, s as int),
{
    lemma_line_mask_bits_bv(s);
    assert(k == 0 || k == 1 || k == 2 || k == 3 || k == 4 || k == 5 || k == 6 || k == 7 || k == 8 || k == 9);
}

/// The line of the original board that line `k` of the transformed board
/// comes from.
spec fn line_image(t: Transformation, k: int) -> int {
    match t {
        Transformation::Identity => k,
        Transformation::Rotate90 => seq![4int, 5, 6, 7, 3, 2, 1, 0, 9, 8][k],
        Transformation::Rotate180 => seq![3int, 2, 1, 0, 7, 6, 5, 4, 8, 9][k],
        Transformation::Rotate270 => seq![7int, 6, 5, 4, 0, 1, 2, 3, 9, 8][k],
        Transformation::ReflectHorizontal => seq![3int, 2, 1, 0, 4, 5, 6, 7, 9, 8][k],
        Transformation::ReflectVertical => seq![0int, 1, 2, 3, 7, 6, 5, 4, 9, 8][k],
        Transformation::ReflectDiagonalMain => seq![4int, 5, 6, 7, 0, 1, 2, 3, 8, 9][k],
        Transformation::ReflectDiagonalAnti => seq![7int, 6, 5, 4, 3, 2, 1, 0, 8, 9][k],
    }
}

#[verifier::spinoff_prover]
#[verifier::rlimit(60)]
proof fn lemma_line_image(t: Transformation, k: int, s: int)
    requires
        0 <= k < 10,
        0 <= s < 16,
    ensures
        0 <= line_image(t, k) < 10,
        on_line(k, s) <==> on_line(line_image(t, k), t.perm_spec()[s] as int),
{
    assert(s == 0 || s == 1 || s == 2 || s == 3 || s == 4 || s == 5 || s == 6 || s == 7 || s == 8 || s == 9
        || s == 10 || s == 11 || s == 12 || s == 13 || s == 14 || s == 15);
    assert(k == 0 || k == 1 || k == 2 || k == 3 || k == 4 || k == 5 || k == 6 || k == 7 || k == 8 || k == 9);
}

} // verus!

verus! {

/// Line `k` of a transformed mask is full (or empty) exactly when the line it
/// comes from is full (or empty) in the original mask.
proof fn lemma_line_image_mask(x: u16, t: Transformation, k: int)
    requires
        0 <= k < 10,
    ensures
        0 <= line_image(t, k) < 10,
        ({
            let y = apply_u16_spec(x, t);
            let l = crate::line_masks::line_masks_spec()[k];
            let m = crate::line_masks::line_masks_spec()[line_image(t, k)];
            &&& ((y & l) == l <==> (x & m) == m)
            &&& ((y & l) == 0 <==> (x & m) == 0)
        }),
{
    let u = t.inverse_spec();
    let p = t.perm_spec();
    let y = apply_u16_spec(x, t);
    let k2 = line_image(t, k);
    let l = crate::line_masks::line_masks_spec()[k];
    let m = crate::line_masks::line_masks_spec()[k2];
    lemma_line_image(t, k, 0);
    lemma_perm_in_range(t);
    lemma_perm_in_range(u);
    lemma_permute_bits(x, p, 16);
    lemma_perm_inverse(t);
    lemma_mask_bits(y, l);
    lemma_mask_bits(x, m);
    assert forall|s: u16| s < 16 implies (bit_set(l, s) <==> bit_set(m, p[s as int] as u16))
        && (bit_set(y, s) <==> bit_set(x, p[s as int] as u16)) by {
        lemma_line_image(t, k, s as int);
        lemma_line_mask_bits(k, s);
        lemma_line_mask_bits(k2, p[s as int] as u16);
    }
    assert forall|r: u16| r < 16 implies p[u.perm_spec()[r as int] as int] == r && u.perm_spec()[r as int] < 16 by {
        assert(p[u.perm_spec()[r as int] as int] == r as int);
    }
    if forall|s: u16| s < 16 && #[trigger] bit_set(l, s) ==> bit_set(y, s) {
        assert forall|r: u16| r < 16 && #[trigger] bit_set(m, r) implies bit_set(x, r) by {
            let s = u.perm_spec()[r as int] as u16;
            assert(p[s as int] == r);
            assert(bit_set(l, s));
        }
    }
    if forall|r: u16| r < 16 && #[trigger] bit_set(m, r) ==> bit_set(x, r) {
        assert forall|s: u16| s < 16 && #[trigger] bit_set(l, s) implies bit_set(y, s) by {
            assert(bit_set(m, p[s as int] as u16));
        }
    }
    if forall|s: u16| s < 16 && #[trigger] bit_set(l, s) ==> !bit_set(y, s) {
        assert forall|r: u16| r < 16 && #[trigger] bit_set(m, r) implies !bit_set(x, r) by {
            let s = u.perm_spec()[r as int] as u16;
            assert(p[s as int] == r);
            assert(bit_set(l, s));
        }
    }
    if forall|r: u16| r < 16 && #[trigger] bit_set(m, r) ==> !bit_set(x, r) {
        assert forall|s: u16| s < 16 && #[trigger] bit_set(l, s) implies !bit_set(y, s) by {
            assert(bit_set(m, p[s as int] as u16));
        }
    }
}

/// Line `k` of a transformed board is a quarto exactly when the line it comes
/// from is a quarto on the original board.
proof fn lemma_quarto_line_image(b: Board, t: Transformation, k: int)
    requires
        0 <= k < 10,
    ensures
        0 <= line_image(t, k) < 10,
        crate::line_masks::is_quarto_line(apply_spec(b, t), crate::line_masks::line_masks_spec()[k])
            <==> crate::line_masks::is_quarto_line(b, crate::line_masks::line_masks_spec()[line_image(t, k)]),
{
    lemma_line_image_mask(b.occupancy, t, k);
    lemma_line_image_mask(b.attr(0), t, k);
    lemma_line_image_mask(b.attr(1), t, k);
    lemma_line_image_mask(b.attr(2), t, k);
    lemma_line_image_mask(b.attr(3), t, k);
}

proof fn lemma_quarto_pulls_back(b: Board, t: Transformation)
    ensures
        crate::line_masks::has_quarto(apply_spec(b, t)) ==> crate::line_masks::has_quarto(b),
{
    if crate::line_masks::has_quarto(apply_spec(b, t)) {
        let k = choose|k: int| 0 <= k < 10
            && crate::line_masks::is_quarto_line(apply_spec(b, t), #[trigger] crate::line_masks::line_masks_spec()[k]);
        lemma_quarto_line_image(b, t, k);
        let k2 = line_image(t, k);
        assert(crate::line_masks::is_quarto_line(b, crate::line_masks::line_masks_spec()[k2]));
    }
}

/// The symmetries of the board keep quartos: a transformed board has a
/// quarto exactly when the board has one.
pub proof fn lemma_apply_preserves_quarto(b: Board, t: Transformation)
    ensures
        crate::line_masks::has_quarto(apply_spec(b, t)) <==> crate::line_masks::has_quarto(b),
{
    lemma_quarto_pulls_back(b, t);
    lemma_quarto_pulls_back(apply_spec(b, t), t.inverse_spec());
    lemma_apply_inverse(b, t);
}

} // verus!

verus! {

/// 1 when bit `j` of `x` is set, else 0.
#[verifier::opaque]
spec fn bitv(x: u16, j: u16) -> int {
    if bit_set(x, j) { 1 } else { 0 }
}

proof fn lemma_popcount_sum(x: u16)
    ensures
        crate::bits::popcount(x) == bitv(x, 0) + bitv(x, 1) + bitv(x, 2) + bitv(x, 3) + bitv(x, 4) + bitv(x, 5)
            + bitv(x, 6) + bitv(x, 7) + bitv(x, 8) + bitv(x, 9) + bitv(x, 10) + bitv(x, 11) + bitv(x, 12)
            + bitv(x, 13) + bitv(x, 14) + bitv(x, 15),
{
    reveal_with_fuel(crate::bits::popcount_upto, 17);
    reveal(bitv);
}

proof fn lemma_bit_perm(x: u16, t: Transformation, i: u16, j: u16)
    requires
        i < 16,
        t.perm_spec()[i as int] == j,
    ensures
        bitv(apply_u16_spec(x, t), i) == bitv(x, j),
{
    reveal(bitv);
    lemma_perm_in_range(t);
    lemma_permute_bits(x, t.perm_spec(), 16);
}

/// A symmetry of the board moves pieces without adding or removing any: a
/// transformed mask has as many set bits as the mask.
#[verifier::spinoff_prover]
pub proof fn lemma_apply_keeps_popcount(x: u16, t: Transformation)
    ensures
        crate::bits::popcount(apply_u16_spec(x, t)) == crate::bits::popcount(x),
{
    let y = apply_u16_spec(x, t);
    lemma_popcount_sum(x);
    lemma_popcount_sum(y);
    match t {
        Transformation::Identity => {
            lemma_bit_perm(x, t, 0, 0);
            lemma_bit_perm(x, t, 1, 1);
            lemma_bit_perm(x, t, 2, 2);
            lemma_bit_perm(x, t, 3, 3);
            lemma_bit_perm(x, t, 4, 4);
            lemma_bit_perm(x, t, 5, 5);
            lemma_bit_perm(x, t, 6, 6);
            lemma_bit_perm(x, t, 7, 7);
            lemma_bit_perm(x, t, 8, 8);
            lemma_bit_perm(x, t, 9, 9);
            lemma_bit_perm(x, t, 10, 10);
            lemma_bit_perm(x, t, 11, 11);
            lemma_bit_perm(x, t, 12, 12);
            lemma_bit_perm(x, t, 13, 13);
            lemma_bit_perm(x, t, 14, 14);
            lemma_bit_perm(x, t, 15, 15);
        },
        Transformation::Rotate90 => {
            lemma_bit_perm(x, t, 0, 12);
            lemma_bit_perm(x, t, 1, 8);
            lemma_bit_perm(x, t, 2, 4);
            lemma_bit_perm(x, t, 3, 0);
            lemma_bit_perm(x, t, 4, 13);
            lemma_bit_perm(x, t, 5, 9);
            lemma_bit_perm(x, t, 6, 5);
            lemma_bit_perm(x, t, 7, 1);
            lemma_bit_perm(x, t, 8, 14);
            lemma_bit_perm(x, t, 9, 10);
            lemma_bit_perm(x, t, 10, 6);
            lemma_bit_perm(x, t, 11, 2);
            lemma_bit_perm(x, t, 12, 15);
            lemma_bit_perm(x, t, 13, 11);
            lemma_bit_perm(x, t, 14, 7);
            lemma_bit_perm(x, t, 15, 3);
        },
        Transformation::Rotate180 => {
            lemma_bit_perm(x, t, 0, 15);
            lemma_bit_perm(x, t, 1, 14);
            lemma_bit_perm(x, t, 2, 13);
            lemma_bit_perm(x, t, 3, 12);
            lemma_bit_perm(x, t, 4, 11);
            lemma_bit_perm(x, t, 5, 10);
            lemma_bit_perm(x, t, 6, 9);
            lemma_bit_perm(x, t, 7, 8);
            lemma_bit_perm(x, t, 8, 7);
            lemma_bit_perm(x, t, 9, 6);
            lemma_bit_perm(x, t, 10, 5);
            lemma_bit_perm(x, t, 11, 4);
            lemma_bit_perm(x, t, 12, 3);
            lemma_bit_perm(x, t, 13, 2);
            lemma_bit_perm(x, t, 14, 1);
            lemma_bit_perm(x, t, 15, 0);
        },
        Transformation::Rotate270 => {
            lemma_bit_perm(x, t, 0, 3);
            lemma_bit_perm(x, t, 1, 7);
            lemma_bit_perm(x, t, 2, 11);
            lemma_bit_perm(x, t, 3, 15);
            lemma_bit_perm(x, t, 4, 2);
            lemma_bit_perm(x, t, 5, 6);
            lemma_bit_perm(x, t, 6, 10);
            lemma_bit_perm(x, t, 7, 14);
            lemma_bit_perm(x, t, 8, 1);
            lemma_bit_perm(x, t, 9, 5);
            lemma_bit_perm(x, t, 10, 9);
            lemma_bit_perm(x, t, 11, 13);
            lemma_bit_perm(x, t, 12, 0);
            lemma_bit_perm(x, t, 13, 4);
            lemma_bit_perm(x, t, 14, 8);
            lemma_bit_perm(x, t, 15, 12);
        },
        Transformation::ReflectHorizontal => {
            lemma_bit_perm(x, t, 0, 12);
            lemma_bit_perm(x, t, 1, 13);
            lemma_bit_perm(x, t, 2, 14);
            lemma_bit_perm(x, t, 3, 15);
            lemma_bit_perm(x, t, 4, 8);
            lemma_bit_perm(x, t, 5, 9);
            lemma_bit_perm(x, t, 6, 10);
            lemma_bit_perm(x, t, 7, 11);
            lemma_bit_perm(x, t, 8, 4);
            lemma_bit_perm(x, t, 9, 5);
            lemma_bit_perm(x, t, 10, 6);
            lemma_bit_perm(x, t, 11, 7);
            lemma_bit_perm(x, t, 12, 0);
            lemma_bit_perm(x, t, 13, 1);
            lemma_bit_perm(x, t, 14, 2);
            lemma_bit_perm(x, t, 15, 3);
        },
        Transformation::ReflectVertical => {
            lemma_bit_perm(x, t, 0, 3);
            lemma_bit_perm(x, t, 1, 2);
            lemma_bit_perm(x, t, 2, 1);
            lemma_bit_perm(x, t, 3, 0);
            lemma_bit_perm(x, t, 4, 7);
            lemma_bit_perm(x, t, 5, 6);
            lemma_bit_perm(x, t, 6, 5);
            lemma_bit_perm(x, t, 7, 4);
            lemma_bit_perm(x, t, 8, 11);
            lemma_bit_perm(x, t, 9, 10);
            lemma_bit_perm(x, t, 10, 9);
            lemma_bit_perm(x, t, 11, 8);
            lemma_bit_perm(x, t, 12, 15);
            lemma_bit_perm(x, t, 13, 14);
            lemma_bit_perm(x, t, 14, 13);
            lemma_bit_perm(x, t, 15, 12);
        },
        Transformation::ReflectDiagonalMain => {
            lemma_bit_perm(x, t, 0, 0);
            lemma_bit_perm(x, t, 1, 4);
            lemma_bit_perm(x, t, 2, 8);
            lemma_bit_perm(x, t, 3, 12);
            lemma_bit_perm(x, t, 4, 1);
            lemma_bit_perm(x, t, 5, 5);
            lemma_bit_perm(x, t, 6, 9);
            lemma_bit_perm(x, t, 7, 13);
            lemma_bit_perm(x, t, 8, 2);
            lemma_bit_perm(x, t, 9, 6);
            lemma_bit_perm(x, t, 10, 10);
            lemma_bit_perm(x, t, 11, 14);
            lemma_bit_perm(x, t, 12, 3);
            lemma_bit_perm(x, t, 13, 7);
            lemma_bit_perm(x, t, 14, 11);
            lemma_bit_perm(x, t, 15, 15);
        },
        Transformation::ReflectDiagonalAnti => {
            lemma_bit_perm(x, t, 0, 15);
            lemma_bit_perm(x, t, 1, 11);
            lemma_bit_perm(x, t, 2, 7);
            lemma_bit_perm(x, t, 3, 3);
            lemma_bit_perm(x, t, 4, 14);
            lemma_bit_perm(x, t, 5, 10);
            lemma_bit_perm(x, t, 6, 6);
            lemma_bit_perm(x, t, 7, 2);
            lemma_bit_perm(x, t, 8, 13);
            lemma_bit_perm(x, t, 9, 9);
            lemma_bit_perm(x, t, 10, 5);
            lemma_bit_perm(x, t, 11, 1);
            lemma_bit_perm(x, t, 12, 12);
            lemma_bit_perm(x, t, 13, 8);
            lemma_bit_perm(x, t, 14, 4);
            lemma_bit_perm(x, t, 15, 0);
        },
    }
}

} // verus!

verus! {

/// The index of the transformation that does `g` and then `t`.
pub open spec fn compose_index(g: Transformation, t: Transformation) -> int {
    match g {
        Transformation::Identity => seq![0int, 1, 2, 3, 4, 5, 6, 7][t.index_spec() as int],
        Transformation::Rotate90 => seq![1int, 2, 3, 0, 7, 6, 4, 5][t.index_spec() as int],
        Transformation::Rotate180 => seq![2int, 3, 0, 1, 5, 4, 7, 6][t.index_spec() as int],
        Transformation::Rotate270 => seq![3int, 0, 1, 2, 6, 7, 5, 4][t.index_spec() as int],
        Transformation::ReflectHorizontal => seq![4int, 6, 5, 7, 0, 2, 1, 3][t.index_spec() as int],
        Transformation::ReflectVertical => seq![5int, 7, 4, 6, 2, 0, 3, 1][t.index_spec() as int],
        Transformation::ReflectDiagonalMain => seq![6int, 5, 7, 4, 3, 1, 0, 2][t.index_spec() as int],
        Transformation::ReflectDiagonalAnti => seq![7int, 4, 6, 5, 1, 3, 2, 0][t.index_spec() as int],
    }
}

/// Doing `g` and then `t`: a single symmetry of the board.
pub open spec fn compose(g: Transformation, t: Transformation) -> Transformation {
    all_transformations_spec()[compose_index(g, t)]
}

#[verifier::spinoff_prover]
proof fn lemma_perm_compose_0(g: Transformation, t: Transformation)
    ensures
        compose(g, t).perm_spec()[0] == g.perm_spec()[t.perm_spec()[0] as int],
{
    match g {
        Transformation::Identity => {},
        Transformation::Rotate90 => {},
        Transformation::Rotate180 => {},
        Transformation::Rotate270 => {},
        Transformation::ReflectHorizontal => {},
        Transformation::ReflectVertical => {},
        Transformation::ReflectDiagonalMain => {},
        Transformation::ReflectDiagonalAnti => {},
    }
}

#[verifier::spinoff_prover]
proof fn lemma_perm_compose_1(g: Transformation, t: Transformation)
    ensures
        compose(g, t).perm_spec()[1] == g.perm_spec()[t.perm_spec()[1] as int],
{
    match g {
        Transformation::Identity => {},
        Transformation::Rotate90 => {},
        Transformation::Rotate180 => {},
        Transformation::Rotate270 => {},
        Transformation::ReflectHorizontal => {},
        Transformation::ReflectVertical => {},
        Transformation::ReflectDiagonalMain => {},
        Transformation::ReflectDiagonalAnti => {},
    }
}

#[verifier::spinoff_prover]
proof fn lemma_perm_compose_2(g: Transformation, t: Transformation)
    ensures
        compose(g, t).perm_spec()[2] == g.perm_spec()[t.perm_spec()[2] as int],
{
    match g {
        Transformation::Identity => {},
        Transformation::Rotate90 => {},
        Transformation::Rotate180 => {},
        Transformation::Rotate270 => {},
        Transformation::ReflectHorizontal => {},
        Transformation::ReflectVertical => {},
        Transformation::ReflectDiagonalMain => {},
        Transformation::ReflectDiagonalAnti => {},
    }
}

#[verifier::spinoff_prover]
proof fn lemma_perm_compose_3(g: Transformation, t: Transformation)
    ensures
        compose(g, t).perm_spec()[3] == g.perm_spec()[t.perm_spec()[3] as int],
{
    match g {
        Transformation::Identity => {},
        Transformation::Rotate90 => {},
        Transformation::Rotate180 => {},
        Transformation::Rotate270 => {},
        Transformation::ReflectHorizontal => {},
        Transformation::ReflectVertical => {},
        Transformation::ReflectDiagonalMain => {},
        Transformation::ReflectDiagonalAnti => {},
    }
}

#[verifier::spinoff_prover]
proof fn lemma_perm_compose_4(g: Transformation, t: Transformation)
    ensures
        compose(g, t).perm_spec()[4] == g.perm_spec()[t.perm_spec()[4] as int],
{
    match g {
        Transformation::Identity => {},
        Transformation::Rotate90 => {},
        Transformation::Rotate180 => {},
        Transformation::Rotate270 => {},
        Transformation::ReflectHorizontal => {},
        Transformation::ReflectVertical => {},
        Transformation::ReflectDiagonalMain => {},
        Transformation::ReflectDiagonalAnti => {},
    }
}

#[verifier::spinoff_prover]
proof fn lemma_perm_compose_5(g: Transformation, t: Transformation)
    ensures
        compose(g, t).perm_spec()[5] == g.perm_spec()[t.perm_spec()[5] as int],
{
    match g {
        Transformation::Identity => {},
        Transformation::Rotate90 => {},
        Transformation::Rotate180 => {},
        Transformation::Rotate270 => {},
        Transformation::ReflectHorizontal => {},
        Transformation::ReflectVertical => {},
        Transformation::ReflectDiagonalMain => {},
        Transformation::ReflectDiagonalAnti => {},
    }
}

#[verifier::spinoff_prover]
proof fn lemma_perm_compose_6(g: Transformation, t: Transformation)
    ensures
        compose(g, t).perm_spec()[6] == g.perm_spec()[t.perm_spec()[6] as int],
{
    match g {
        Transformation::Identity => {},
        Transformation::Rotate90 => {},
        Transformation::Rotate180 => {},
        Transformation::Rotate270 => {},
        Transformation::ReflectHorizontal => {},
        Transformation::ReflectVertical => {},
        Transformation::ReflectDiagonalMain => {},
        Transformation::ReflectDiagonalAnti => {},
    }
}

#[verifier::spinoff_prover]
proof fn lemma_perm_compose_7(g: Transformation, t: Transformation)
    ensures
        compose(g, t).perm_spec()[7] == g.perm_spec()[t.perm_spec()[7] as int],
{
    match g {
        Transformation::Identity => {},
        Transformation::Rotate90 => {},
        Transformation::Rotate180 => {},
        Transformation::Rotate270 => {},
        Transformation::ReflectHorizontal => {},
        Transformation::ReflectVertical => {},
        Transformation::ReflectDiagonalMain => {},
        Transformation::ReflectDiagonalAnti => {},
    }
}

#[verifier::spinoff_prover]
proof fn lemma_perm_compose_8(g: Transformation, t: Transformation)
    ensures
        compose(g, t).perm_spec()[8] == g.perm_spec()[t.perm_spec()[8] as int],
{
    match g {
        Transformation::Identity => {},
        Transformation::Rotate90 => {},
        Transformation::Rotate180 => {},
        Transformation::Rotate270 => {},
        Transformation::ReflectHorizontal => {},
        Transformation::ReflectVertical => {},
        Transformation::ReflectDiagonalMain => {},
        Transformation::ReflectDiagonalAnti => {},
    }
}

#[verifier::spinoff_prover]
proof fn lemma_perm_compose_9(g: Transformation, t: Transformation)
    ensures
        compose(g, t).perm_spec()[9] == g.perm_spec()[t.perm_spec()[9] as int],
{
    match g {
        Transformation::Identity => {},
        Transformation::Rotate90 => {},
        Transformation::Rotate180 => {},
        Transformation::Rotate270 => {},
        Transformation::ReflectHorizontal => {},
        Transformation::ReflectVertical => {},
        Transformation::ReflectDiagonalMain => {},
        Transformation::ReflectDiagonalAnti => {},
    }
}

#[verifier::spinoff_prover]
proof fn lemma_perm_compose_10(g: Transformation, t: Transformation)
    ensures
        compose(g, t).perm_spec()[10] == g.perm_spec()[t.perm_spec()[10] as int],
{
    match g {
        Transformation::Identity => {},
        Transformation::Rotate90 => {},
        Transformation::Rotate180 => {},
        Transformation::Rotate270 => {},
        Transformation::ReflectHorizontal => {},
        Transformation::ReflectVertical => {},
        Transformation::ReflectDiagonalMain => {},
        Transformation::ReflectDiagonalAnti => {},
    }
}

#[verifier::spinoff_prover]
proof fn lemma_perm_compose_11(g: Transformation, t: Transformation)
    ensures
        compose(g, t).perm_spec()[11] == g.perm_spec()[t.perm_spec()[11] as int],
{
    match g {
        Transformation::Identity => {},
        Transformation::Rotate90 => {},
        Transformation::Rotate180 => {},
        Transformation::Rotate270 => {},
        Transformation::ReflectHorizontal => {},
        Transformation::ReflectVertical => {},
        Transformation::ReflectDiagonalMain => {},
        Transformation::ReflectDiagonalAnti => {},
    }
}

#[verifier::spinoff_prover]
proof fn lemma_perm_compose_12(g: Transformation, t: Transformation)
    ensures
        compose(g, t).perm_spec()[12] == g.perm_spec()[t.perm_spec()[12] as int],
{
    match g {
        Transformation::Identity => {},
        Transformation::Rotate90 => {},
        Transformation::Rotate180 => {},
        Transformation::Rotate270 => {},
        Transformation::ReflectHorizontal => {},
        Transformation::ReflectVertical => {},
        Transformation::ReflectDiagonalMain => {},
        Transformation::ReflectDiagonalAnti => {},
    }
}

#[verifier::spinoff_prover]
proof fn lemma_perm_compose_13(g: Transformation, t: Transformation)
    ensures
        compose(g, t).perm_spec()[13] == g.perm_spec()[t.perm_spec()[13] as int],
{
    match g {
        Transformation::Identity => {},
        Transformation::Rotate90 => {},
        Transformation::Rotate180 => {},
        Transformation::Rotate270 => {},
        Transformation::ReflectHorizontal => {},
        Transformation::ReflectVertical => {},
        Transformation::ReflectDiagonalMain => {},
        Transformation::ReflectDiagonalAnti => {},
    }
}

#[verifier::spinoff_prover]
proof fn lemma_perm_compose_14(g: Transformation, t: Transformation)
    ensures
        compose(g, t).perm_spec()[14] == g.perm_spec()[t.perm_spec()[14] as int],
{
    match g {
        Transformation::Identity => {},
        Transformation::Rotate90 => {},
        Transformation::Rotate180 => {},
        Transformation::Rotate270 => {},
        Transformation::ReflectHorizontal => {},
        Transformation::ReflectVertical => {},
        Transformation::ReflectDiagonalMain => {},
        Transformation::ReflectDiagonalAnti => {},
    }
}

#[verifier::spinoff_prover]
proof fn lemma_perm_compose_15(g: Transformation, t: Transformation)
    ensures
        compose(g, t).perm_spec()[15] == g.perm_spec()[t.perm_spec()[15] as int],
{
    match g {
        Transformation::Identity => {},
        Transformation::Rotate90 => {},
        Transformation::Rotate180 => {},
        Transformation::Rotate270 => {},
        Transformation::ReflectHorizontal => {},
        Transformation::ReflectVertical => {},
        Transformation::ReflectDiagonalMain => {},
        Transformation::ReflectDiagonalAnti => {},
    }
}

proof fn lemma_perm_compose(g: Transformation, t: Transformation)
    ensures
        forall|i: int| 0 <= i < 16 ==> #[trigger] compose(g, t).perm_spec()[i] == g.perm_spec()[t.perm_spec()[i] as int],
{
    assert forall|i: int| 0 <= i < 16 implies #[trigger] compose(g, t).perm_spec()[i] == g.perm_spec()[t.perm_spec()[i] as int] by {
        if i == 0 {
            lemma_perm_compose_0(g, t);
        } else if i == 1 {
            lemma_perm_compose_1(g, t);
        } else if i == 2 {
            lemma_perm_compose_2(g, t);
        } else if i == 3 {
            lemma_perm_compose_3(g, t);
        } else if i == 4 {
            lemma_perm_compose_4(g, t);
        } else if i == 5 {
            lemma_perm_compose_5(g, t);
        } else if i == 6 {
            lemma_perm_compose_6(g, t);
        } else if i == 7 {
            lemma_perm_compose_7(g, t);
        } else if i == 8 {
            lemma_perm_compose_8(g, t);
        } else if i == 9 {
            lemma_perm_compose_9(g, t);
        } else if i == 10 {
            lemma_perm_compose_10(g, t);
        } else if i == 11 {
            lemma_perm_compose_11(g, t);
        } else if i == 12 {
            lemma_perm_compose_12(g, t);
        } else if i == 13 {
            lemma_perm_compose_13(g, t);
        } else if i == 14 {
            lemma_perm_compose_14(g, t);
        } else {
            lemma_perm_compose_15(g, t);
        }
    }
}

/// Transforming a mask by `g` and then by `t` is transforming it by their composition.
pub proof fn lemma_apply_u16_compose(x: u16, g: Transformation, t: Transformation)
    ensures
        apply_u16_spec(apply_u16_spec(x, g), t) == apply_u16_spec(x, compose(g, t)),
{
    let c = compose(g, t);
    lemma_perm_in_range(g);
    lemma_perm_in_range(t);
    lemma_perm_in_range(c);
    let y = apply_u16_spec(x, g);
    let z = apply_u16_spec(y, t);
    let w = apply_u16_spec(x, c);
    lemma_permute_bits(x, g.perm_spec(), 16);
    lemma_permute_bits(y, t.perm_spec(), 16);
    lemma_permute_bits(x, c.perm_spec(), 16);
    lemma_perm_compose(g, t);
    assert forall|s: u16| s < 16 implies (bit_set(z, s) <==> bit_set(w, s)) by {
        let p = t.perm_spec()[s as int] as u16;
        assert(bit_set(z, s) <==> bit_set(y, p));
        assert(bit_set(y, p) <==> bit_set(x, g.perm_spec()[p as int] as u16));
        assert(c.perm_spec()[s as int] == g.perm_spec()[p as int]);
    }
    lemma_bits_ext(z, w);
}

/// Transforming a board by `g` and then by `t` is transforming it by their composition.
pub proof fn lemma_apply_compose(b: Board, g: Transformation, t: Transformation)
    ensures
        apply_spec(apply_spec(b, g), t) == apply_spec(b, compose(g, t)),
{
    lemma_apply_u16_compose(b.occupancy, g, t);
    lemma_apply_u16_compose(b.attr(0), g, t);
    lemma_apply_u16_compose(b.attr(1), g, t);
    lemma_apply_u16_compose(b.attr(2), g, t);
    lemma_apply_u16_compose(b.attr(3), g, t);
    let r = apply_spec(apply_spec(b, g), t);
    assert(r.attribute_masks =~= apply_spec(b, compose(g, t)).attribute_masks);
}

/// Every symmetry `u` is `g` followed by some symmetry: the one that undoes
/// `g` and then does `u`.
#[verifier::spinoff_prover]
#[verifier::rlimit(60)]
pub proof fn lemma_compose_onto(g: Transformation, u: Transformation)
    ensures
        compose(g, compose(g.inverse_spec(), u)) == u,
{
}

/// The identity transformation leaves every mask as it is.
pub proof fn lemma_apply_identity(b: Board)
    ensures
        apply_spec(b, Transformation::Identity) == b,
{
    lemma_apply_inverse(b, Transformation::Identity);
    lemma_apply_compose(b, Transformation::Identity, Transformation::Identity);
}

} // verus!

verus! {

/// The empty and the full mask are their own images.
pub proof fn lemma_apply_empty_full(t: Transformation)
    ensures
        apply_u16_spec(0, t) == 0,
        apply_u16_spec(0xFFFF, t) == 0xFFFF,
{
    lemma_perm_in_range(t);
    lemma_permute_bits(0, t.perm_spec(), 16);
    lemma_permute_bits(0xFFFF, t.perm_spec(), 16);
    assert forall|s: u16| s < 16 implies !bit_set(0u16, s) && bit_set(0xFFFFu16, s) by {
        crate::bits::lemma_bits_u16(0, 0, s, 0);
    }
    lemma_bits_ext(apply_u16_spec(0, t), 0);
    lemma_bits_ext(apply_u16_spec(0xFFFF, t), 0xFFFF);
}

} // verus!

verus! {

proof fn lemma_xor_within_bits(x: u16, y: u16, s: u16)
    by (bit_vector)
    requires
        s < 16,
    ensures
        ((((x ^ y) as u16) >> s) & 1u16 == 1u16) <==> (((x >> s) & 1u16 == 1u16) != ((y >> s) & 1u16 == 1u16)),
        (((x & !y) as u16 >> s) & 1u16 == 1u16) <==> (((x >> s) & 1u16 == 1u16) && !((y >> s) & 1u16 == 1u16)),
{
}

/// A symmetry commutes with complementing within a mask: the image of
/// `y ^ x` is the image of `y` xor the image of `x`.
pub proof fn lemma_apply_xor(y: u16, x: u16, t: Transformation)
    ensures
        apply_u16_spec((y ^ x) as u16, t) == (apply_u16_spec(y, t) ^ apply_u16_spec(x, t)) as u16,
{
    let p = t.perm_spec();
    lemma_perm_in_range(t);
    let a = apply_u16_spec((y ^ x) as u16, t);
    let b = (apply_u16_spec(y, t) ^ apply_u16_spec(x, t)) as u16;
    lemma_permute_bits((y ^ x) as u16, p, 16);
    lemma_permute_bits(y, p, 16);
    lemma_permute_bits(x, p, 16);
    assert forall|s: u16| s < 16 implies (bit_set(a, s) <==> bit_set(b, s)) by {
        let q = p[s as int] as u16;
        assert(bit_set(a, s) <==> bit_set((y ^ x) as u16, q));
        assert(bit_set(apply_u16_spec(y, t), s) <==> bit_set(y, q));
        assert(bit_set(apply_u16_spec(x, t), s) <==> bit_set(x, q));
        lemma_xor_within_bits(y, x, q);
        lemma_xor_within_bits(apply_u16_spec(y, t), apply_u16_spec(x, t), s);
    }
    lemma_bits_ext(a, b);
}

/// A symmetry keeps a mask within another: images of masks within the
/// occupancy lie within the image of the occupancy.
pub proof fn lemma_apply_within(x: u16, occ: u16, t: Transformation)
    requires
        x & !occ == 0,
    ensures
        apply_u16_spec(x, t) & !apply_u16_spec(occ, t) == 0,
{
    let p = t.perm_spec();
    lemma_perm_in_range(t);
    let a = apply_u16_spec(x, t);
    let o = apply_u16_spec(occ, t);
    lemma_permute_bits(x, p, 16);
    lemma_permute_bits(occ, p, 16);
    let w = (a & !o) as u16;
    assert forall|s: u16| s < 16 implies !#[trigger] bit_set(w, s) by {
        let q = p[s as int] as u16;
        assert(bit_set(a, s) <==> bit_set(x, q));
        assert(bit_set(o, s) <==> bit_set(occ, q));
        lemma_xor_within_bits(x, occ, q);
        crate::bits::lemma_bits_u16(0, 0, q, 0);
        lemma_xor_within_bits(a, o, s);
    }
    crate::bits::lemma_no_bits_zero(w);
}

} // verus!
