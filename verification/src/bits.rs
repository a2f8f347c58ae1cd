//! Bit-level helpers on 16-bit square masks.

use vstd::prelude::*;

verus! {

/// Bit `i` (0..16) of `x` is set.
pub open spec fn bit_set(x: u16, i: u16) -> bool {
    (x >> i) & 1u16 == 1u16
}

/// The mask with only bit `i` set.
pub open spec fn single(i: u16) -> u16 {
    1u16 << i
}

/// The high byte of a 16-bit value.
pub open spec fn hi_byte(x: u16) -> u8 {
    (x >> 8u16) as u8
}

/// The low byte of a 16-bit value.
pub open spec fn lo_byte(x: u16) -> u8 {
    (x & 0xffu16) as u8
}

/// The 16-bit value with big-endian bytes `h`, `l`.
pub open spec fn be_u16(h: u8, l: u8) -> u16 {
    (((h as u16) << 8u16) | (l as u16)) as u16
}

/// Splits a 16-bit value into its big-endian bytes.
pub fn u16_to_be(x: u16) -> (r: [u8; 2])
    ensures
        r@ == seq![hi_byte(x), lo_byte(x)],
{
    let h = (x >> 8u16) as u8;
    let l = (x & 0xffu16) as u8;
    let r = [h, l];
    assert(r@ =~= seq![hi_byte(x), lo_byte(x)]);
    r
}

/// Joins two big-endian bytes into a 16-bit value.
pub fn u16_from_be(h: u8, l: u8) -> (r: u16)
    ensures
        r == be_u16(h, l),
{
    ((h as u16) << 8u16) | (l as u16)
}

/// Splitting into bytes and joining them back gives the value again.
pub proof fn lemma_be_roundtrip(x: u16)
    by (bit_vector)
    ensures
        be_u16(hi_byte(x), lo_byte(x)) == x,
{
}

/// Joining two bytes and splitting the result gives the bytes again.
pub proof fn lemma_be_split(h: u8, l: u8)
    by (bit_vector)
    ensures
        hi_byte(be_u16(h, l)) == h,
        lo_byte(be_u16(h, l)) == l,
{
}

} // verus!

verus! {

/// Number of set bits among bits `0..n` of `x`.
pub open spec fn popcount_upto(x: u16, n: nat) -> nat
    decreases n,
{
    if n == 0 {
        0
    } else {
        popcount_upto(x, (n - 1) as nat) + (if bit_set(x, (n - 1) as u16) { 1nat } else { 0nat })
    }
}

/// Number of set bits of `x`.
pub open spec fn popcount(x: u16) -> nat {
    popcount_upto(x, 16)
}

/// Counts the set bits of a 16-bit mask.
pub fn count_ones(x: u16) -> (r: u32)
    ensures
        r == popcount(x),
        r <= 16,
{
    let mut c: u32 = 0;
    let mut i: u16 = 0;
    while i < 16
        invariant
            i <= 16,
            c == popcount_upto(x, i as nat),
            c <= i,
        decreases 16 - i,
    {
        if (x >> i) & 1u16 == 1u16 {
            c = c + 1;
        }
        i = i + 1;
    }
    c
}

/// The lowest set bit of `x` as a mask (0 when `x` is 0).
pub open spec fn lowest_bit_spec(x: u16) -> u16 {
    (x & ((!x) as u16).wrapping_add(1u16)) as u16
}

/// The lowest set bit of `mask`, as a mask.
pub fn lowest_bit(mask: u16) -> (r: u16)
    ensures
        r == lowest_bit_spec(mask),
{
    mask & (!mask).wrapping_add(1u16)
}

proof fn lemma_lowest_bit_bv(x: u16, t: u16)
    by (bit_vector)
    requires
        t < 16,
        (x >> t) & 1u16 == 1u16,
        (x << ((16 - t) as u16)) == 0u16,
    ensures
        (x & (if (!x) as u16 == 0xffffu16 { 0u16 } else { ((!x) as u16 + 1) as u16 })) == (1u16 << t),
        x & (1u16 << t) == (1u16 << t),
        (x ^ (1u16 << t)) == x & !(1u16 << t),
        (x ^ (1u16 << t)) < x,
        (1u16 << t) != 0,
        ((x ^ (1u16 << t)) | (1u16 << t)) as u16 == x,
        (((x ^ (1u16 << t)) >> t) & 1u16) != 1u16,
{
}

/// The lowest set bit of a non-zero mask is `1 << trailing_zeros`, it is set
/// in the mask, and clearing it leaves a smaller mask.
pub proof fn lemma_lowest_bit(x: u16)
    requires
        x != 0,
    ensures
        lowest_bit_spec(x) == 1u16 << (x.trailing_zeros() as u16),
        lowest_bit_spec(x) != 0,
        x.trailing_zeros() < 16,
        bit_set(x, x.trailing_zeros() as u16),
        x & lowest_bit_spec(x) == lowest_bit_spec(x),
        (x ^ lowest_bit_spec(x)) as u16 == x & !lowest_bit_spec(x),
        (x ^ lowest_bit_spec(x)) < x,
        forall|j: u16| j < x.trailing_zeros() ==> !bit_set(x, j),
        ((x ^ lowest_bit_spec(x)) as u16 | lowest_bit_spec(x)) as u16 == x,
        !bit_set((x ^ lowest_bit_spec(x)) as u16, x.trailing_zeros() as u16),
{
    vstd::std_specs::bits::axiom_u16_trailing_zeros(x);
    let t = x.trailing_zeros() as u16;
    let w = ((!x) as u16).wrapping_add(1u16);
    assert(w == ((!x) as u16 + 1) % 0x10000);
    assert(((!x) as u16).wrapping_add(1u16) == (if (!x) as u16 == 0xffffu16 { 0u16 } else { ((!x) as u16 + 1) as u16 }));
    lemma_lowest_bit_bv(x, t);
    assert forall|j: u16| j < x.trailing_zeros() implies !bit_set(x, j) by {
        assert((x >> j) & 1u16 == 0u16);
    }
}

} // verus!

verus! {

/// The lowest set bit of a single-bit mask `1 << t` is bit `t`.
pub proof fn lemma_tz_single(t: u16)
    requires
        t < 16,
    ensures
        (1u16 << t).trailing_zeros() == t,
        1u16 << t != 0,
{
    let x = 1u16 << t;
    lemma_bits_u16(0, 0, t, t);
    vstd::std_specs::bits::axiom_u16_trailing_zeros(x);
    let k = x.trailing_zeros() as u16;
    lemma_bits_u16(0, 0, k, t);
}

/// The bits of `x | (1 << t)` are those of `x` plus bit `t`; the bits of
/// `x & !(1 << t)` are those of `x` without bit `t`.
pub proof fn lemma_set_clear_bit(x: u16, t: u16)
    requires
        t < 16,
    ensures
        forall|s: u16| s < 16 ==> (bit_set(x | (1u16 << t), s) <==> (bit_set(x, s) || s == t)),
        forall|s: u16| s < 16 ==> (bit_set(x & !(1u16 << t), s) <==> (bit_set(x, s) && s != t)),
{
    assert forall|s: u16| s < 16 implies (bit_set(x | (1u16 << t), s) <==> (bit_set(x, s) || s == t)) by {
        lemma_bits_u16(x, 0, s, t);
    }
    assert forall|s: u16| s < 16 implies (bit_set(x & !(1u16 << t), s) <==> (bit_set(x, s) && s != t)) by {
        lemma_bits_u16(x, 0, s, t);
    }
}

/// Bit `s` of `!x` is set exactly when bit `s` of `x` is not.
pub proof fn lemma_not_bit(x: u16)
    ensures
        forall|s: u16| s < 16 ==> (bit_set(!x, s) <==> !bit_set(x, s)),
{
    assert forall|s: u16| s < 16 implies (bit_set(!x, s) <==> !bit_set(x, s)) by {
        lemma_bits_u16(x, 0, s, 0);
    }
}

/// A mask with no bit set among 0..16 is zero.
pub proof fn lemma_no_bits_zero(x: u16)
    requires
        forall|s: u16| s < 16 ==> !bit_set(x, s),
    ensures
        x == 0,
{
    if x != 0 {
        lemma_lowest_bit(x);
    }
}

pub proof fn lemma_popcount_upto_le(x: u16, n: nat)
    ensures
        popcount_upto(x, n) <= n,
    decreases n,
{
    if n > 0 {
        lemma_popcount_upto_le(x, (n - 1) as nat);
    }
}

/// The empty mask has no set bit.
pub proof fn lemma_popcount_zero()
    ensures
        popcount(0u16) == 0,
{
    lemma_popcount_zero_upto(16);
}

proof fn lemma_popcount_zero_upto(n: nat)
    requires
        n <= 16,
    ensures
        popcount_upto(0u16, n) == 0,
    decreases n,
{
    if n > 0 {
        lemma_popcount_zero_upto((n - 1) as nat);
        lemma_bits_u16(0, 0, (n - 1) as u16, 0);
    }
}

/// Setting a bit that was clear adds one to the popcount.
pub proof fn lemma_popcount_set_bit(x: u16, t: u16)
    requires
        t < 16,
        !bit_set(x, t),
    ensures
        popcount(x | (1u16 << t)) == popcount(x) + 1,
        popcount(x) < 16,
{
    lemma_set_clear_bit(x, t);
    let y = (x | (1u16 << t)) as u16;
    assert forall|n: nat| n <= 16 implies #[trigger] popcount_upto(y, n) == popcount_upto(x, n) + (if t < n { 1nat } else { 0nat }) by {
        lemma_popcount_step(x, y, t, n);
    }
    lemma_popcount_upto_le(y, 16);
}

proof fn lemma_popcount_step(x: u16, y: u16, t: u16, n: nat)
    requires
        t < 16,
        n <= 16,
        forall|s: u16| s < 16 ==> (bit_set(y, s) <==> (bit_set(x, s) || s == t)),
        !bit_set(x, t),
    ensures
        popcount_upto(y, n) == popcount_upto(x, n) + (if t < n { 1nat } else { 0nat }),
    decreases n,
{
    if n > 0 {
        lemma_popcount_step(x, y, t, (n - 1) as nat);
        assert(bit_set(y, (n - 1) as u16) <==> (bit_set(x, (n - 1) as u16) || (n - 1) as u16 == t));
    }
}

/// The full mask has sixteen set bits.
pub proof fn lemma_popcount_full()
    ensures
        popcount(0xffffu16) == 16,
{
    assert forall|s: u16| s < 16 implies bit_set(0xffffu16, s) by {
        lemma_bits_u16(0, 0, s, 0);
    }
    lemma_popcount_all(0xffffu16, 16);
}

proof fn lemma_popcount_all(x: u16, n: nat)
    requires
        n <= 16,
        forall|s: u16| s < 16 ==> bit_set(x, s),
    ensures
        popcount_upto(x, n) == n,
    decreases n,
{
    if n > 0 {
        lemma_popcount_all(x, (n - 1) as nat);
        assert(bit_set(x, (n - 1) as u16));
    }
}

} // verus!

verus! {

/// Facts about bit `s` (and bit `t`) of 16-bit values.
pub proof fn lemma_bits_u16(x: u16, y: u16, s: u16, t: u16)
    by (bit_vector)
    requires
        s < 16,
        t < 16,
    ensures
        ((!x) >> s) & 1u16 == 1u16 <==> !((x >> s) & 1u16 == 1u16),
        (0u16 >> s) & 1u16 == 0u16,
        (0xffffu16 >> s) & 1u16 == 1u16,
        ((x & (1u16 << s)) != 0) == ((x >> s) & 1u16 == 1u16),
        (1u16 << s) != 0,
        (((x & y) >> s) & 1u16 == 1u16) <==> ((x >> s) & 1u16 == 1u16 && (y >> s) & 1u16 == 1u16),
        (((x | (1u16 << t)) >> s) & 1u16 == 1u16) <==> ((x >> s) & 1u16 == 1u16 || s == t),
        (((x & !(1u16 << t)) >> s) & 1u16 == 1u16) <==> ((x >> s) & 1u16 == 1u16 && s != t),
        ((1u16 << t) >> s) & 1u16 == 1u16 ==> s == t,
{
}

/// Identities of `^`, `|` and `!` on 16-bit values.
pub proof fn lemma_xor_u16(a: u16, b: u16, c: u16)
    by (bit_vector)
    ensures
        (a ^ 0u16) as u16 == a,
        (a | 0u16) as u16 == a,
        ((a ^ b) as u16 ^ c) as u16 == (a ^ (b ^ c) as u16) as u16,
        (!a) as u16 == 0u16 ==> a == 0xffffu16,
{
}

/// Splitting a 16-bit value into little-endian bytes and joining them gives it back.
pub proof fn lemma_le_split(v: u16)
    by (bit_vector)
    ensures
        ((((v & 0xffu16) as u8) as u16) | ((((v >> 8u16) as u8) as u16) << 8u16)) as u16 == v,
{
}

/// Masking never exceeds the mask.
pub proof fn lemma_and_le_u64(h: u64, m: u64)
    by (bit_vector)
    ensures
        h & m <= m,
{
}

/// Bounds of a power of two below 2^64.
pub proof fn lemma_pow2_u64(k: u64)
    by (bit_vector)
    requires
        k < 64,
    ensures
        1u64 <= (1u64 << k) <= 0x8000_0000_0000_0000u64,
        k < 63 ==> (1u64 << k) <= 0x4000_0000_0000_0000u64,
        k < 16 ==> (1u64 << k) <= 0x8000u64,
{
}

/// Packing a nibble `o` next to the other nibble of `x`, and reading nibbles back.
pub proof fn lemma_nibble_u8(x: u8, o: u8)
    by (bit_vector)
    requires
        o < 16,
    ensures
        x >> 4u8 < 16u8,
        x & 0x0fu8 < 16u8,
        (x >> 4u8) & 0x0fu8 == x >> 4u8,
        ((x & 0x0fu8) | (o << 4u8)) >> 4u8 == o,
        ((x & 0x0fu8) | (o << 4u8)) & 0x0fu8 == x & 0x0fu8,
        ((x & 0xf0u8) | o) & 0x0fu8 == o,
        ((x & 0xf0u8) | o) >> 4u8 == x >> 4u8,
        ((o << 4u8) as u8) >> 4u8 == o,
        ((o << 4u8) as u8) & 0x0fu8 == 0,
        (((o << 4u8) as u8) >> 4u8) & 0x0fu8 == o,
        (o * 16) as u8 == (o << 4u8) as u8,
        ((((o << 4u8) as u8) | (x & 0x0fu8)) as u8) >> 4u8 == o,
        ((((o << 4u8) as u8) | (x & 0x0fu8)) as u8) & 0x0fu8 == x & 0x0fu8,
        (((x >> 4u8) << 4u8) as u8 | (x & 0x0fu8)) as u8 == x,
        x & 0x0fu8 == 0 ==> ((x >> 4u8) << 4u8) as u8 == x,
        0u8 >> 4u8 == 0u8,
        0u8 & 0x0fu8 == 0u8,
        (256int) as u8 == 0u8,
        x < 16u8 ==> x & 0x0fu8 == x,
        (x & 0x0fu8) & 0x0fu8 == x & 0x0fu8,
{
}

/// The piece assembled from the attribute bits of a square is below 16.
pub proof fn lemma_piece_bits(a0: u16, a1: u16, a2: u16, a3: u16, sq: u16)
    by (bit_vector)
    ensures
        ((if a0 & sq != 0 { 1u8 } else { 0u8 }) | (if a1 & sq != 0 { 2u8 } else { 0u8 })
            | (if a2 & sq != 0 { 4u8 } else { 0u8 }) | (if a3 & sq != 0 { 8u8 } else { 0u8 })) < 16u8,
{
}

} // verus!

verus! {

/// Clearing the lowest set bit removes one from the popcount.
pub proof fn lemma_popcount_clear_lowest(x: u16)
    requires
        x != 0,
    ensures
        popcount((x ^ lowest_bit_spec(x)) as u16) + 1 == popcount(x),
{
    lemma_lowest_bit(x);
    let t = x.trailing_zeros() as u16;
    let y = (x ^ lowest_bit_spec(x)) as u16;
    lemma_popcount_set_bit(y, t);
}

} // verus!
