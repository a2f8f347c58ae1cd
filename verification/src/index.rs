//! Building a tablebase file: a minimal perfect hash (hash and displace) over
//! the records of one shard, with the 4-bit outcomes packed two per byte.

use vstd::prelude::*;
use bitvec::vec::BitVec;

verus! {

/// A fixed-length set of slots, held in a `bitvec` bit-vector.
#[verifier::external_body]
pub struct SlotBits {
    bits: BitVec,
}

/// The bits that a `SlotBits` holds.
pub uninterp spec fn slot_bits_view(v: SlotBits) -> Seq<bool>;

/// Calls `BitVec::repeat(false, len)`: `len` bits, all clear.
#[verifier::external_body]
fn bits_zeroed(len: usize) -> (r: SlotBits)
    requires
        len <= usize::MAX >> 3usize,
    ensures
        slot_bits_view(r) == Seq::new(len as nat, |i: int| false),
{
    SlotBits { bits: BitVec::repeat(false, len) }
}

/// Reads bit `i` (indexing the bit-vector).
#[verifier::external_body]
fn bits_get(v: &SlotBits, i: usize) -> (r: bool)
    requires
        i < slot_bits_view(*v).len(),
    ensures
        r == slot_bits_view(*v)[i as int],
{
    v.bits[i]
}

/// Calls `BitSlice::set(i, value)`: bit `i` becomes `value`, the others stay.
#[verifier::external_body]
fn bits_set(v: &mut SlotBits, i: usize, value: bool)
    requires
        i < slot_bits_view(*old(v)).len(),
    ensures
        slot_bits_view(*final(v)) == slot_bits_view(*old(v)).update(i as int, value),
{
    v.bits.set(i, value)
}

} // verus!

verus! {

/// The largest displacement tried for a bucket (14 bits).
pub const MAX_DISPLACEMENT: u16 = 16383;

/// The key of a record: its 11 bytes with the outcome nibble cleared.
pub open spec fn key_of(rec: [u8; 11]) -> Seq<u8> {
    rec@.update(10, rec@[10] & 0xf0u8)
}

/// The outcome a record carries in the low nibble of its last byte.
pub open spec fn outcome_of(rec: [u8; 11]) -> u8 {
    rec@[10] & 0x0fu8
}

/// The bucket of record `i`.
pub open spec fn bucket_idx(recs: Seq<[u8; 11]>, bmask: u64, i: int) -> u64 {
    crate::hashing::hash_bucket_spec(key_of(recs[i])) & bmask
}

/// The slot of record `i` under displacement `l`.
pub open spec fn slot_idx(recs: Seq<[u8; 11]>, smask: u64, i: int, l: u16) -> u64 {
    crate::hashing::hash_phi_spec(key_of(recs[i]), l as u64) & smask
}

/// How many of the first `n` records fall in bucket `b`.
pub open spec fn count_eq(recs: Seq<[u8; 11]>, bmask: u64, b: u64, n: int) -> nat
    decreases n,
{
    if n <= 0 {
        0
    } else {
        count_eq(recs, bmask, b, n - 1) + if bucket_idx(recs, bmask, n - 1) == b { 1nat } else { 0nat }
    }
}

/// How many of the first `n` records fall in a bucket below `b`.
pub open spec fn count_lt(recs: Seq<[u8; 11]>, bmask: u64, b: u64, n: int) -> nat
    decreases n,
{
    if n <= 0 {
        0
    } else {
        count_lt(recs, bmask, b, n - 1) + if bucket_idx(recs, bmask, n - 1) < b { 1nat } else { 0nat }
    }
}

/// The number of records in bucket `b`.
pub open spec fn bucket_size(recs: Seq<[u8; 11]>, bmask: u64, b: u64) -> nat {
    count_eq(recs, bmask, b, recs.len() as int)
}

/// Buckets are placed largest first, ties by bucket id.
pub open spec fn precedes(recs: Seq<[u8; 11]>, bmask: u64, c: u64, b: u64) -> bool {
    ||| bucket_size(recs, bmask, c) > bucket_size(recs, bmask, b)
    ||| (bucket_size(recs, bmask, c) == bucket_size(recs, bmask, b) && c < b)
}

/// Displacement `l` places bucket `b`: its records get distinct slots, none
/// of them a slot taken by a bucket placed before it (under `sig`).
pub open spec fn fits(recs: Seq<[u8; 11]>, bmask: u64, smask: u64, sig: Seq<u16>, b: u64, l: u16) -> bool {
    &&& forall|i: int, j: int|
        #![trigger slot_idx(recs, smask, i, l), slot_idx(recs, smask, j, l)]
        0 <= i < recs.len() && 0 <= j < recs.len() && i != j && bucket_idx(recs, bmask, i) == b
            && bucket_idx(recs, bmask, j) == b ==> slot_idx(recs, smask, i, l) != slot_idx(recs, smask, j, l)
    &&& forall|i: int, j: int|
        #![trigger slot_idx(recs, smask, i, l), bucket_idx(recs, bmask, j)]
        0 <= i < recs.len() && 0 <= j < recs.len() && bucket_idx(recs, bmask, i) == b
            && precedes(recs, bmask, bucket_idx(recs, bmask, j), b)
            ==> slot_idx(recs, smask, i, l) != slot_idx(recs, smask, j, sig[bucket_idx(recs, bmask, j) as int])
}

/// `sig[b]` is the smallest displacement that places bucket `b`.
pub open spec fn sigma_minimal(recs: Seq<[u8; 11]>, bmask: u64, smask: u64, sig: Seq<u16>, b: u64) -> bool {
    &&& sig[b as int] <= MAX_DISPLACEMENT
    &&& fits(recs, bmask, smask, sig, b, sig[b as int])
    &&& forall|l: u16| l < sig[b as int] ==> !#[trigger] fits(recs, bmask, smask, sig, b, l)
}

/// The displacement table of the index: minimal for every non-empty bucket, 0 for the others.
pub open spec fn sigma_valid(recs: Seq<[u8; 11]>, bmask: u64, smask: u64, sig: Seq<u16>) -> bool {
    &&& sig.len() == bmask + 1
    &&& forall|b: u64| #![trigger sig[b as int]] b <= bmask ==> if bucket_size(recs, bmask, b) > 0 {
        sigma_minimal(recs, bmask, smask, sig, b)
    } else {
        sig[b as int] == 0
    }
}

/// No displacement up to the limit places bucket `b`, once every bucket
/// before it has its minimal displacement.
pub open spec fn displacement_fails(recs: Seq<[u8; 11]>, bmask: u64, smask: u64, sig: Seq<u16>, b: u64) -> bool {
    &&& b <= bmask
    &&& bucket_size(recs, bmask, b) > 0
    &&& sig.len() == bmask + 1
    &&& forall|c: u64|
        #![trigger sig[c as int]]
        c <= bmask && bucket_size(recs, bmask, c) > 0 && precedes(recs, bmask, c, b)
            ==> sigma_minimal(recs, bmask, smask, sig, c)
    &&& forall|l: u16| l <= MAX_DISPLACEMENT ==> !#[trigger] fits(recs, bmask, smask, sig, b, l)
}

/// The 4-bit value of slot `s` in a packed table: the upper nibble for even slots.
pub open spec fn nibble(out: Seq<u8>, s: int) -> u8 {
    if s % 2 == 0 {
        (out[s / 2] >> 4u8) as u8
    } else {
        (out[s / 2] & 0x0fu8) as u8
    }
}

/// The slot of record `i` under the displacement of its bucket.
pub open spec fn record_slot(recs: Seq<[u8; 11]>, bmask: u64, smask: u64, sig: Seq<u16>, i: int) -> u64 {
    slot_idx(recs, smask, i, sig[bucket_idx(recs, bmask, i) as int])
}

/// The packed outcome table: each record's outcome in its slot, 0 elsewhere.
pub open spec fn outcomes_table(recs: Seq<[u8; 11]>, bmask: u64, smask: u64, sig: Seq<u16>, out: Seq<u8>) -> bool {
    &&& out.len() == (smask + 2) / 2
    &&& forall|i: int| 0 <= i < recs.len() ==> nibble(out, #[trigger] record_slot(recs, bmask, smask, sig, i) as int) == outcome_of(recs[i])
    &&& forall|s: int|
        0 <= s < 2 * out.len() && (forall|i: int| 0 <= i < recs.len() ==> #[trigger] record_slot(recs, bmask, smask, sig, i) != s)
            ==> #[trigger] nibble(out, s) == 0
}

} // verus!

verus! {

/// Extract the key portion from an 11-byte record by masking out the outcome bits.
pub fn record_to_key(record: &[u8; 11]) -> (r: [u8; 11])
    ensures
        r@ == key_of(*record),
{
    let mut key = *record;
    key[10] = key[10] & 0xF0u8;
    assert(key@ =~= key_of(*record));
    key
}

proof fn lemma_bucket_bound(recs: Seq<[u8; 11]>, bmask: u64, i: int)
    ensures
        bucket_idx(recs, bmask, i) <= bmask,
{
    let h = crate::hashing::hash_bucket_spec(key_of(recs[i]));
    crate::bits::lemma_and_le_u64(h, bmask);
}

proof fn lemma_count_eq_bound(recs: Seq<[u8; 11]>, bmask: u64, b: u64, n: int)
    ensures
        count_eq(recs, bmask, b, n) <= if n < 0 { 0 } else { n },
    decreases n,
{
    if n > 0 {
        lemma_count_eq_bound(recs, bmask, b, n - 1);
    }
}

proof fn lemma_count_lt_bound(recs: Seq<[u8; 11]>, bmask: u64, b: u64, n: int)
    ensures
        count_lt(recs, bmask, b, n) <= if n < 0 { 0 } else { n },
    decreases n,
{
    if n > 0 {
        lemma_count_lt_bound(recs, bmask, b, n - 1);
    }
}

/// `count_lt` steps by `count_eq` from one bucket to the next.
proof fn lemma_count_lt_step(recs: Seq<[u8; 11]>, bmask: u64, b: u64, n: int)
    requires
        b < u64::MAX,
    ensures
        count_lt(recs, bmask, (b + 1) as u64, n) == count_lt(recs, bmask, b, n) + count_eq(recs, bmask, b, n),
    decreases n,
{
    if n > 0 {
        lemma_count_lt_step(recs, bmask, b, n - 1);
    }
}

/// `count_lt` grows with the bucket bound.
proof fn lemma_count_lt_mono(recs: Seq<[u8; 11]>, bmask: u64, c: u64, b: u64, n: int)
    requires
        c <= b,
    ensures
        count_lt(recs, bmask, c, n) <= count_lt(recs, bmask, b, n),
    decreases n,
{
    if n > 0 {
        lemma_count_lt_mono(recs, bmask, c, b, n - 1);
    }
}

/// `count_eq` grows with the prefix.
proof fn lemma_count_eq_mono(recs: Seq<[u8; 11]>, bmask: u64, b: u64, m: int, n: int)
    requires
        m <= n,
    ensures
        count_eq(recs, bmask, b, m) <= count_eq(recs, bmask, b, n),
    decreases n - m,
{
    if m < n {
        lemma_count_eq_mono(recs, bmask, b, m, n - 1);
    }
}

/// All records fall in buckets up to the mask.
proof fn lemma_count_lt_all(recs: Seq<[u8; 11]>, bmask: u64, n: int)
    requires
        bmask < u64::MAX,
    ensures
        count_lt(recs, bmask, (bmask + 1) as u64, n) == if n < 0 { 0 } else { n },
    decreases n,
{
    if n > 0 {
        lemma_count_lt_all(recs, bmask, n - 1);
        lemma_bucket_bound(recs, bmask, n - 1);
    }
}

/// Keys and buckets of all records.
fn bucket_keys(records: &Vec<[u8; 11]>, bmask: u64) -> (r: (Vec<[u8; 11]>, Vec<usize>))
    requires
        bmask <= usize::MAX,
    ensures
        r.0.len() == records.len(),
        r.1.len() == records.len(),
        forall|i: int| 0 <= i < records.len() ==> (#[trigger] r.0@[i])@ == key_of(records@[i]),
        forall|i: int| 0 <= i < records.len() ==> #[trigger] r.1@[i] == bucket_idx(records@, bmask, i),
{
    let n = records.len();
    let mut keys: Vec<[u8; 11]> = Vec::new();
    let mut buckets: Vec<usize> = Vec::new();
    let mut i: usize = 0;
    while i < n
        invariant
            i <= n,
            n == records.len(),
            bmask <= usize::MAX,
            keys.len() == i,
            buckets.len() == i,
            forall|j: int| 0 <= j < i ==> (#[trigger] keys@[j])@ == key_of(records@[j]),
            forall|j: int| 0 <= j < i ==> #[trigger] buckets@[j] == bucket_idx(records@, bmask, j),
        decreases n - i,
    {
        let key = record_to_key(&records[i]);
        let h = crate::hashing::hash_bucket_bytes(&key);
        let b = h & bmask;
        proof {
            crate::bits::lemma_and_le_u64(h, bmask);
        }
        keys.push(key);
        buckets.push(b as usize);
        i = i + 1;
    }
    (keys, buckets)
}

fn zeros_usize(n: usize) -> (r: Vec<usize>)
    ensures
        r@ == Seq::new(n as nat, |i: int| 0usize),
{
    let mut v: Vec<usize> = Vec::new();
    let mut i: usize = 0;
    while i < n
        invariant
            i <= n,
            v@ == Seq::new(i as nat, |k: int| 0usize),
        decreases n - i,
    {
        v.push(0);
        i = i + 1;
        assert(v@ =~= Seq::new(i as nat, |k: int| 0usize));
    }
    v
}

/// Number of records per bucket.
fn bucket_counts(buckets: &Vec<usize>, nb: usize, Ghost(recs): Ghost<Seq<[u8; 11]>>, Ghost(bmask): Ghost<u64>) -> (r: Vec<usize>)
    requires
        nb == bmask + 1,
        buckets.len() == recs.len(),
        forall|i: int| 0 <= i < recs.len() ==> #[trigger] buckets@[i] == bucket_idx(recs, bmask, i),
    ensures
        r.len() == nb,
        forall|b: int| 0 <= b < nb ==> #[trigger] r@[b] == bucket_size(recs, bmask, b as u64),
{
    let n = buckets.len();
    let mut counts = zeros_usize(nb);
    let mut i: usize = 0;
    while i < n
        invariant
            i <= n,
            n == recs.len(),
            nb == bmask + 1,
            buckets.len() == recs.len(),
            forall|j: int| 0 <= j < recs.len() ==> #[trigger] buckets@[j] == bucket_idx(recs, bmask, j),
            counts.len() == nb,
            forall|b: int| 0 <= b < nb ==> #[trigger] counts@[b] == count_eq(recs, bmask, b as u64, i as int),
        decreases n - i,
    {
        let b = buckets[i];
        proof {
            lemma_bucket_bound(recs, bmask, i as int);
            lemma_count_eq_bound(recs, bmask, b as u64, i as int);
        }
        let c = counts[b];
        counts.set(b, c + 1);
        i = i + 1;
        assert forall|b2: int| 0 <= b2 < nb implies #[trigger] counts@[b2] == count_eq(recs, bmask, b2 as u64, i as int) by {
            assert(count_eq(recs, bmask, b2 as u64, i as int) == count_eq(recs, bmask, b2 as u64, i - 1) + if bucket_idx(recs, bmask, i - 1) == b2 as u64 { 1nat } else { 0nat });
        }
    }
    counts
}

} // verus!

verus! {

/// The position of record `j` once the records are grouped by bucket, in
/// bucket order and, within a bucket, in record order.
pub open spec fn rank_pos(recs: Seq<[u8; 11]>, bmask: u64, j: int) -> int {
    (count_lt(recs, bmask, bucket_idx(recs, bmask, j), recs.len() as int) + count_eq(recs, bmask, bucket_idx(recs, bmask, j), j)) as int
}

/// The first position of bucket `b` in the grouped order.
pub open spec fn seg_start(recs: Seq<[u8; 11]>, bmask: u64, b: u64) -> int {
    count_lt(recs, bmask, b, recs.len() as int) as int
}

proof fn lemma_rank_in_segment(recs: Seq<[u8; 11]>, bmask: u64, j: int)
    requires
        0 <= j < recs.len(),
        bmask < u64::MAX,
    ensures
        seg_start(recs, bmask, bucket_idx(recs, bmask, j)) <= rank_pos(recs, bmask, j),
        rank_pos(recs, bmask, j) < seg_start(recs, bmask, bucket_idx(recs, bmask, j)) + bucket_size(recs, bmask, bucket_idx(recs, bmask, j)),
        seg_start(recs, bmask, bucket_idx(recs, bmask, j)) + bucket_size(recs, bmask, bucket_idx(recs, bmask, j)) <= recs.len(),
{
    let b = bucket_idx(recs, bmask, j);
    let n = recs.len() as int;
    lemma_bucket_bound(recs, bmask, j);
    lemma_count_eq_mono(recs, bmask, b, j + 1, n);
    lemma_bucket_end(recs, bmask, b);
}

proof fn lemma_bucket_end(recs: Seq<[u8; 11]>, bmask: u64, b: u64)
    requires
        b <= bmask,
        bmask < u64::MAX,
    ensures
        seg_start(recs, bmask, b) + bucket_size(recs, bmask, b) == seg_start(recs, bmask, (b + 1) as u64),
        seg_start(recs, bmask, (b + 1) as u64) <= recs.len(),
{
    let n = recs.len() as int;
    lemma_count_lt_step(recs, bmask, b, n);
    lemma_count_lt_mono(recs, bmask, (b + 1) as u64, (bmask + 1) as u64, n);
    lemma_count_lt_all(recs, bmask, n);
}

proof fn lemma_segments_disjoint(recs: Seq<[u8; 11]>, bmask: u64, c: u64, b: u64)
    requires
        c < b,
        b <= bmask,
        bmask < u64::MAX,
    ensures
        seg_start(recs, bmask, c) + bucket_size(recs, bmask, c) <= seg_start(recs, bmask, b),
{
    lemma_bucket_end(recs, bmask, c);
    lemma_count_lt_mono(recs, bmask, (c + 1) as u64, b, recs.len() as int);
}

proof fn lemma_count_lt_zero(recs: Seq<[u8; 11]>, bmask: u64, n: int)
    ensures
        count_lt(recs, bmask, 0, n) == 0,
    decreases n,
{
    if n > 0 {
        lemma_count_lt_zero(recs, bmask, n - 1);
    }
}

/// Start of each bucket's run in the grouped order.
fn bucket_offsets(counts: &Vec<usize>, Ghost(recs): Ghost<Seq<[u8; 11]>>, Ghost(bmask): Ghost<u64>) -> (r: Vec<usize>)
    requires
        counts.len() == bmask + 1,
        bmask < u64::MAX,
        recs.len() <= usize::MAX,
        forall|b: int| 0 <= b <= bmask ==> #[trigger] counts@[b] == bucket_size(recs, bmask, b as u64),
    ensures
        r.len() == counts.len(),
        forall|b: int| 0 <= b <= bmask ==> #[trigger] r@[b] == seg_start(recs, bmask, b as u64),
{
    let nb = counts.len();
    let mut offsets: Vec<usize> = Vec::new();
    let mut cum: usize = 0;
    let mut b: usize = 0;
    proof {
        lemma_count_lt_zero(recs, bmask, recs.len() as int);
    }
    while b < nb
        invariant
            b <= nb,
            nb == counts.len(),
            counts.len() == bmask + 1,
            bmask < u64::MAX,
            recs.len() <= usize::MAX,
            forall|c: int| 0 <= c <= bmask ==> #[trigger] counts@[c] == bucket_size(recs, bmask, c as u64),
            offsets.len() == b,
            cum == seg_start(recs, bmask, b as u64),
            forall|c: int| 0 <= c < b ==> #[trigger] offsets@[c] == seg_start(recs, bmask, c as u64),
        decreases nb - b,
    {
        offsets.push(cum);
        proof {
            lemma_bucket_end(recs, bmask, b as u64);
        }
        cum = cum + counts[b];
        b = b + 1;
    }
    offsets
}

/// Record indices grouped by bucket (a stable counting sort).
fn group_by_bucket(buckets: &Vec<usize>, offsets: &Vec<usize>, Ghost(recs): Ghost<Seq<[u8; 11]>>, Ghost(bmask): Ghost<u64>) -> (r: Vec<usize>)
    requires
        bmask < u64::MAX,
        offsets.len() == bmask + 1,
        buckets.len() == recs.len(),
        forall|i: int| 0 <= i < recs.len() ==> #[trigger] buckets@[i] == bucket_idx(recs, bmask, i),
        forall|b: int| 0 <= b <= bmask ==> #[trigger] offsets@[b] == seg_start(recs, bmask, b as u64),
    ensures
        r.len() == recs.len(),
        forall|j: int| 0 <= j < recs.len() ==> r@[#[trigger] rank_pos(recs, bmask, j)] == j,
        forall|b: u64, k: int|
            #![trigger seg_start(recs, bmask, b), r@[k]]
            b <= bmask && seg_start(recs, bmask, b) <= k < seg_start(recs, bmask, b) + bucket_size(recs, bmask, b)
                ==> r@[k] < recs.len() && bucket_idx(recs, bmask, r@[k] as int) == b && rank_pos(recs, bmask, r@[k] as int) == k,
{
    let n = buckets.len();
    let mut perm = zeros_usize(n);
    let mut cursor: Vec<usize> = Vec::new();
    let nb = offsets.len();
    let mut c: usize = 0;
    while c < nb
        invariant
            c <= nb,
            nb == offsets.len(),
            cursor@ == offsets@.subrange(0, c as int),
        decreases nb - c,
    {
        cursor.push(offsets[c]);
        c = c + 1;
        assert(cursor@ =~= offsets@.subrange(0, c as int));
    }
    assert(cursor@ =~= offsets@);
    let mut i: usize = 0;
    while i < n
        invariant
            i <= n,
            n == recs.len(),
            bmask < u64::MAX,
            nb == bmask + 1,
            perm.len() == n,
            cursor.len() == nb,
            buckets.len() == recs.len(),
            forall|j: int| 0 <= j < recs.len() ==> #[trigger] buckets@[j] == bucket_idx(recs, bmask, j),
            forall|b: int| 0 <= b <= bmask ==> #[trigger] cursor@[b] == seg_start(recs, bmask, b as u64) + count_eq(recs, bmask, b as u64, i as int),
            forall|j: int| 0 <= j < i ==> perm@[#[trigger] rank_pos(recs, bmask, j)] == j,
            forall|b: u64, k: int|
                #![trigger seg_start(recs, bmask, b), perm@[k]]
                b <= bmask && seg_start(recs, bmask, b) <= k < seg_start(recs, bmask, b) + count_eq(recs, bmask, b, i as int)
                    ==> perm@[k] < i && bucket_idx(recs, bmask, perm@[k] as int) == b && rank_pos(recs, bmask, perm@[k] as int) == k,
        decreases n - i,
    {
        let b = buckets[i];
        let ghost bb = b as u64;
        proof {
            lemma_bucket_bound(recs, bmask, i as int);
            lemma_rank_in_segment(recs, bmask, i as int);
        }
        let p = cursor[b];
        assert(p == rank_pos(recs, bmask, i as int));
        let ghost old_perm = perm@;
        perm.set(p, i);
        cursor.set(b, p + 1);
        let ghost i0 = i as int;
        i = i + 1;
        proof {
            assert forall|j: int| 0 <= j < i implies perm@[#[trigger] rank_pos(recs, bmask, j)] == j by {
                if j < i0 {
                    let bj = bucket_idx(recs, bmask, j);
                    lemma_rank_in_segment(recs, bmask, j);
                    lemma_bucket_bound(recs, bmask, j);
                    if bj == bb {
                        lemma_count_eq_mono(recs, bmask, bb, j + 1, i0);
                    } else if bj < bb {
                        lemma_segments_disjoint(recs, bmask, bj, bb);
                    } else {
                        lemma_segments_disjoint(recs, bmask, bb, bj);
                    }
                    assert(rank_pos(recs, bmask, j) != p);
                }
            }
            assert forall|b2: u64, k: int|
                #![trigger seg_start(recs, bmask, b2), perm@[k]]
                b2 <= bmask && seg_start(recs, bmask, b2) <= k < seg_start(recs, bmask, b2) + count_eq(recs, bmask, b2, i as int)
                implies perm@[k] < i && bucket_idx(recs, bmask, perm@[k] as int) == b2 && rank_pos(recs, bmask, perm@[k] as int) == k by {
                assert(count_eq(recs, bmask, b2, i as int) == count_eq(recs, bmask, b2, i0) + if bucket_idx(recs, bmask, i0) == b2 { 1nat } else { 0nat });
                lemma_bucket_end(recs, bmask, b2);
                lemma_count_eq_mono(recs, bmask, b2, i as int, n as int);
                if k == p {
                    if b2 != bb {
                        lemma_count_eq_mono(recs, bmask, b2, i0, n as int);
                        if b2 < bb {
                            lemma_segments_disjoint(recs, bmask, b2, bb);
                        } else {
                            lemma_segments_disjoint(recs, bmask, bb, b2);
                        }
                    }
                } else {
                    assert(perm@[k] == old_perm[k]);
                }
            }
        }
    }
    proof {
        assert forall|b: u64, k: int|
            #![trigger seg_start(recs, bmask, b), perm@[k]]
            b <= bmask && seg_start(recs, bmask, b) <= k < seg_start(recs, bmask, b) + bucket_size(recs, bmask, b)
            implies perm@[k] < recs.len() && bucket_idx(recs, bmask, perm@[k] as int) == b && rank_pos(recs, bmask, perm@[k] as int) == k by {
            assert(count_eq(recs, bmask, b, n as int) == bucket_size(recs, bmask, b));
        }
    }
    perm
}

} // verus!

verus! {

/// The records of bucket `b` get distinct slots under `l`, none of them set in `occ`.
pub open spec fn fits_occ(recs: Seq<[u8; 11]>, bmask: u64, smask: u64, b: u64, l: u16, occ: Seq<bool>) -> bool {
    &&& forall|i: int, j: int|
        #![trigger slot_idx(recs, smask, i, l), slot_idx(recs, smask, j, l)]
        0 <= i < recs.len() && 0 <= j < recs.len() && i != j && bucket_idx(recs, bmask, i) == b
            && bucket_idx(recs, bmask, j) == b ==> slot_idx(recs, smask, i, l) != slot_idx(recs, smask, j, l)
    &&& forall|i: int|
        0 <= i < recs.len() && bucket_idx(recs, bmask, i) == b ==> !occ[#[trigger] slot_idx(recs, smask, i, l) as int]
}

/// What `group_by_bucket` establishes about the grouped order.
pub open spec fn grouped(recs: Seq<[u8; 11]>, bmask: u64, perm: Seq<usize>) -> bool {
    &&& perm.len() == recs.len()
    &&& forall|j: int| 0 <= j < recs.len() ==> perm[#[trigger] rank_pos(recs, bmask, j)] == j
    &&& forall|b: u64, k: int|
        #![trigger seg_start(recs, bmask, b), perm[k]]
        b <= bmask && seg_start(recs, bmask, b) <= k < seg_start(recs, bmask, b) + bucket_size(recs, bmask, b)
            ==> perm[k] < recs.len() && bucket_idx(recs, bmask, perm[k] as int) == b && rank_pos(recs, bmask, perm[k] as int) == k
}

/// Try displacement `l` for the bucket whose records are `perm[start..start + size]`:
/// mark their slots in `cand` (listed in the result) as long as none is taken.
fn try_displacement(
    keys: &Vec<[u8; 11]>,
    perm: &Vec<usize>,
    start: usize,
    size: usize,
    l: u16,
    smask: u64,
    occupied: &SlotBits,
    cand: &mut SlotBits,
    Ghost(recs): Ghost<Seq<[u8; 11]>>,
    Ghost(bmask): Ghost<u64>,
    Ghost(b): Ghost<u64>,
) -> (r: (bool, Vec<usize>))
    requires
        bmask < u64::MAX,
        b <= bmask,
        keys.len() == recs.len(),
        forall|j: int| 0 <= j < recs.len() ==> (#[trigger] keys@[j])@ == key_of(recs[j]),
        grouped(recs, bmask, perm@),
        start == seg_start(recs, bmask, b),
        size == bucket_size(recs, bmask, b),
        smask < usize::MAX,
        slot_bits_view(*occupied).len() == smask + 1,
        slot_bits_view(*old(cand)).len() == smask + 1,
        forall|s: int| 0 <= s <= smask ==> !#[trigger] slot_bits_view(*old(cand))[s],
    ensures
        r.0 == fits_occ(recs, bmask, smask, b, l, slot_bits_view(*occupied)),
        slot_bits_view(*final(cand)).len() == smask + 1,
        forall|s: usize| s <= smask ==> (#[trigger] slot_bits_view(*final(cand))[s as int] <==> r.1@.contains(s)),
        forall|t: int| 0 <= t < r.1.len() ==> #[trigger] r.1@[t] <= smask,
        r.0 ==> forall|s: usize| s <= smask ==> (#[trigger] r.1@.contains(s) <==> exists|i: int| 0 <= i < recs.len()
            && bucket_idx(recs, bmask, i) == b && #[trigger] slot_idx(recs, smask, i, l) == s),
{
    let ghost n = recs.len() as int;
    let mut list: Vec<usize> = Vec::new();
    let mut m: usize = 0;
    proof {
        lemma_bucket_end(recs, bmask, b);
    }
    while m < size
        invariant
            m <= size,
            bmask < u64::MAX,
            b <= bmask,
            keys.len() == recs.len(),
            forall|j: int| 0 <= j < recs.len() ==> (#[trigger] keys@[j])@ == key_of(recs[j]),
            grouped(recs, bmask, perm@),
            start == seg_start(recs, bmask, b),
            size == bucket_size(recs, bmask, b),
            start + size <= recs.len(),
            smask < usize::MAX,
            forall|t: int| 0 <= t < m ==> #[trigger] list@[t] <= smask,
            slot_bits_view(*occupied).len() == smask + 1,
            slot_bits_view(*cand).len() == smask + 1,
            list.len() == m,
            forall|t: int| 0 <= t < m ==> #[trigger] list@[t] == slot_idx(recs, smask, perm@[start + t] as int, l),
            forall|t: int| 0 <= t < m ==> !slot_bits_view(*occupied)[#[trigger] list@[t] as int],
            forall|t1: int, t2: int| 0 <= t1 < m && 0 <= t2 < m && t1 != t2 ==> #[trigger] list@[t1] != #[trigger] list@[t2],
            forall|s: usize| s <= smask ==> (#[trigger] slot_bits_view(*cand)[s as int] <==> list@.contains(s)),
        decreases size - m,
    {
        let k = start + m;
        let j = perm[k];
        proof {
            assert(seg_start(recs, bmask, b) <= k < seg_start(recs, bmask, b) + bucket_size(recs, bmask, b));
            assert(perm@[k as int] < recs.len());
        }
        let h = crate::hashing::hash_phi_bytes(&keys[j], l as u64);
        let s64 = h & smask;
        proof {
            crate::bits::lemma_and_le_u64(h, smask);
        }
        let s = s64 as usize;
        assert(s == slot_idx(recs, smask, j as int, l));
        let taken = bits_get(occupied, s);
        let seen = bits_get(cand, s);
        if taken || seen {
            proof {
                assert(bucket_idx(recs, bmask, j as int) == b);
                if taken {
                    assert(slot_bits_view(*occupied)[slot_idx(recs, smask, j as int, l) as int]);
                } else {
                    assert(list@.contains(s));
                    let t = choose|t: int| 0 <= t < list.len() && list@[t] == s;
                    let j2 = perm@[start + t] as int;
                    assert(seg_start(recs, bmask, b) <= start + t < seg_start(recs, bmask, b) + bucket_size(recs, bmask, b));
                    assert(rank_pos(recs, bmask, j2) == start + t);
                    assert(rank_pos(recs, bmask, j as int) == k);
                    assert(j2 != j);
                    assert(slot_idx(recs, smask, j2, l) == slot_idx(recs, smask, j as int, l));
                }
            }
            return (false, list);
        }
        let ghost old_list = list@;
        let ghost old_cand = slot_bits_view(*cand);
        bits_set(cand, s, true);
        list.push(s);
        m = m + 1;
        proof {
            assert(list@ == old_list.push(s));
            assert forall|s2: usize| s2 <= smask implies (#[trigger] slot_bits_view(*cand)[s2 as int] <==> list@.contains(s2)) by {
                if list@.contains(s2) {
                    let t = choose|t: int| 0 <= t < list.len() && list@[t] == s2;
                    if t < m - 1 {
                        assert(old_list[t] == s2);
                        assert(old_list.contains(s2));
                    }
                }
                if old_list.contains(s2) {
                    let t = choose|t: int| 0 <= t < old_list.len() && old_list[t] == s2;
                    assert(list@[t] == s2);
                }
                if s2 == s {
                    assert(list@[m - 1] == s);
                }
            }
        }
    }
    proof {
        assert forall|i: int, j: int|
            #![trigger slot_idx(recs, smask, i, l), slot_idx(recs, smask, j, l)]
            0 <= i < recs.len() && 0 <= j < recs.len() && i != j && bucket_idx(recs, bmask, i) == b
                && bucket_idx(recs, bmask, j) == b implies slot_idx(recs, smask, i, l) != slot_idx(recs, smask, j, l) by {
            lemma_rank_in_segment(recs, bmask, i);
            lemma_rank_in_segment(recs, bmask, j);
            let ti = rank_pos(recs, bmask, i) - start;
            let tj = rank_pos(recs, bmask, j) - start;
            assert(perm@[rank_pos(recs, bmask, i)] == i);
            assert(perm@[rank_pos(recs, bmask, j)] == j);
            assert(list@[ti] != list@[tj]);
        }
        assert forall|i: int| 0 <= i < recs.len() && bucket_idx(recs, bmask, i) == b
            implies !slot_bits_view(*occupied)[#[trigger] slot_idx(recs, smask, i, l) as int] by {
            lemma_rank_in_segment(recs, bmask, i);
            let ti = rank_pos(recs, bmask, i) - start;
            assert(perm@[rank_pos(recs, bmask, i)] == i);
            assert(list@[ti] == slot_idx(recs, smask, i, l));
        }
        assert forall|s: usize| s <= smask implies (#[trigger] list@.contains(s) <==> exists|i: int| 0 <= i < recs.len()
            && bucket_idx(recs, bmask, i) == b && #[trigger] slot_idx(recs, smask, i, l) == s) by {
            if list@.contains(s) {
                let t = choose|t: int| 0 <= t < list.len() && list@[t] == s;
                let i = perm@[start + t] as int;
                assert(seg_start(recs, bmask, b) <= start + t < seg_start(recs, bmask, b) + bucket_size(recs, bmask, b));
                assert(slot_idx(recs, smask, i, l) == s);
            }
            if exists|i: int| 0 <= i < recs.len() && bucket_idx(recs, bmask, i) == b && #[trigger] slot_idx(recs, smask, i, l) == s {
                let i = choose|i: int| 0 <= i < recs.len() && bucket_idx(recs, bmask, i) == b && #[trigger] slot_idx(recs, smask, i, l) == s;
                lemma_rank_in_segment(recs, bmask, i);
                let ti = rank_pos(recs, bmask, i) - start;
                assert(perm@[rank_pos(recs, bmask, i)] == i);
                assert(list@[ti] == s);
            }
        }
    }
    (true, list)
}

} // verus!

verus! {

/// Clear the listed bits, which are all the bits set.
fn clear_marks(cand: &mut SlotBits, list: &Vec<usize>, Ghost(smask): Ghost<u64>)
    requires
        slot_bits_view(*old(cand)).len() == smask + 1,
        forall|t: int| 0 <= t < list.len() ==> #[trigger] list@[t] <= smask,
        smask < usize::MAX,
        forall|s: usize| s <= smask ==> (#[trigger] slot_bits_view(*old(cand))[s as int] <==> list@.contains(s)),
    ensures
        slot_bits_view(*final(cand)).len() == smask + 1,
        forall|s: int| 0 <= s <= smask ==> !#[trigger] slot_bits_view(*final(cand))[s],
{
    let mut idx: usize = 0;
    assert forall|s: int| 0 <= s <= smask && #[trigger] slot_bits_view(*cand)[s]
        implies exists|t: int| idx <= t < list.len() && list@[t] == s by {
        assert(slot_bits_view(*cand)[(s as usize) as int]);
        assert(list@.contains(s as usize));
    }
    while idx < list.len()
        invariant
            idx <= list.len(),
            slot_bits_view(*cand).len() == smask + 1,
            forall|t: int| 0 <= t < list.len() ==> #[trigger] list@[t] <= smask,
            smask < usize::MAX,
            forall|s: int| 0 <= s <= smask && #[trigger] slot_bits_view(*cand)[s]
                ==> exists|t: int| idx <= t < list.len() && list@[t] == s,
        decreases list.len() - idx,
    {
        let s = list[idx];
        bits_set(cand, s, false);
        idx = idx + 1;
    }
}

/// Set the listed bits.
fn mark_slots(occ: &mut SlotBits, list: &Vec<usize>, Ghost(smask): Ghost<u64>)
    requires
        slot_bits_view(*old(occ)).len() == smask + 1,
        forall|t: int| 0 <= t < list.len() ==> #[trigger] list@[t] <= smask,
    ensures
        slot_bits_view(*final(occ)).len() == smask + 1,
        forall|s: usize| s <= smask ==> (#[trigger] slot_bits_view(*final(occ))[s as int]
            <==> slot_bits_view(*old(occ))[s as int] || list@.contains(s)),
{
    let ghost start = slot_bits_view(*occ);
    let mut idx: usize = 0;
    while idx < list.len()
        invariant
            idx <= list.len(),
            slot_bits_view(*occ).len() == smask + 1,
            start.len() == smask + 1,
            forall|t: int| 0 <= t < list.len() ==> #[trigger] list@[t] <= smask,
            forall|s: int| 0 <= s <= smask ==> (#[trigger] slot_bits_view(*occ)[s]
                <==> start[s] || exists|t: int| 0 <= t < idx && list@[t] == s),
        decreases list.len() - idx,
    {
        let s = list[idx];
        bits_set(occ, s, true);
        idx = idx + 1;
        assert forall|s2: int| 0 <= s2 <= smask implies (#[trigger] slot_bits_view(*occ)[s2]
            <==> start[s2] || exists|t: int| 0 <= t < idx && list@[t] == s2) by {
            if s2 == s {
                assert(list@[idx - 1] == s2);
            }
        }
    }
}

/// Find the smallest displacement up to the limit that places the bucket
/// whose records are `perm[start..start + size]`, and take its slots.
fn place_bucket(
    keys: &Vec<[u8; 11]>,
    perm: &Vec<usize>,
    start: usize,
    size: usize,
    smask: u64,
    occupied: &mut SlotBits,
    cand: &mut SlotBits,
    Ghost(recs): Ghost<Seq<[u8; 11]>>,
    Ghost(bmask): Ghost<u64>,
    Ghost(b): Ghost<u64>,
) -> (r: Option<u16>)
    requires
        bmask < u64::MAX,
        b <= bmask,
        keys.len() == recs.len(),
        forall|j: int| 0 <= j < recs.len() ==> (#[trigger] keys@[j])@ == key_of(recs[j]),
        grouped(recs, bmask, perm@),
        start == seg_start(recs, bmask, b),
        size == bucket_size(recs, bmask, b),
        smask < usize::MAX,
        slot_bits_view(*old(occupied)).len() == smask + 1,
        slot_bits_view(*old(cand)).len() == smask + 1,
        forall|s: int| 0 <= s <= smask ==> !#[trigger] slot_bits_view(*old(cand))[s],
    ensures
        slot_bits_view(*final(cand)).len() == smask + 1,
        forall|s: int| 0 <= s <= smask ==> !#[trigger] slot_bits_view(*final(cand))[s],
        slot_bits_view(*final(occupied)).len() == smask + 1,
        match r {
            Some(l) => {
                &&& l <= MAX_DISPLACEMENT
                &&& fits_occ(recs, bmask, smask, b, l, slot_bits_view(*old(occupied)))
                &&& forall|l2: u16| l2 < l ==> !#[trigger] fits_occ(recs, bmask, smask, b, l2, slot_bits_view(*old(occupied)))
                &&& forall|s: usize| s <= smask ==> (#[trigger] slot_bits_view(*final(occupied))[s as int]
                    <==> slot_bits_view(*old(occupied))[s as int] || exists|i: int| 0 <= i < recs.len()
                        && bucket_idx(recs, bmask, i) == b && #[trigger] slot_idx(recs, smask, i, l) == s)
            },
            None => {
                &&& forall|l2: u16| l2 <= MAX_DISPLACEMENT ==> !#[trigger] fits_occ(recs, bmask, smask, b, l2, slot_bits_view(*old(occupied)))
                &&& slot_bits_view(*final(occupied)) == slot_bits_view(*old(occupied))
            },
        },
{
    let ghost occ0 = slot_bits_view(*occupied);
    let mut l: u16 = 0;
    while l <= MAX_DISPLACEMENT
        invariant
            l <= MAX_DISPLACEMENT + 1,
            bmask < u64::MAX,
            b <= bmask,
            keys.len() == recs.len(),
            forall|j: int| 0 <= j < recs.len() ==> (#[trigger] keys@[j])@ == key_of(recs[j]),
            grouped(recs, bmask, perm@),
            start == seg_start(recs, bmask, b),
            size == bucket_size(recs, bmask, b),
            smask < usize::MAX,
            slot_bits_view(*occupied) == occ0,
            occ0 == slot_bits_view(*old(occupied)),
            occ0.len() == smask + 1,
            slot_bits_view(*cand).len() == smask + 1,
            forall|s: int| 0 <= s <= smask ==> !#[trigger] slot_bits_view(*cand)[s],
            forall|l2: u16| l2 < l ==> !#[trigger] fits_occ(recs, bmask, smask, b, l2, occ0),
        decreases MAX_DISPLACEMENT + 1 - l,
    {
        let (ok, list) = try_displacement(keys, perm, start, size, l, smask, occupied, cand, Ghost(recs), Ghost(bmask), Ghost(b));
        clear_marks(cand, &list, Ghost(smask));
        if ok {
            let ghost before = slot_bits_view(*occupied);
            mark_slots(occupied, &list, Ghost(smask));
            proof {
                assert forall|s: usize| s <= smask implies (#[trigger] slot_bits_view(*occupied)[s as int]
                    <==> occ0[s as int] || exists|i: int| 0 <= i < recs.len()
                        && bucket_idx(recs, bmask, i) == b && #[trigger] slot_idx(recs, smask, i, l) == s) by {
                    assert(slot_bits_view(*occupied)[s as int] <==> before[s as int] || list@.contains(s));
                    assert(list@.contains(s) <==> exists|i: int| 0 <= i < recs.len()
                        && bucket_idx(recs, bmask, i) == b && #[trigger] slot_idx(recs, smask, i, l) == s);
                }
                assert(l <= MAX_DISPLACEMENT);
                assert(fits_occ(recs, bmask, smask, b, l, occ0));
                assert(forall|l2: u16| l2 < l ==> !#[trigger] fits_occ(recs, bmask, smask, b, l2, occ0));
                assert(occ0 == slot_bits_view(*old(occupied)));
            }
            return Some(l);
        }
        l = l + 1;
    }
    None
}

} // verus!

verus! {

/// Bucket `c` is placed once the search has reached size `cnt` and, within
/// that size, bucket `b`.
pub open spec fn placed(recs: Seq<[u8; 11]>, bmask: u64, cnt: int, b: u64, c: u64) -> bool {
    &&& bucket_size(recs, bmask, c) > 0
    &&& (bucket_size(recs, bmask, c) > cnt || (bucket_size(recs, bmask, c) == cnt && c < b))
}

/// The taken slots are exactly the slots of the records of placed buckets.
pub open spec fn occ_inv(recs: Seq<[u8; 11]>, bmask: u64, smask: u64, sig: Seq<u16>, occ: Seq<bool>, cnt: int, b: u64) -> bool {
    &&& occ.len() == smask + 1
    &&& forall|j: int|
        0 <= j < recs.len() && placed(recs, bmask, cnt, b, bucket_idx(recs, bmask, j))
            ==> occ[#[trigger] record_slot(recs, bmask, smask, sig, j) as int]
    &&& forall|s: usize|
        s <= smask && #[trigger] occ[s as int] ==> exists|j: int|
            0 <= j < recs.len() && placed(recs, bmask, cnt, b, bucket_idx(recs, bmask, j))
                && #[trigger] record_slot(recs, bmask, smask, sig, j) == s
}

proof fn lemma_bucket_bound_all(recs: Seq<[u8; 11]>, bmask: u64)
    ensures
        forall|j: int| #[trigger] bucket_idx(recs, bmask, j) <= bmask,
{
    assert forall|j: int| #[trigger] bucket_idx(recs, bmask, j) <= bmask by {
        lemma_bucket_bound(recs, bmask, j);
    }
}

proof fn lemma_slot_bound_all(recs: Seq<[u8; 11]>, smask: u64)
    ensures
        forall|j: int, l: u16| #[trigger] slot_idx(recs, smask, j, l) <= smask,
{
    assert forall|j: int, l: u16| #[trigger] slot_idx(recs, smask, j, l) <= smask by {
        let h = crate::hashing::hash_phi_spec(key_of(recs[j]), l as u64);
        crate::bits::lemma_and_le_u64(h, smask);
    }
}

/// A record's own bucket is not empty.
proof fn lemma_own_bucket_nonempty(recs: Seq<[u8; 11]>, bmask: u64, j: int)
    requires
        0 <= j < recs.len(),
    ensures
        bucket_size(recs, bmask, bucket_idx(recs, bmask, j)) > 0,
{
    lemma_count_eq_mono(recs, bmask, bucket_idx(recs, bmask, j), j + 1, recs.len() as int);
}

/// Whether a displacement places bucket `c` depends only on the displacements
/// of the buckets placed before it.
proof fn lemma_fits_frame(recs: Seq<[u8; 11]>, bmask: u64, smask: u64, sig1: Seq<u16>, sig2: Seq<u16>, c: u64, l: u16)
    requires
        sig1.len() == bmask + 1,
        sig2.len() == bmask + 1,
        forall|d: u64| d <= bmask && bucket_size(recs, bmask, d) > 0 && precedes(recs, bmask, d, c) ==> sig1[d as int] == sig2[d as int],
    ensures
        fits(recs, bmask, smask, sig1, c, l) == fits(recs, bmask, smask, sig2, c, l),
{
    lemma_bucket_bound_all(recs, bmask);
    assert forall|j: int| 0 <= j < recs.len() && precedes(recs, bmask, bucket_idx(recs, bmask, j), c)
        implies sig1[bucket_idx(recs, bmask, j) as int] == sig2[bucket_idx(recs, bmask, j) as int] by {
        let d = bucket_idx(recs, bmask, j);
        assert(d <= bmask);
        lemma_own_bucket_nonempty(recs, bmask, j);
    }
}

/// With the taken slots those of the placed buckets, a displacement places
/// the current bucket exactly when it avoids the taken slots.
proof fn lemma_fits_occ(recs: Seq<[u8; 11]>, bmask: u64, smask: u64, sig: Seq<u16>, occ: Seq<bool>, cnt: int, b: u64, l: u16)
    requires
        occ_inv(recs, bmask, smask, sig, occ, cnt, b),
        bucket_size(recs, bmask, b) == cnt,
        cnt > 0,
        smask < usize::MAX,
    ensures
        fits_occ(recs, bmask, smask, b, l, occ) == fits(recs, bmask, smask, sig, b, l),
{
    lemma_slot_bound_all(recs, smask);
    if fits_occ(recs, bmask, smask, b, l, occ) {
        assert forall|i: int, j: int|
            #![trigger slot_idx(recs, smask, i, l), bucket_idx(recs, bmask, j)]
            0 <= i < recs.len() && 0 <= j < recs.len() && bucket_idx(recs, bmask, i) == b
                && precedes(recs, bmask, bucket_idx(recs, bmask, j), b)
            implies slot_idx(recs, smask, i, l) != slot_idx(recs, smask, j, sig[bucket_idx(recs, bmask, j) as int]) by {
            lemma_own_bucket_nonempty(recs, bmask, j);
            assert(placed(recs, bmask, cnt, b, bucket_idx(recs, bmask, j)));
            assert(occ[record_slot(recs, bmask, smask, sig, j) as int]);
            assert(!occ[slot_idx(recs, smask, i, l) as int]);
        }
    }
    if fits(recs, bmask, smask, sig, b, l) {
        assert forall|i: int| 0 <= i < recs.len() && bucket_idx(recs, bmask, i) == b
            implies !occ[#[trigger] slot_idx(recs, smask, i, l) as int] by {
            let s = slot_idx(recs, smask, i, l) as usize;
            if occ[s as int] {
                let j = choose|j: int| 0 <= j < recs.len() && placed(recs, bmask, cnt, b, bucket_idx(recs, bmask, j))
                    && #[trigger] record_slot(recs, bmask, smask, sig, j) == s;
                assert(precedes(recs, bmask, bucket_idx(recs, bmask, j), b));
                assert(slot_idx(recs, smask, i, l) != slot_idx(recs, smask, j, sig[bucket_idx(recs, bmask, j) as int]));
            }
        }
    }
}

fn zeros_u16(n: usize) -> (r: Vec<u16>)
    ensures
        r@ == Seq::new(n as nat, |i: int| 0u16),
{
    let mut v: Vec<u16> = Vec::new();
    let mut i: usize = 0;
    while i < n
        invariant
            i <= n,
            v@ == Seq::new(i as nat, |k: int| 0u16),
        decreases n - i,
    {
        v.push(0);
        i = i + 1;
        assert(v@ =~= Seq::new(i as nat, |k: int| 0u16));
    }
    v
}

} // verus!

verus! {

/// The state of the displacement search once buckets up to (`cnt`, `b`) are placed.
pub open spec fn search_inv(recs: Seq<[u8; 11]>, bmask: u64, smask: u64, sig: Seq<u16>, occ: Seq<bool>, cnt: int, b: u64) -> bool {
    &&& sig.len() == bmask + 1
    &&& forall|c: u64| #![trigger sig[c as int]] c <= bmask && placed(recs, bmask, cnt, b, c) ==> sigma_minimal(recs, bmask, smask, sig, c)
    &&& forall|c: u64| #![trigger sig[c as int]] c <= bmask && !placed(recs, bmask, cnt, b, c) ==> sig[c as int] == 0
    &&& occ_inv(recs, bmask, smask, sig, occ, cnt, b)
}

/// Placing bucket `b` (of size `cnt`) with its minimal displacement `l` moves the search one bucket on.
proof fn lemma_search_step(
    recs: Seq<[u8; 11]>, bmask: u64, smask: u64, sig: Seq<u16>, occ: Seq<bool>, occ2: Seq<bool>, cnt: int, b: u64, l: u16,
)
    requires
        bmask < u64::MAX,
        smask < usize::MAX,
        b <= bmask,
        cnt > 0,
        bucket_size(recs, bmask, b) == cnt,
        search_inv(recs, bmask, smask, sig, occ, cnt, b),
        l <= MAX_DISPLACEMENT,
        fits_occ(recs, bmask, smask, b, l, occ),
        forall|l2: u16| l2 < l ==> !#[trigger] fits_occ(recs, bmask, smask, b, l2, occ),
        occ2.len() == smask + 1,
        forall|s: usize| s <= smask ==> (#[trigger] occ2[s as int] <==> occ[s as int] || exists|i: int| 0 <= i < recs.len()
            && bucket_idx(recs, bmask, i) == b && #[trigger] slot_idx(recs, smask, i, l) == s),
    ensures
        search_inv(recs, bmask, smask, sig.update(b as int, l), occ2, cnt, (b + 1) as u64),
{
    let sig2 = sig.update(b as int, l);
    lemma_bucket_bound_all(recs, bmask);
    lemma_slot_bound_all(recs, smask);
    assert(!placed(recs, bmask, cnt, b, b));
    // the new displacement is minimal for b
    lemma_fits_occ(recs, bmask, smask, sig, occ, cnt, b, l);
    lemma_fits_frame(recs, bmask, smask, sig, sig2, b, l);
    assert forall|l2: u16| l2 < l implies !#[trigger] fits(recs, bmask, smask, sig2, b, l2) by {
        lemma_fits_occ(recs, bmask, smask, sig, occ, cnt, b, l2);
        lemma_fits_frame(recs, bmask, smask, sig, sig2, b, l2);
    }
    assert(sigma_minimal(recs, bmask, smask, sig2, b));
    // earlier buckets keep their minimal displacements
    assert forall|c: u64| #![trigger sig2[c as int]] c <= bmask && placed(recs, bmask, cnt, (b + 1) as u64, c)
        implies sigma_minimal(recs, bmask, smask, sig2, c) by {
        if c != b {
            assert(placed(recs, bmask, cnt, b, c));
            assert(sigma_minimal(recs, bmask, smask, sig, c));
            lemma_fits_frame(recs, bmask, smask, sig, sig2, c, sig[c as int]);
            assert forall|l2: u16| l2 < sig2[c as int] implies !#[trigger] fits(recs, bmask, smask, sig2, c, l2) by {
                lemma_fits_frame(recs, bmask, smask, sig, sig2, c, l2);
            }
        }
    }
    // the taken slots
    assert forall|j: int|
        0 <= j < recs.len() && placed(recs, bmask, cnt, (b + 1) as u64, bucket_idx(recs, bmask, j))
        implies occ2[#[trigger] record_slot(recs, bmask, smask, sig2, j) as int] by {
        let s = record_slot(recs, bmask, smask, sig2, j) as usize;
        if bucket_idx(recs, bmask, j) == b {
            assert(slot_idx(recs, smask, j, l) == s);
        } else {
            assert(record_slot(recs, bmask, smask, sig, j) == s);
            assert(occ[record_slot(recs, bmask, smask, sig, j) as int]);
        }
        assert(occ2[s as int]);
    }
    assert forall|s: usize| s <= smask && #[trigger] occ2[s as int] implies exists|j: int|
        0 <= j < recs.len() && placed(recs, bmask, cnt, (b + 1) as u64, bucket_idx(recs, bmask, j))
            && #[trigger] record_slot(recs, bmask, smask, sig2, j) == s by {
        if occ[s as int] {
            let j = choose|j: int| 0 <= j < recs.len() && placed(recs, bmask, cnt, b, bucket_idx(recs, bmask, j))
                && #[trigger] record_slot(recs, bmask, smask, sig, j) == s;
            assert(record_slot(recs, bmask, smask, sig2, j) == s);
        } else {
            let i = choose|i: int| 0 <= i < recs.len() && bucket_idx(recs, bmask, i) == b && #[trigger] slot_idx(recs, smask, i, l) == s;
            assert(record_slot(recs, bmask, smask, sig2, i) == s);
        }
    }
}

} // verus!

verus! {

/// Derive the displacement of every bucket, largest buckets first (ties by
/// bucket id); `Err(b)` names the first bucket that no displacement up to the
/// limit places.
fn derive_sigma(
    keys: &Vec<[u8; 11]>,
    counts: &Vec<usize>,
    offsets: &Vec<usize>,
    perm: &Vec<usize>,
    smask: u64,
    Ghost(recs): Ghost<Seq<[u8; 11]>>,
    Ghost(bmask): Ghost<u64>,
) -> (r: Result<Vec<u16>, u64>)
    requires
        bmask < u64::MAX,
        smask < usize::MAX >> 3usize,
        keys.len() == recs.len(),
        forall|j: int| 0 <= j < recs.len() ==> (#[trigger] keys@[j])@ == key_of(recs[j]),
        grouped(recs, bmask, perm@),
        counts.len() == bmask + 1,
        offsets.len() == bmask + 1,
        forall|b: int| 0 <= b <= bmask ==> #[trigger] counts@[b] == bucket_size(recs, bmask, b as u64),
        forall|b: int| 0 <= b <= bmask ==> #[trigger] offsets@[b] == seg_start(recs, bmask, b as u64),
    ensures
        r matches Ok(sig) ==> sigma_valid(recs, bmask, smask, sig@),
        r is Err ==> exists|sig: Seq<u16>| #[trigger] displacement_fails(recs, bmask, smask, sig, r->Err_0),
{
    let nb = counts.len();
    let mut maxc: usize = 0;
    let mut c: usize = 0;
    while c < nb
        invariant
            c <= nb,
            nb == counts.len(),
            forall|d: int| 0 <= d < c ==> #[trigger] counts@[d] <= maxc,
        decreases nb - c,
    {
        if counts[c] > maxc {
            maxc = counts[c];
        }
        c = c + 1;
    }
    let ns: usize = (smask + 1) as usize;
    let mut sigma = zeros_u16(nb);
    let mut occupied = bits_zeroed(ns);
    let mut cand = bits_zeroed(ns);
    proof {
        lemma_bucket_bound_all(recs, bmask);
        assert forall|c2: u64| c2 <= bmask implies !placed(recs, bmask, maxc as int, 0, c2) by {
            assert(counts@[c2 as int] <= maxc);
        }
    }
    let mut cnt: usize = maxc;
    while cnt > 0
        invariant
            cnt <= maxc,
            nb == bmask + 1,
            bmask < u64::MAX,
            smask < usize::MAX >> 3usize,
            ns == smask + 1,
            keys.len() == recs.len(),
            forall|j: int| 0 <= j < recs.len() ==> (#[trigger] keys@[j])@ == key_of(recs[j]),
            grouped(recs, bmask, perm@),
            counts.len() == nb,
            offsets.len() == nb,
            forall|b: int| 0 <= b <= bmask ==> #[trigger] counts@[b] == bucket_size(recs, bmask, b as u64),
            forall|b: int| 0 <= b <= bmask ==> #[trigger] offsets@[b] == seg_start(recs, bmask, b as u64),
            search_inv(recs, bmask, smask, sigma@, slot_bits_view(occupied), cnt as int, 0),
            slot_bits_view(cand).len() == smask + 1,
            forall|s: int| 0 <= s <= smask ==> !#[trigger] slot_bits_view(cand)[s],
        decreases cnt,
    {
        let mut b: usize = 0;
        while b < nb
            invariant
                b <= nb,
                0 < cnt <= maxc,
                nb == bmask + 1,
                bmask < u64::MAX,
                smask < usize::MAX >> 3usize,
                ns == smask + 1,
                keys.len() == recs.len(),
                forall|j: int| 0 <= j < recs.len() ==> (#[trigger] keys@[j])@ == key_of(recs[j]),
                grouped(recs, bmask, perm@),
                counts.len() == nb,
                offsets.len() == nb,
                forall|b2: int| 0 <= b2 <= bmask ==> #[trigger] counts@[b2] == bucket_size(recs, bmask, b2 as u64),
                forall|b2: int| 0 <= b2 <= bmask ==> #[trigger] offsets@[b2] == seg_start(recs, bmask, b2 as u64),
                search_inv(recs, bmask, smask, sigma@, slot_bits_view(occupied), cnt as int, b as u64),
                slot_bits_view(cand).len() == smask + 1,
                forall|s: int| 0 <= s <= smask ==> !#[trigger] slot_bits_view(cand)[s],
            decreases nb - b,
        {
            if counts[b] == cnt {
                let ghost occ_before = slot_bits_view(occupied);
                match place_bucket(keys, perm, offsets[b], cnt, smask, &mut occupied, &mut cand, Ghost(recs), Ghost(bmask), Ghost(b as u64)) {
                    Some(l) => {
                        proof {
                            lemma_search_step(recs, bmask, smask, sigma@, occ_before, slot_bits_view(occupied), cnt as int, b as u64, l);
                        }
                        sigma.set(b, l);
                    },
                    None => {
                        let e: u64 = b as u64;
                        proof {
                            assert forall|l2: u16| l2 <= MAX_DISPLACEMENT implies !#[trigger] fits(recs, bmask, smask, sigma@, b as u64, l2) by {
                                lemma_fits_occ(recs, bmask, smask, sigma@, occ_before, cnt as int, b as u64, l2);
                            }
                            assert forall|c2: u64| #![trigger sigma@[c2 as int]]
                                c2 <= bmask && bucket_size(recs, bmask, c2) > 0 && precedes(recs, bmask, c2, b as u64)
                                implies sigma_minimal(recs, bmask, smask, sigma@, c2) by {
                                assert(placed(recs, bmask, cnt as int, b as u64, c2));
                            }
                            assert(displacement_fails(recs, bmask, smask, sigma@, b as u64));
                            assert(displacement_fails(recs, bmask, smask, sigma@, e));
                            assert(exists|sig: Seq<u16>| #[trigger] displacement_fails(recs, bmask, smask, sig, e));
                        }
                        let res: Result<Vec<u16>, u64> = Err(e);
                        assert(res->Err_0 == e);
                        assert(exists|sig: Seq<u16>| #[trigger] displacement_fails(recs, bmask, smask, sig, e));
                        assert(exists|sig: Seq<u16>| #[trigger] displacement_fails(recs, bmask, smask, sig, res->Err_0));
                        return res;
                    },
                }
            } else {
                proof {
                    let bb = b as u64;
                    assert(counts@[b as int] == bucket_size(recs, bmask, bb));
                    let sig = sigma@;
                    let occ = slot_bits_view(occupied);
                    assert forall|c2: u64| #![trigger sig[c2 as int]] c2 <= bmask && placed(recs, bmask, cnt as int, (bb + 1) as u64, c2)
                        implies sigma_minimal(recs, bmask, smask, sig, c2) by {
                        assert(placed(recs, bmask, cnt as int, bb, c2));
                    }
                    assert forall|c2: u64| #![trigger sig[c2 as int]] c2 <= bmask && !placed(recs, bmask, cnt as int, (bb + 1) as u64, c2)
                        implies sig[c2 as int] == 0 by {
                        assert(!placed(recs, bmask, cnt as int, bb, c2));
                    }
                    lemma_bucket_bound_all(recs, bmask);
                    assert forall|j: int|
                        0 <= j < recs.len() && placed(recs, bmask, cnt as int, (bb + 1) as u64, bucket_idx(recs, bmask, j))
                        implies occ[#[trigger] record_slot(recs, bmask, smask, sig, j) as int] by {
                        assert(placed(recs, bmask, cnt as int, bb, bucket_idx(recs, bmask, j)));
                    }
                    assert forall|s: usize| s <= smask && #[trigger] occ[s as int] implies exists|j: int|
                        0 <= j < recs.len() && placed(recs, bmask, cnt as int, (bb + 1) as u64, bucket_idx(recs, bmask, j))
                            && #[trigger] record_slot(recs, bmask, smask, sig, j) == s by {
                        let j = choose|j: int| 0 <= j < recs.len() && placed(recs, bmask, cnt as int, bb, bucket_idx(recs, bmask, j))
                            && #[trigger] record_slot(recs, bmask, smask, sig, j) == s;
                        assert(placed(recs, bmask, cnt as int, (bb + 1) as u64, bucket_idx(recs, bmask, j)));
                    }
                }
            }
            b = b + 1;
        }
        proof {
            lemma_bucket_bound_all(recs, bmask);
            let sig = sigma@;
            let occ = slot_bits_view(occupied);
            let k = cnt as int;
            assert forall|c2: u64| #![trigger sig[c2 as int]] c2 <= bmask && placed(recs, bmask, k - 1, 0, c2)
                implies sigma_minimal(recs, bmask, smask, sig, c2) by {
                assert(placed(recs, bmask, k, nb as u64, c2));
            }
            assert forall|c2: u64| #![trigger sig[c2 as int]] c2 <= bmask && !placed(recs, bmask, k - 1, 0, c2)
                implies sig[c2 as int] == 0 by {
                assert(!placed(recs, bmask, k, nb as u64, c2));
            }
            assert forall|j: int|
                0 <= j < recs.len() && placed(recs, bmask, k - 1, 0, bucket_idx(recs, bmask, j))
                implies occ[#[trigger] record_slot(recs, bmask, smask, sig, j) as int] by {
                assert(placed(recs, bmask, k, nb as u64, bucket_idx(recs, bmask, j)));
            }
            assert forall|s: usize| s <= smask && #[trigger] occ[s as int] implies exists|j: int|
                0 <= j < recs.len() && placed(recs, bmask, k - 1, 0, bucket_idx(recs, bmask, j))
                    && #[trigger] record_slot(recs, bmask, smask, sig, j) == s by {
                let j = choose|j: int| 0 <= j < recs.len() && placed(recs, bmask, k, nb as u64, bucket_idx(recs, bmask, j))
                    && #[trigger] record_slot(recs, bmask, smask, sig, j) == s;
                assert(placed(recs, bmask, k - 1, 0, bucket_idx(recs, bmask, j)));
            }
        }
        cnt = cnt - 1;
    }
    proof {
        let sig = sigma@;
        assert forall|b: u64| #![trigger sig[b as int]] b <= bmask implies if bucket_size(recs, bmask, b) > 0 {
            sigma_minimal(recs, bmask, smask, sig, b)
        } else {
            sig[b as int] == 0
        } by {
            if bucket_size(recs, bmask, b) > 0 {
                assert(placed(recs, bmask, 0, 0, b));
            } else {
                assert(!placed(recs, bmask, 0, 0, b));
            }
        }
    }
    Ok(sigma)
}

} // verus!

verus! {

/// A valid displacement table gives every record its own slot.
proof fn lemma_slots_distinct(recs: Seq<[u8; 11]>, bmask: u64, smask: u64, sig: Seq<u16>, i: int, j: int)
    requires
        sigma_valid(recs, bmask, smask, sig),
        0 <= i < recs.len(),
        0 <= j < recs.len(),
        i != j,
    ensures
        record_slot(recs, bmask, smask, sig, i) != record_slot(recs, bmask, smask, sig, j),
{
    let bi = bucket_idx(recs, bmask, i);
    let bj = bucket_idx(recs, bmask, j);
    lemma_bucket_bound(recs, bmask, i);
    lemma_bucket_bound(recs, bmask, j);
    lemma_own_bucket_nonempty(recs, bmask, i);
    lemma_own_bucket_nonempty(recs, bmask, j);
    assert(sigma_minimal(recs, bmask, smask, sig, bi));
    assert(sigma_minimal(recs, bmask, smask, sig, bj));
    if bi == bj {
        assert(slot_idx(recs, smask, i, sig[bi as int]) != slot_idx(recs, smask, j, sig[bi as int]));
    } else if precedes(recs, bmask, bj, bi) {
        assert(slot_idx(recs, smask, i, sig[bi as int]) != slot_idx(recs, smask, j, sig[bj as int]));
    } else {
        assert(precedes(recs, bmask, bi, bj));
        assert(slot_idx(recs, smask, j, sig[bj as int]) != slot_idx(recs, smask, i, sig[bi as int]));
    }
}

/// Writing `o` into slot `s` of a packed table changes that slot only.
proof fn lemma_nibble_write(out: Seq<u8>, s: int, o: u8, byte: u8)
    requires
        0 <= s < 2 * out.len(),
        o < 16,
        byte == if s % 2 == 0 { (out[s / 2] & 0x0fu8) | (o << 4u8) } else { (out[s / 2] & 0xf0u8) | o },
    ensures
        nibble(out.update(s / 2, byte), s) == o,
        forall|t: int| 0 <= t < 2 * out.len() && t != s ==> #[trigger] nibble(out.update(s / 2, byte), t) == nibble(out, t),
{
    crate::bits::lemma_nibble_u8(out[s / 2], o);
}

fn zeros_u8(n: usize) -> (r: Vec<u8>)
    ensures
        r@ == Seq::new(n as nat, |i: int| 0u8),
{
    let mut v: Vec<u8> = Vec::new();
    let mut i: usize = 0;
    while i < n
        invariant
            i <= n,
            v@ == Seq::new(i as nat, |k: int| 0u8),
        decreases n - i,
    {
        v.push(0);
        i = i + 1;
        assert(v@ =~= Seq::new(i as nat, |k: int| 0u8));
    }
    v
}

/// Write each record's outcome into its slot of a packed table.
fn populate_outcomes(
    records: &Vec<[u8; 11]>,
    keys: &Vec<[u8; 11]>,
    buckets: &Vec<usize>,
    sigma: &Vec<u16>,
    smask: u64,
    Ghost(bmask): Ghost<u64>,
) -> (r: Vec<u8>)
    requires
        smask < usize::MAX >> 3usize,
        sigma_valid(records@, bmask, smask, sigma@),
        keys.len() == records.len(),
        buckets.len() == records.len(),
        forall|j: int| 0 <= j < records.len() ==> (#[trigger] keys@[j])@ == key_of(records@[j]),
        forall|j: int| 0 <= j < records.len() ==> #[trigger] buckets@[j] == bucket_idx(records@, bmask, j),
    ensures
        outcomes_table(records@, bmask, smask, sigma@, r@),
{
    let ghost recs = records@;
    let n = records.len();
    let sm: usize = smask as usize;
    proof {
        let mx = usize::MAX;
        assert(mx >> 3usize == mx / 8) by (bit_vector);
    }
    let len: usize = (sm + 2) / 2;
    let mut out = zeros_u8(len);
    proof {
        lemma_bucket_bound_all(recs, bmask);
        lemma_slot_bound_all(recs, smask);
        crate::bits::lemma_nibble_u8(0, 0);
        assert forall|s: int| 0 <= s < 2 * out@.len() implies #[trigger] nibble(out@, s) == 0 by {
            assert(out@[s / 2] == 0u8);
        }
    }
    let mut i: usize = 0;
    while i < n
        invariant
            i <= n,
            n == recs.len(),
            recs == records@,
            smask < usize::MAX >> 3usize,
            sigma_valid(recs, bmask, smask, sigma@),
            keys.len() == n,
            buckets.len() == n,
            forall|j: int| 0 <= j < n ==> (#[trigger] keys@[j])@ == key_of(recs[j]),
            forall|j: int| 0 <= j < n ==> #[trigger] buckets@[j] == bucket_idx(recs, bmask, j),
            forall|j: int| #[trigger] bucket_idx(recs, bmask, j) <= bmask,
            forall|j: int, l: u16| #[trigger] slot_idx(recs, smask, j, l) <= smask,
            out@.len() == (smask + 2) / 2,
            forall|j: int| 0 <= j < i ==> nibble(out@, #[trigger] record_slot(recs, bmask, smask, sigma@, j) as int) == outcome_of(recs[j]),
            forall|s: int|
                0 <= s < 2 * out@.len() && (forall|j: int| 0 <= j < i ==> #[trigger] record_slot(recs, bmask, smask, sigma@, j) != s)
                    ==> #[trigger] nibble(out@, s) == 0,
        decreases n - i,
    {
        let b = buckets[i];
        let l = sigma[b];
        let h = crate::hashing::hash_phi_bytes(&keys[i], l as u64);
        let s64 = h & smask;
        proof {
            crate::bits::lemma_and_le_u64(h, smask);
        }
        let s = s64 as usize;
        assert(s == record_slot(recs, bmask, smask, sigma@, i as int));
        let last: u8 = records[i][10];
        let o = last & 0x0Fu8;
        proof {
            crate::bits::lemma_nibble_u8(last, 0);
        }
        assert(o == outcome_of(recs[i as int]));
        let byte_idx = s / 2;
        let old_byte = out[byte_idx];
        let new_byte = if s % 2 == 0 { (old_byte & 0x0Fu8) | (o << 4u8) } else { (old_byte & 0xF0u8) | o };
        let ghost prev = out@;
        out.set(byte_idx, new_byte);
        proof {
            lemma_nibble_write(prev, s as int, o, new_byte);
            assert(out@ == prev.update(s as int / 2, new_byte));
            assert forall|j: int| 0 <= j < i + 1 implies nibble(out@, #[trigger] record_slot(recs, bmask, smask, sigma@, j) as int) == outcome_of(recs[j]) by {
                if j < i {
                    lemma_slots_distinct(recs, bmask, smask, sigma@, j, i as int);
                }
            }
            assert forall|t: int|
                0 <= t < 2 * out@.len() && (forall|j: int| 0 <= j < i + 1 ==> #[trigger] record_slot(recs, bmask, smask, sigma@, j) != t)
                implies #[trigger] nibble(out@, t) == 0 by {
                assert(record_slot(recs, bmask, smask, sigma@, i as int) != t);
                assert(nibble(out@, t) == nibble(prev, t));
            }
        }
        i = i + 1;
    }
    out
}

} // verus!

verus! {

/// Two tables that are both minimal for every bucket placed up to `c` agree at `c`.
proof fn lemma_minimal_agree(recs: Seq<[u8; 11]>, bmask: u64, smask: u64, sv: Seq<u16>, sig: Seq<u16>, c: u64)
    requires
        sigma_valid(recs, bmask, smask, sv),
        sig.len() == bmask + 1,
        c <= bmask,
        bucket_size(recs, bmask, c) > 0,
        sigma_minimal(recs, bmask, smask, sig, c),
        forall|d: u64|
            #![trigger sig[d as int]]
            d <= bmask && bucket_size(recs, bmask, d) > 0 && precedes(recs, bmask, d, c)
                ==> sigma_minimal(recs, bmask, smask, sig, d),
    ensures
        sig[c as int] == sv[c as int],
    decreases recs.len() - bucket_size(recs, bmask, c), c,
{
    lemma_count_eq_bound(recs, bmask, c, recs.len() as int);
    assert forall|d: u64| d <= bmask && bucket_size(recs, bmask, d) > 0 && precedes(recs, bmask, d, c)
        implies sv[d as int] == sig[d as int] by {
        lemma_count_eq_bound(recs, bmask, d, recs.len() as int);
        assert(sigma_minimal(recs, bmask, smask, sig, d));
        lemma_minimal_agree(recs, bmask, smask, sv, sig, d);
    }
    assert(sigma_minimal(recs, bmask, smask, sv, c));
    lemma_fits_frame(recs, bmask, smask, sv, sig, c, sig[c as int]);
    lemma_fits_frame(recs, bmask, smask, sv, sig, c, sv[c as int]);
}

/// When a valid table exists, no bucket fails to find a displacement.
proof fn lemma_valid_excludes_failure(recs: Seq<[u8; 11]>, bmask: u64, smask: u64, sv: Seq<u16>, sig: Seq<u16>, b: u64)
    requires
        sigma_valid(recs, bmask, smask, sv),
    ensures
        !displacement_fails(recs, bmask, smask, sig, b),
{
    if displacement_fails(recs, bmask, smask, sig, b) {
        assert forall|d: u64| d <= bmask && bucket_size(recs, bmask, d) > 0 && precedes(recs, bmask, d, b)
            implies sv[d as int] == sig[d as int] by {
            assert(sigma_minimal(recs, bmask, smask, sig, d));
            lemma_minimal_agree(recs, bmask, smask, sv, sig, d);
        }
        assert(sigma_minimal(recs, bmask, smask, sv, b));
        lemma_fits_frame(recs, bmask, smask, sv, sig, b, sv[b as int]);
        assert(fits(recs, bmask, smask, sig, b, sv[b as int]));
    }
}

} // verus!

verus! {

/// Why an index cannot be built.
#[derive(Debug, Clone, Copy, PartialEq, Eq, Structural)]
pub enum IndexBuildError {
    /// The shard file's size is not a whole number of 11-byte records.
    ShardSizeNotMultiple { size: u64 },
    /// No displacement up to the limit places this bucket.
    FailedDisplacement { bucket_id: u64 },
}

/// Number of records in a shard file of `size` bytes.
pub fn record_count(size: u64) -> (r: Result<u64, IndexBuildError>)
    ensures
        size % 11 == 0 ==> r == Ok::<u64, IndexBuildError>(size / 11),
        size % 11 != 0 ==> r == Err::<u64, IndexBuildError>(IndexBuildError::ShardSizeNotMultiple { size }),
{
    if size % 11 != 0 {
        Err(IndexBuildError::ShardSizeNotMultiple { size })
    } else {
        Ok(size / 11)
    }
}

/// Little-endian bytes of a 64-bit value.
pub open spec fn le_bytes_u64(x: u64) -> Seq<u8> {
    Seq::new(8, |k: int| ((x >> ((8 * k) as u64)) & 0xffu64) as u8)
}

/// The displacement table as little-endian 16-bit values.
pub open spec fn sigma_table_bytes(sig: Seq<u16>) -> Seq<u8> {
    Seq::new(2 * sig.len(), |k: int| if k % 2 == 0 { (sig[k / 2] & 0xffu16) as u8 } else { (sig[k / 2] >> 8u16) as u8 })
}

/// The 18-byte header: magic, version, depth, shard id, shard bits, bucket
/// bits, slot bits, then the number of keys (little-endian).
pub open spec fn header_bytes(depth: u8, shard_id: u8, shard_bits: u8, bucket_bits: u8, slot_bits: u8, num_keys: u64) -> Seq<u8> {
    crate::tablebase::magic_spec() + seq![crate::tablebase::VERSION, depth, shard_id, shard_bits, bucket_bits, slot_bits]
        + le_bytes_u64(num_keys)
}

/// `bytes` is the index file of `recs`: the header, the valid displacement
/// table and the packed outcome table.
pub open spec fn index_built(recs: Seq<[u8; 11]>, depth: u8, shard_id: u8, shard_bits: u8, bucket_bits: u8, slot_bits: u8, bytes: Seq<u8>) -> bool {
    let bmask = (crate::tablebase::pow2_64(bucket_bits) - 1) as u64;
    let smask = (crate::tablebase::pow2_64(slot_bits) - 1) as u64;
    exists|sig: Seq<u16>, out: Seq<u8>|
        #![trigger sigma_valid(recs, bmask, smask, sig), outcomes_table(recs, bmask, smask, sig, out)]
        sigma_valid(recs, bmask, smask, sig) && outcomes_table(recs, bmask, smask, sig, out)
            && bytes == header_bytes(depth, shard_id, shard_bits, bucket_bits, slot_bits, recs.len() as u64)
                + sigma_table_bytes(sig) + out
}

/// Some bucket finds no displacement up to the limit.
pub open spec fn some_bucket_fails(recs: Seq<[u8; 11]>, bucket_bits: u8, slot_bits: u8) -> bool {
    let bmask = (crate::tablebase::pow2_64(bucket_bits) - 1) as u64;
    let smask = (crate::tablebase::pow2_64(slot_bits) - 1) as u64;
    exists|sig: Seq<u16>, b: u64| #[trigger] displacement_fails(recs, bmask, smask, sig, b)
}

fn push_u64_le(bytes: &mut Vec<u8>, x: u64)
    ensures
        final(bytes)@ == old(bytes)@ + le_bytes_u64(x),
{
    let ghost start = bytes@;
    let mut k: u64 = 0;
    while k < 8
        invariant
            k <= 8,
            bytes@ == start + le_bytes_u64(x).subrange(0, k as int),
        decreases 8 - k,
    {
        bytes.push(((x >> (8 * k)) & 0xff) as u8);
        k = k + 1;
        assert(bytes@ =~= start + le_bytes_u64(x).subrange(0, k as int));
    }
    assert(le_bytes_u64(x).subrange(0, 8) =~= le_bytes_u64(x));
}

/// Build the index file of one shard: a minimal perfect hash over the
/// records' keys (buckets of `2^bucket_bits`, slots of `2^slot_bits`) and the
/// records' outcomes, packed two per byte.
pub fn build_index(records: &Vec<[u8; 11]>, depth: u8, shard_id: u8, shard_bits: u8, bucket_bits: u8, slot_bits: u8) -> (r: Result<Vec<u8>, IndexBuildError>)
    requires
        bucket_bits < 63,
        slot_bits < 63,
        crate::tablebase::pow2_64(bucket_bits) < usize::MAX,
        crate::tablebase::pow2_64(slot_bits) <= usize::MAX >> 3usize,
    ensures
        r matches Ok(bytes) ==> index_built(records@, depth, shard_id, shard_bits, bucket_bits, slot_bits, bytes@),
        r is Ok <==> !some_bucket_fails(records@, bucket_bits, slot_bits),
        r is Err ==> r->Err_0 is FailedDisplacement && exists|sig: Seq<u16>|
            #[trigger] displacement_fails(records@, (crate::tablebase::pow2_64(bucket_bits) - 1) as u64,
                (crate::tablebase::pow2_64(slot_bits) - 1) as u64, sig, r->Err_0->bucket_id),
{
    let ghost recs = records@;
    let nb64: u64 = 1u64 << (bucket_bits as u64);
    let ns64: u64 = 1u64 << (slot_bits as u64);
    proof {
        crate::bits::lemma_pow2_u64(bucket_bits as u64);
        crate::bits::lemma_pow2_u64(slot_bits as u64);
    }
    let bmask: u64 = nb64 - 1;
    let smask: u64 = ns64 - 1;
    let nb: usize = nb64 as usize;
    let (keys, buckets) = bucket_keys(records, bmask);
    let counts = bucket_counts(&buckets, nb, Ghost(recs), Ghost(bmask));
    let offsets = bucket_offsets(&counts, Ghost(recs), Ghost(bmask));
    let perm = group_by_bucket(&buckets, &offsets, Ghost(recs), Ghost(bmask));
    let sigma = match derive_sigma(&keys, &counts, &offsets, &perm, smask, Ghost(recs), Ghost(bmask)) {
        Ok(s) => s,
        Err(bucket_id) => {
            let res: Result<Vec<u8>, IndexBuildError> = Err(IndexBuildError::FailedDisplacement { bucket_id });
            assert(exists|sig: Seq<u16>| #[trigger] displacement_fails(recs, bmask, smask, sig, bucket_id));
            proof {
                let sig = choose|sig: Seq<u16>| #[trigger] displacement_fails(recs, bmask, smask, sig, bucket_id);
                assert(displacement_fails(recs, bmask, smask, sig, bucket_id));
                assert(some_bucket_fails(recs, bucket_bits, slot_bits));
            }
            assert(res->Err_0->bucket_id == bucket_id);
            assert(exists|sig: Seq<u16>| #[trigger] displacement_fails(recs, bmask, smask, sig, res->Err_0->bucket_id));
            return res;
        },
    };
    proof {
        assert forall|sig: Seq<u16>, b: u64| !#[trigger] displacement_fails(recs, bmask, smask, sig, b) by {
            lemma_valid_excludes_failure(recs, bmask, smask, sigma@, sig, b);
        }
    }
    let out = populate_outcomes(records, &keys, &buckets, &sigma, smask, Ghost(bmask));
    let mut bytes: Vec<u8> = Vec::new();
    bytes.push(0x45u8);
    bytes.push(0x53u8);
    bytes.push(0x43u8);
    bytes.push(0x51u8);
    bytes.push(crate::tablebase::VERSION);
    bytes.push(depth);
    bytes.push(shard_id);
    bytes.push(shard_bits);
    bytes.push(bucket_bits);
    bytes.push(slot_bits);
    push_u64_le(&mut bytes, records.len() as u64);
    let ghost head = bytes@;
    assert(head =~= header_bytes(depth, shard_id, shard_bits, bucket_bits, slot_bits, recs.len() as u64));
    let mut b: usize = 0;
    while b < nb
        invariant
            b <= nb,
            nb == sigma.len(),
            bytes@ == head + sigma_table_bytes(sigma@).subrange(0, 2 * b as int),
        decreases nb - b,
    {
        let v = sigma[b];
        bytes.push((v & 0xff) as u8);
        bytes.push((v >> 8) as u8);
        b = b + 1;
        assert(bytes@ =~= head + sigma_table_bytes(sigma@).subrange(0, 2 * b as int));
    }
    let ghost mid = bytes@;
    assert(sigma_table_bytes(sigma@).subrange(0, 2 * nb as int) =~= sigma_table_bytes(sigma@));
    let mut k: usize = 0;
    while k < out.len()
        invariant
            k <= out.len(),
            bytes@ == mid + out@.subrange(0, k as int),
        decreases out.len() - k,
    {
        bytes.push(out[k]);
        k = k + 1;
        assert(bytes@ =~= mid + out@.subrange(0, k as int));
    }
    assert(out@.subrange(0, out.len() as int) =~= out@);
    proof {
        assert(bmask == (crate::tablebase::pow2_64(bucket_bits) - 1) as u64);
        assert(smask == (crate::tablebase::pow2_64(slot_bits) - 1) as u64);
        assert(sigma_valid(recs, bmask, smask, sigma@) && outcomes_table(recs, bmask, smask, sigma@, out@));
    }
    Ok(bytes)
}

} // verus!

verus! {

/// What looking up `key` in index bytes reads: the bucket from the bucket
/// hash, its displacement from the table, the slot from the displaced hash,
/// and the slot's nibble in the outcome table.
pub open spec fn index_lookup(bytes: Seq<u8>, key: Seq<u8>) -> u8 {
    let bmask = (crate::tablebase::pow2_64(bytes[8]) - 1) as u64;
    let smask = (crate::tablebase::pow2_64(bytes[9]) - 1) as u64;
    let bucket = crate::hashing::hash_bucket_spec(key) & bmask;
    let sig = crate::tablebase::le_u16(bytes, crate::tablebase::HEADER_SIZE + 2 * bucket);
    let slot = crate::hashing::hash_phi_spec(key, sig as u64) & smask;
    nibble(bytes.subrange(crate::tablebase::HEADER_SIZE + 2 * (bmask + 1), bytes.len() as int), slot as int)
}

/// A built index answers the key of every record with that record's outcome.
pub proof fn lemma_index_lookup(
    recs: Seq<[u8; 11]>, depth: u8, shard_id: u8, shard_bits: u8, bucket_bits: u8, slot_bits: u8, bytes: Seq<u8>, i: int,
)
    requires
        bucket_bits < 63,
        slot_bits < 63,
        index_built(recs, depth, shard_id, shard_bits, bucket_bits, slot_bits, bytes),
        0 <= i < recs.len(),
    ensures
        index_lookup(bytes, key_of(recs[i])) == outcome_of(recs[i]),
{
    let bmask = (crate::tablebase::pow2_64(bucket_bits) - 1) as u64;
    let smask = (crate::tablebase::pow2_64(slot_bits) - 1) as u64;
    let (sig, out) = choose|sig: Seq<u16>, out: Seq<u8>|
        #![trigger sigma_valid(recs, bmask, smask, sig), outcomes_table(recs, bmask, smask, sig, out)]
        sigma_valid(recs, bmask, smask, sig) && outcomes_table(recs, bmask, smask, sig, out)
            && bytes == header_bytes(depth, shard_id, shard_bits, bucket_bits, slot_bits, recs.len() as u64)
                + sigma_table_bytes(sig) + out;
    let head = header_bytes(depth, shard_id, shard_bits, bucket_bits, slot_bits, recs.len() as u64);
    let st = sigma_table_bytes(sig);
    assert(head.len() == 18);
    assert(bytes[8] == bucket_bits);
    assert(bytes[9] == slot_bits);
    crate::bits::lemma_pow2_u64(bucket_bits as u64);
    crate::bits::lemma_pow2_u64(slot_bits as u64);
    let b = bucket_idx(recs, bmask, i);
    lemma_bucket_bound(recs, bmask, i);
    let v = sig[b as int];
    assert(bytes[18 + 2 * b] == st[2 * b]);
    assert(bytes[18 + 2 * b + 1] == st[2 * b + 1]);
    crate::bits::lemma_le_split(v);
    assert(crate::tablebase::le_u16(bytes, crate::tablebase::HEADER_SIZE + 2 * b) == v);
    assert(bytes.subrange(18 + 2 * (bmask + 1), bytes.len() as int) =~= out);
    assert(record_slot(recs, bmask, smask, sig, i) == slot_idx(recs, smask, i, v));
}

} // verus!

verus! {

/// A tablebase file whose bytes are the index built from `recs` answers the
/// position of every record with that record's outcome.
pub proof fn lemma_built_file_answers(
    f: crate::tablebase::TablebaseFile, recs: Seq<[u8; 11]>, depth: u8, shard_id: u8, shard_bits: u8,
    bucket_bits: u8, slot_bits: u8, node: crate::node::Node, i: int,
)
    requires
        f.wf(),
        bucket_bits < 63,
        slot_bits < 63,
        index_built(recs, depth, shard_id, shard_bits, bucket_bits, slot_bits, f.bytes()),
        0 <= i < recs.len(),
        node.bytes_spec() == key_of(recs[i]),
    ensures
        f.query_spec(node) == outcome_of(recs[i]),
{
    f.lemma_query_reads_index(node);
    lemma_index_lookup(recs, depth, shard_id, shard_bits, bucket_bits, slot_bits, f.bytes(), i);
}

} // verus!

verus! {

/// The most workers an index build may use: the memory left after the keys
/// (11 bytes each) and the two bucket tables (8 bytes per bucket each),
/// divided by a worker's own bucket table, at least one (truncated to `u32`);
/// no limit when there are no buckets.
pub open spec fn worker_cap_spec(available_memory: u64, num_keys: u64, num_buckets: u64) -> u32 {
    let shared = num_keys * 11 + num_buckets * 16;
    let per_worker = num_buckets * 8;
    let for_workers = if available_memory >= shared { available_memory - shared } else { 0 };
    if per_worker > 0 {
        let m = for_workers / per_worker;
        (if m > 1 { m } else { 1 }) as u32
    } else {
        u32::MAX
    }
}

/// The worker cap of an index build (see `worker_cap_spec`).
pub fn index_worker_cap(available_memory: u64, num_keys: u64, num_buckets: u64) -> (r: u32)
    requires
        num_keys * 11 + num_buckets * 16 <= u64::MAX,
    ensures
        r == worker_cap_spec(available_memory, num_keys, num_buckets),
{
    let shared_memory: u64 = num_keys * 11 + num_buckets * 8 + num_buckets * 8;
    let per_worker_memory: u64 = num_buckets * 8;
    let memory_for_workers = available_memory.saturating_sub(shared_memory);
    if per_worker_memory > 0 {
        let m = memory_for_workers / per_worker_memory;
        let m1 = if m > 1 { m } else { 1 };
        m1 as u32
    } else {
        u32::MAX
    }
}

/// The workers of an index build: those asked for, or by default the CPU
/// workers, capped by memory.
pub fn index_worker_count(workers_opt: Option<u32>, cpu_workers: u32, cap: u32) -> (r: u32)
    ensures
        r == (match workers_opt {
            Some(w) => if w < cap { w } else { cap },
            None => if cpu_workers < cap { cpu_workers } else { cap },
        }),
{
    let w = match workers_opt {
        Some(w) => w,
        None => cpu_workers,
    };
    if w < cap { w } else { cap }
}

} // verus!
