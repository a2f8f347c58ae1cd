//! Memory-mapped tablebase files: header validation and minimal-perfect-hash
//! lookups, and the index of all loaded files by depth and shard.

use vstd::prelude::*;
use memmap2::Mmap;
use crate::hashing::{hash_bucket_node, hash_bucket_spec, hash_phi_bytes, hash_phi_spec, hash_shard_node, xxh3_64_with_seed_spec, DOMAIN_SHARD};
use crate::node::Node;

verus! {

#[verifier::external_type_specification]
#[verifier::external_body]
pub struct ExMmap(memmap2::Mmap);

/// The bytes of a read-only memory map.
pub uninterp spec fn mmap_bytes(m: Mmap) -> Seq<u8>;

/// Calls `Mmap::len` (through `Deref<Target = [u8]>`): the number of mapped bytes.
#[verifier::external_body]
fn mmap_len(m: &Mmap) -> (r: usize)
    ensures
        r == mmap_bytes(*m).len(),
{
    m.len()
}

/// Reads byte `i` of the map (indexing through `Deref<Target = [u8]>`).
#[verifier::external_body]
fn mmap_byte(m: &Mmap, i: usize) -> (r: u8)
    requires
        i < mmap_bytes(*m).len(),
    ensures
        r == mmap_bytes(*m)[i as int],
{
    m[i]
}

pub const HEADER_SIZE: usize = 18;
pub const VERSION: u8 = 1;

/// The magic number "ESCQ".
pub open spec fn magic_spec() -> Seq<u8> {
    seq![0x45u8, 0x53u8, 0x43u8, 0x51u8]
}

/// Why a mapped file is not a valid tablebase.
#[derive(Debug, Clone, Copy, PartialEq, Eq)]
pub enum TablebaseFileError {
    /// Fewer bytes than the header needs.
    FileTooSmall { len: usize },
    /// The first four bytes are not "ESCQ".
    InvalidMagic { magic: (u8, u8, u8, u8) },
    /// The format version is not 1.
    UnsupportedVersion { version: u8 },
    /// The depth is above 16.
    InvalidDepth { depth: u8 },
    /// The shard id is not below the number of shards (as a byte).
    InvalidShardId { shard_id: u8, num_shards: u16, shard_bits: u8 },
    /// The file length does not match the sizes in the header.
    SizeMismatch { len: usize, expected: u64 },
}

/// Little-endian u64 of bytes `o..o+8`.
pub open spec fn le_u64(b: Seq<u8>, o: int) -> u64 {
    (b[o] as u64 | ((b[o + 1] as u64) << 8u64) | ((b[o + 2] as u64) << 16u64) | ((b[o + 3] as u64) << 24u64)
        | ((b[o + 4] as u64) << 32u64) | ((b[o + 5] as u64) << 40u64) | ((b[o + 6] as u64) << 48u64)
        | ((b[o + 7] as u64) << 56u64)) as u64
}

/// Little-endian u16 of bytes `o..o+2`.
pub open spec fn le_u16(b: Seq<u8>, o: int) -> u16 {
    (b[o] as u16 | ((b[o + 1] as u16) << 8u16)) as u16
}

/// The header fields up to the shard id pass their checks, so the file is
/// read on to the bucket and slot sizes.
pub open spec fn header_prefix_ok(b: Seq<u8>) -> bool {
    &&& b.len() >= HEADER_SIZE
    &&& b.subrange(0, 4) == magic_spec()
    &&& b[4] == VERSION
    &&& b[5] <= 16
}

/// A shard id fits its shard bits: it is below `2^shard_bits`.
pub open spec fn shard_id_ok(shard_id: u8, shard_bits: u8) -> bool {
    (shard_id as int) < vstd::arithmetic::power2::pow2(shard_bits as nat)
}

/// The inputs on which opening does not fail a shift or multiplication:
/// once the shard id passes, the bucket bits are below 63 and the slot bits
/// below 64.
pub open spec fn header_arith_ok(b: Seq<u8>) -> bool {
    header_prefix_ok(b) && shard_id_ok(b[6], b[7]) ==> b[8] < 63 && b[9] < 64
}

/// The file length that the bucket and slot sizes call for.
pub open spec fn expected_size(bucket_bits: u8, slot_bits: u8) -> int {
    HEADER_SIZE + 2 * pow2_64(bucket_bits) + (pow2_64(slot_bits) + 1) / 2
}

/// 2 to the `k`, for `k < 64`.
pub open spec fn pow2_64(k: u8) -> int {
    (1u64 << (k as u64)) as int
}

/// What opening a mapped file gives: `Ok` exactly when every header check passes.
pub open spec fn open_outcome(b: Seq<u8>) -> Result<(u8, u8, u8, u8, u8), TablebaseFileError> {
    if b.len() < HEADER_SIZE {
        Err(TablebaseFileError::FileTooSmall { len: b.len() as usize })
    } else if b.subrange(0, 4) != magic_spec() {
        Err(TablebaseFileError::InvalidMagic { magic: (b[0], b[1], b[2], b[3]) })
    } else if b[4] != VERSION {
        Err(TablebaseFileError::UnsupportedVersion { version: b[4] })
    } else if b[5] > 16 {
        Err(TablebaseFileError::InvalidDepth { depth: b[5] })
    } else if !shard_id_ok(b[6], b[7]) {
        Err(TablebaseFileError::InvalidShardId { shard_id: b[6], num_shards: (1u16 << (b[7] as u16)) as u16, shard_bits: b[7] })
    } else if b.len() != expected_size(b[8], b[9]) {
        Err(TablebaseFileError::SizeMismatch { len: b.len() as usize, expected: expected_size(b[8], b[9]) as u64 })
    } else {
        Ok((b[5], b[6], b[7], b[8], b[9]))
    }
}

/// Powers of two for shard-bit counts: the shifted forms agree with `pow2`,
/// and any shard id (a byte) fits eight or more shard bits.
proof fn lemma_pow2_shard(k: u8)
    ensures
        k < 64 ==> pow2_64(k) == vstd::arithmetic::power2::pow2(k as nat),
        k < 8 ==> (1u16 << (k as u16)) as int == vstd::arithmetic::power2::pow2(k as nat),
        k < 8 ==> vstd::arithmetic::power2::pow2(k as nat) <= 128,
        k >= 8 ==> vstd::arithmetic::power2::pow2(k as nat) >= 256,
        k >= 9 ==> vstd::arithmetic::power2::pow2(k as nat) > 256,
{
    vstd::arithmetic::power2::lemma2_to64();
    if k < 64 {
        vstd::bits::lemma_u64_pow2_no_overflow(k as nat);
        vstd::bits::lemma_u64_shl_is_mul(1u64, k as u64);
    }
    if k < 8 {
        vstd::bits::lemma_u16_pow2_no_overflow(k as nat);
        vstd::bits::lemma_u16_shl_is_mul(1u16, k as u16);
        if k < 7 {
            vstd::arithmetic::power2::lemma_pow2_strictly_increases(k as nat, 7);
        }
    }
    if k > 8 {
        vstd::arithmetic::power2::lemma_pow2_strictly_increases(8, k as nat);
    }
}

/// Powers of two for a shard-bit count below 16, and the top bits of a hash.
proof fn lemma_shard_pow2(k: u8, h: u64)
    by (bit_vector)
    requires
        k < 16,
    ensures
        (1usize << (k as usize)) == (1u64 << (k as u64)),
        (1usize << (k as usize)) <= 0x8000usize,
        ((1u16 << (k as u16)) as u8) as u64 <= (1u64 << (k as u64)),
        (1u16 << (k as u16)) as u64 == (1u64 << (k as u64)),
        1u64 <= (1u64 << (k as u64)) <= 0x8000u64,
        0 < k ==> (h >> ((64 - k) as u64)) < (1u64 << (k as u64)),
{
}

/// The shard that the top `k` bits of a hash pick (all of shard 0 for no
/// bits) is below `2^k`.
pub proof fn lemma_shard_top_bits(k: u8, h: u64)
    requires
        k < 16,
    ensures
        (if k == 0 { 0int } else { (h >> ((64 - k) as u64)) as u16 as int }) < pow2_64(k),
        (if k == 0 { 0int } else { (h >> ((64 - k) as u64)) as u16 as int }) >= 0,
{
    lemma_shard_pow2(k, h);
    if k > 0 {
        assert((h >> ((64 - k) as u64)) < (1u64 << (k as u64)));
        assert((1u64 << (k as u64)) <= 0x8000u64);
    }
}

/// A memory-mapped tablebase file of one shard of one depth.
pub struct TablebaseFile {
    mmap: Mmap,
    pub depth: u8,
    pub shard_id: u8,
    pub shard_bits: u8,
    bucket_mask: u64,
    slot_mask: u64,
    outcomes_offset: usize,
}

impl TablebaseFile {
    /// The mapped bytes.
    pub closed spec fn bytes(self) -> Seq<u8> {
        mmap_bytes(self.mmap)
    }

    /// Bucket bits from the header.
    pub open spec fn bucket_bits(self) -> u8 {
        self.bytes()[8]
    }

    /// Slot bits from the header.
    pub open spec fn slot_bits(self) -> u8 {
        self.bytes()[9]
    }

    /// Depth, shard id, shard bits, bucket bits and slot bits.
    pub closed spec fn header(self) -> (u8, u8, u8, u8, u8) {
        (self.depth, self.shard_id, self.shard_bits, self.bucket_bits(), self.slot_bits())
    }

    /// The depth whose positions the file holds.
    pub closed spec fn depth_spec(self) -> u8 {
        self.depth
    }

    /// The shard of its depth that the file holds.
    pub closed spec fn shard_id_spec(self) -> u8 {
        self.shard_id
    }

    /// The number of shard bits of its depth.
    pub closed spec fn shard_bits_spec(self) -> u8 {
        self.shard_bits
    }

    /// The header was validated and the cached values agree with it.
    pub closed spec fn wf(self) -> bool {
        &&& open_outcome(self.bytes()) == Ok::<(u8, u8, u8, u8, u8), TablebaseFileError>(self.header())
        &&& header_arith_ok(self.bytes())
        &&& self.bytes().len() <= usize::MAX
        &&& self.bucket_mask == pow2_64(self.bucket_bits()) - 1
        &&& self.slot_mask == pow2_64(self.slot_bits()) - 1
        &&& self.outcomes_offset == HEADER_SIZE + 2 * pow2_64(self.bucket_bits())
    }

    /// The bucket of a node.
    pub closed spec fn bucket_of(self, node: Node) -> u64 {
        hash_bucket_spec(node.bytes_spec()) & self.bucket_mask
    }

    /// The displacement stored for a bucket.
    pub closed spec fn sigma_of(self, bucket_id: u64) -> u16 {
        le_u16(self.bytes(), HEADER_SIZE + 2 * bucket_id)
    }

    /// The slot of a node.
    pub closed spec fn slot_of(self, node: Node) -> u64 {
        hash_phi_spec(node.bytes_spec(), self.sigma_of(self.bucket_of(node)) as u64) & self.slot_mask
    }

    /// The 4-bit outcome stored in a slot: the upper nibble for even slots.
    pub closed spec fn outcome_in_slot(self, slot: u64) -> u8 {
        let byte = self.bytes()[self.outcomes_offset + slot / 2];
        if slot % 2 == 0 {
            (byte >> 4u8) as u8
        } else {
            (byte & 0x0fu8) as u8
        }
    }

    /// What a lookup of `node` reads.
    pub closed spec fn query_spec(self, node: Node) -> u8 {
        self.outcome_in_slot(self.slot_of(node))
    }

    /// Validate the header of a mapped file and cache the derived values.
    pub fn from_mmap(mmap: Mmap) -> (r: Result<TablebaseFile, TablebaseFileError>)
        requires
            header_arith_ok(mmap_bytes(mmap)),
        ensures
            match r {
                Ok(f) => f.wf() && f.bytes() == mmap_bytes(mmap) && open_outcome(mmap_bytes(mmap)) == Ok::<(u8, u8, u8, u8, u8), TablebaseFileError>(f.header()),
                Err(e) => open_outcome(mmap_bytes(mmap)) == Err::<(u8, u8, u8, u8, u8), TablebaseFileError>(e),
            },
    {
        let ghost b = mmap_bytes(mmap);
        let len = mmap_len(&mmap);
        if len < HEADER_SIZE {
            return Err(TablebaseFileError::FileTooSmall { len });
        }
        let m0 = mmap_byte(&mmap, 0);
        let m1 = mmap_byte(&mmap, 1);
        let m2 = mmap_byte(&mmap, 2);
        let m3 = mmap_byte(&mmap, 3);
        if !(m0 == 0x45u8 && m1 == 0x53u8 && m2 == 0x43u8 && m3 == 0x51u8) {
            proof {
                if b.subrange(0, 4) == magic_spec() {
                    assert(b.subrange(0, 4)[0] == b[0]);
                    assert(b.subrange(0, 4)[1] == b[1]);
                    assert(b.subrange(0, 4)[2] == b[2]);
                    assert(b.subrange(0, 4)[3] == b[3]);
                }
            }
            return Err(TablebaseFileError::InvalidMagic { magic: (m0, m1, m2, m3) });
        }
        assert(b.subrange(0, 4) =~= magic_spec());
        let version = mmap_byte(&mmap, 4);
        if version != VERSION {
            return Err(TablebaseFileError::UnsupportedVersion { version });
        }
        let depth = mmap_byte(&mmap, 5);
        if depth > 16 {
            return Err(TablebaseFileError::InvalidDepth { depth });
        }
        let shard_id = mmap_byte(&mmap, 6);
        let shard_bits = mmap_byte(&mmap, 7);
        proof {
            lemma_pow2_shard(shard_bits);
        }
        if shard_bits < 8 {
            let num_shards: u16 = 1u16 << (shard_bits as u16);
            if shard_id as u16 >= num_shards {
                return Err(TablebaseFileError::InvalidShardId { shard_id, num_shards, shard_bits });
            }
        }
        let bucket_bits = mmap_byte(&mmap, 8);
        let slot_bits = mmap_byte(&mmap, 9);
        let num_buckets: u64 = 1u64 << (bucket_bits as u64);
        let num_slots: u64 = 1u64 << (slot_bits as u64);
        proof {
            crate::bits::lemma_pow2_u64(bucket_bits as u64);
            crate::bits::lemma_pow2_u64(slot_bits as u64);
            assert(b[8] == bucket_bits && b[9] == slot_bits);
            assert(header_prefix_ok(b));
        }
        let sigma_table_size: u64 = num_buckets * 2;
        let outcomes_table_size: u64 = num_slots / 2 + num_slots % 2;
        assert(outcomes_table_size == (num_slots as int + 1) / 2);
        let expected: u64 = 18 + sigma_table_size + outcomes_table_size;
        if len as u64 != expected {
            return Err(TablebaseFileError::SizeMismatch { len, expected });
        }
        let outcomes_offset: usize = HEADER_SIZE + sigma_table_size as usize;
        Ok(TablebaseFile {
            mmap,
            depth,
            shard_id,
            shard_bits,
            bucket_mask: num_buckets - 1,
            slot_mask: num_slots - 1,
            outcomes_offset,
        })
    }

    /// Whether the header of a mapped file stays within the sizes that
    /// `from_mmap` can work with: callers test this before opening.
    pub fn header_in_range(mmap: &Mmap) -> (r: bool)
        ensures
            r == header_arith_ok(mmap_bytes(*mmap)),
    {
        let ghost b = mmap_bytes(*mmap);
        let len = mmap_len(mmap);
        if len < HEADER_SIZE {
            return true;
        }
        let m0 = mmap_byte(mmap, 0);
        let m1 = mmap_byte(mmap, 1);
        let m2 = mmap_byte(mmap, 2);
        let m3 = mmap_byte(mmap, 3);
        if !(m0 == 0x45u8 && m1 == 0x53u8 && m2 == 0x43u8 && m3 == 0x51u8) {
            assert(b.subrange(0, 4) != magic_spec()) by {
                if b.subrange(0, 4) == magic_spec() {
                    assert(b.subrange(0, 4)[0] == b[0]);
                    assert(b.subrange(0, 4)[1] == b[1]);
                    assert(b.subrange(0, 4)[2] == b[2]);
                    assert(b.subrange(0, 4)[3] == b[3]);
                }
            }
            return true;
        }
        assert(b.subrange(0, 4) =~= magic_spec());
        let version = mmap_byte(mmap, 4);
        let depth = mmap_byte(mmap, 5);
        if version != VERSION || depth > 16 {
            return true;
        }
        let shard_id = mmap_byte(mmap, 6);
        let shard_bits = mmap_byte(mmap, 7);
        proof {
            lemma_pow2_shard(shard_bits);
        }
        if shard_bits < 8 {
            let num_shards: u16 = 1u16 << shard_bits as u16;
            if shard_id as u16 >= num_shards {
                return true;
            }
        }
        let bucket_bits = mmap_byte(mmap, 8);
        let slot_bits = mmap_byte(mmap, 9);
        bucket_bits < 63 && slot_bits < 64
    }

    /// Open a mapped file whose header sizes are in range: `None` when they
    /// are not (the file cannot be opened), otherwise what `from_mmap` gives.
    pub fn from_mmap_checked(mmap: Mmap) -> (r: Option<Result<TablebaseFile, TablebaseFileError>>)
        ensures
            !header_arith_ok(mmap_bytes(mmap)) <==> r is None,
            r matches Some(Ok(f)) ==> f.wf() && f.bytes() == mmap_bytes(mmap)
                && open_outcome(mmap_bytes(mmap)) == Ok::<(u8, u8, u8, u8, u8), TablebaseFileError>(f.header()),
            r matches Some(Err(e)) ==> open_outcome(mmap_bytes(mmap)) == Err::<(u8, u8, u8, u8, u8), TablebaseFileError>(e),
    {
        if TablebaseFile::header_in_range(&mmap) {
            Some(TablebaseFile::from_mmap(mmap))
        } else {
            None
        }
    }

    /// Query outcome for a position (4-bit value 0-15).
    pub fn query(&self, node: &Node) -> (r: u8)
        requires
            self.wf(),
        ensures
            r == self.query_spec(*node),
            r < 16,
    {
        let key = node.to_bytes();
        let hash_bucket = hash_bucket_node(node);
        let bucket_id = hash_bucket & self.bucket_mask;
        let bm = self.bucket_mask;
        proof {
            crate::bits::lemma_and_le_u64(hash_bucket, bm);
        }
        let sigma = self.read_sigma(bucket_id);
        let hash_phi = hash_phi_bytes(&key, sigma as u64);
        let slot = hash_phi & self.slot_mask;
        let sm = self.slot_mask;
        proof {
            crate::bits::lemma_and_le_u64(hash_phi, sm);
        }
        self.read_outcome(slot)
    }

    /// Read sigma value (u16) for a bucket.
    fn read_sigma(&self, bucket_id: u64) -> (r: u16)
        requires
            self.wf(),
            bucket_id <= self.bucket_mask,
        ensures
            r == self.sigma_of(bucket_id),
    {
        assert(self.bytes().len() == self.outcomes_offset + (self.slot_mask + 2) / 2);
        let offset = HEADER_SIZE + (bucket_id as usize) * 2;
        let lo = mmap_byte(&self.mmap, offset);
        let hi = mmap_byte(&self.mmap, offset + 1);
        (lo as u16) | ((hi as u16) << 8u16)
    }

    /// Read the 4-bit outcome from a slot.
    fn read_outcome(&self, slot: u64) -> (r: u8)
        requires
            self.wf(),
            slot <= self.slot_mask,
        ensures
            r == self.outcome_in_slot(slot),
            r < 16,
    {
        assert(self.bytes().len() == self.outcomes_offset + (self.slot_mask + 2) / 2);
        assert(slot / 2 < (self.slot_mask + 2) / 2);
        let byte_offset = self.outcomes_offset + (slot / 2) as usize;
        let byte = mmap_byte(&self.mmap, byte_offset);
        proof {
            crate::bits::lemma_nibble_u8(byte, 0);
        }
        if slot % 2 == 0 {
            byte >> 4u8
        } else {
            byte & 0x0Fu8
        }
    }

    /// A validated file's lookup reads its bytes as a minimal-perfect-hash index.
    pub proof fn lemma_query_reads_index(self, node: Node)
        requires
            self.wf(),
        ensures
            self.query_spec(node) == crate::index::index_lookup(self.bytes(), node.bytes_spec()),
    {
        let b = self.bytes();
        let slot = self.slot_of(node);
        let sm = self.slot_mask;
        let h = hash_phi_spec(node.bytes_spec(), self.sigma_of(self.bucket_of(node)) as u64);
        crate::bits::lemma_and_le_u64(h, sm);
        assert(b.len() == self.outcomes_offset + (self.slot_mask + 2) / 2);
        let sub = b.subrange(self.outcomes_offset as int, b.len() as int);
        assert(sub[slot as int / 2] == b[self.outcomes_offset + slot / 2]);
    }

    /// File size in bytes.
    pub fn size(&self) -> (r: usize)
        ensures
            r == self.bytes().len(),
    {
        mmap_len(&self.mmap)
    }
}

} // verus!

verus! {

/// Depth, shard id and shard bits of each file, in load order.
pub type FileMeta = (u8, u8, u8);

/// Why a set of tablebase files does not form an index.
#[derive(Debug, Clone, Copy, PartialEq, Eq, Structural)]
pub enum TablebaseIndexError {
    /// Two files of one depth disagree on the number of shard bits.
    InconsistentShardBits { depth: u8, existing: u8, found: u8 },
    /// Two files hold the same shard of the same depth.
    DuplicateShard { depth: u8, shard_id: u8 },
    /// A depth that has files lacks one of its shards.
    MissingShard { shard: usize, depth: u8, shard_bits: u8 },
}

/// File `i` disagrees on shard bits with an earlier file of its depth.
pub open spec fn bits_conflict(m: Seq<FileMeta>, i: int) -> bool {
    exists|j: int| 0 <= j < i && (#[trigger] m[j]).0 == m[i].0 && m[j].2 != m[i].2
}

/// File `i` repeats the shard of an earlier file of its depth.
pub open spec fn duplicate_shard(m: Seq<FileMeta>, i: int) -> bool {
    exists|j: int| 0 <= j < i && (#[trigger] m[j]).0 == m[i].0 && m[j].1 == m[i].1
}

pub open spec fn file_bad(m: Seq<FileMeta>, i: int) -> bool {
    bits_conflict(m, i) || duplicate_shard(m, i)
}

/// No file before `n` is rejected.
pub open spec fn none_bad_before(m: Seq<FileMeta>, n: int) -> bool {
    forall|i: int| 0 <= i < n ==> !#[trigger] file_bad(m, i)
}

/// Some file of depth `d` is loaded.
pub open spec fn depth_present(m: Seq<FileMeta>, d: int) -> bool {
    exists|i: int| 0 <= i < m.len() && (#[trigger] m[i]).0 == d
}

/// The first loaded file of depth `d`.
pub open spec fn first_of_depth(m: Seq<FileMeta>, d: int) -> int {
    choose|i: int| 0 <= i < m.len() && (#[trigger] m[i]).0 == d && forall|j: int| 0 <= j < i ==> (#[trigger] m[j]).0 != d
}

/// Shard `s` of depth `d` is loaded.
pub open spec fn shard_present(m: Seq<FileMeta>, d: int, s: int) -> bool {
    exists|i: int| 0 <= i < m.len() && (#[trigger] m[i]).0 == d && m[i].1 == s
}

/// Shard `s` of depth `d` is missing although the depth has files.
pub open spec fn shard_missing(m: Seq<FileMeta>, d: int, s: int) -> bool {
    depth_present(m, d) && 0 <= s < vstd::arithmetic::power2::pow2(m[first_of_depth(m, d)].2 as nat)
        && !shard_present(m, d, s)
}

/// The result of grouping files into an index, by the rules of loading:
/// the first file that disagrees with an earlier one of its depth stops the
/// load; otherwise the first missing shard (by depth, then shard) does.
pub open spec fn index_check(m: Seq<FileMeta>) -> Result<(), TablebaseIndexError> {
    if exists|i: int| 0 <= i < m.len() && #[trigger] file_bad(m, i) {
        let i = choose|i: int| 0 <= i < m.len() && #[trigger] file_bad(m, i) && none_bad_before(m, i);
        if bits_conflict(m, i) {
            Err(TablebaseIndexError::InconsistentShardBits { depth: m[i].0, existing: m[first_of_depth(m, m[i].0 as int)].2, found: m[i].2 })
        } else {
            Err(TablebaseIndexError::DuplicateShard { depth: m[i].0, shard_id: m[i].1 })
        }
    } else if exists|d: int, s: int| 0 <= d < 18 && #[trigger] shard_missing(m, d, s) {
        let (d, s) = choose|d: int, s: int| 0 <= d < 18 && #[trigger] shard_missing(m, d, s)
            && (forall|d2: int, s2: int| 0 <= d2 < 18 && shard_missing(m, d2, s2) ==> d < d2 || (d == d2 && s <= s2));
        Err(TablebaseIndexError::MissingShard { shard: s as usize, depth: d as u8, shard_bits: m[first_of_depth(m, d)].2 })
    } else {
        Ok(())
    }
}

} // verus!

verus! {

proof fn lemma_first_of_depth(m: Seq<FileMeta>, d: int, j: int)
    requires
        0 <= j < m.len(),
        m[j].0 == d,
        forall|k: int| 0 <= k < j ==> (#[trigger] m[k]).0 != d,
    ensures
        first_of_depth(m, d) == j,
{
    let f = first_of_depth(m, d);
    assert(0 <= f < m.len() && m[f].0 == d && forall|k: int| 0 <= k < f ==> (#[trigger] m[k]).0 != d);
    if f < j {
        assert(m[f].0 != d);
    } else if f > j {
        assert(m[j].0 != d);
    }
}

/// Before a first bad file, every file of a depth has the shard bits of the
/// depth's first file.
proof fn lemma_bits_agree(m: Seq<FileMeta>, i: int, j: int, f: int)
    requires
        0 <= f <= j < i <= m.len(),
        none_bad_before(m, i),
        m[j].0 == m[f].0,
    ensures
        m[j].2 == m[f].2,
{
    if f < j {
        assert(!file_bad(m, j));
        if m[j].2 != m[f].2 {
            assert(bits_conflict(m, j));
        }
    }
}

/// The first file of depth `d`, if any.
fn find_first_of_depth(m: &Vec<FileMeta>, d: u8, limit: usize) -> (r: Option<usize>)
    requires
        limit <= m@.len(),
    ensures
        match r {
            None => forall|k: int| 0 <= k < limit ==> (#[trigger] m@[k]).0 != d,
            Some(f) => f < limit && m@[f as int].0 == d && forall|k: int| 0 <= k < f ==> (#[trigger] m@[k]).0 != d,
        },
{
    let mut j: usize = 0;
    while j < limit
        invariant
            j <= limit <= m@.len(),
            forall|k: int| 0 <= k < j ==> (#[trigger] m@[k]).0 != d,
        decreases limit - j,
    {
        if m[j].0 == d {
            return Some(j);
        }
        j = j + 1;
    }
    None
}

/// Whether shard `shard` of depth `d` is among the files.
fn has_shard(m: &Vec<FileMeta>, d: u8, shard: usize) -> (r: bool)
    ensures
        r == shard_present(m@, d as int, shard as int),
{
    let n = m.len();
    let mut x: usize = 0;
    while x < n
        invariant
            x <= n == m@.len(),
            forall|y: int| 0 <= y < x ==> !((#[trigger] m@[y]).0 == d && m@[y].1 == shard),
        decreases n - x,
    {
        if m[x].0 == d && m[x].1 as usize == shard {
            return true;
        }
        x = x + 1;
    }
    false
}

/// The first missing shard of depth `d`, whose first file is `f`.
fn first_missing_shard(m: &Vec<FileMeta>, d: u8, f: usize) -> (r: Option<usize>)
    requires
        f < m@.len(),
        m@[f as int].0 == d,
        forall|k: int| 0 <= k < f ==> (#[trigger] m@[k]).0 != d,
    ensures
        match r {
            None => forall|s2: int| !#[trigger] shard_missing(m@, d as int, s2),
            Some(s) => shard_missing(m@, d as int, s as int)
                && forall|s2: int| s2 < s ==> !#[trigger] shard_missing(m@, d as int, s2),
        },
{
    proof {
        lemma_first_of_depth(m@, d as int, f as int);
    }
    let bits = m[f].2;
    proof {
        lemma_pow2_shard(bits);
    }
    // A shard id is a byte, so with nine or more shard bits shard 256 is
    // always missing: looking up to it is enough.
    let limit: usize = if bits < 9 { 1usize << (bits as usize) } else { 257 };
    proof {
        if bits < 9 {
            lemma_shard_pow2(bits, 0);
            vstd::arithmetic::power2::lemma2_to64();
        }
        assert(bits < 9 ==> limit == vstd::arithmetic::power2::pow2(bits as nat));
        assert(limit <= vstd::arithmetic::power2::pow2(bits as nat) || bits < 9);
    }
    let mut shard: usize = 0;
    while shard < limit
        invariant
            shard <= limit,
            bits < 9 ==> limit == vstd::arithmetic::power2::pow2(bits as nat),
            bits >= 9 ==> limit == 257 && vstd::arithmetic::power2::pow2(bits as nat) > 256,
            depth_present(m@, d as int),
            first_of_depth(m@, d as int) == f,
            m@[f as int].2 == bits,
            forall|s2: int| s2 < shard ==> !#[trigger] shard_missing(m@, d as int, s2),
        decreases limit - shard,
    {
        if !has_shard(m, d, shard) {
            return Some(shard);
        }
        shard = shard + 1;
    }
    proof {
        if bits >= 9 {
            assert(!shard_present(m@, d as int, 256));
            assert(shard_missing(m@, d as int, 256));
        }
    }
    None
}

/// Check the depth, shard id and shard bits of the files to load.
#[verifier::rlimit(40)]
pub fn check_files(m: &Vec<FileMeta>) -> (r: Result<(), TablebaseIndexError>)
    requires
        forall|i: int| 0 <= i < m@.len() ==> (#[trigger] m@[i]).0 <= 16 && shard_id_ok(m@[i].1, m@[i].2),
    ensures
        r == index_check(m@),
{
    let ghost ms = m@;
    let n = m.len();
    let mut i: usize = 0;
    while i < n
        invariant
            n == ms.len(),
            ms == m@,
            i <= n,
            none_bad_before(ms, i as int),
        decreases n - i,
    {
        let (d, s, b) = m[i];
        let first = find_first_of_depth(m, d, i);
        // does any earlier file of the same depth conflict or repeat the shard?
        let mut conflict = false;
        let mut dup = false;
        let mut k: usize = 0;
        while k < i
            invariant
                k <= i < n,
                n == ms.len(),
                ms == m@,
                (d, s, b) == ms[i as int],
                conflict == exists|x: int| 0 <= x < k && (#[trigger] ms[x]).0 == d && ms[x].2 != b,
                dup == exists|x: int| 0 <= x < k && (#[trigger] ms[x]).0 == d && ms[x].1 == s,
            decreases i - k,
        {
            if m[k].0 == d && m[k].2 != b {
                conflict = true;
            }
            if m[k].0 == d && m[k].1 == s {
                dup = true;
            }
            k = k + 1;
        }
        if conflict || dup {
            proof {
                assert(file_bad(ms, i as int));
                let c = choose|c: int| 0 <= c < ms.len() && #[trigger] file_bad(ms, c) && none_bad_before(ms, c);
                assert(c == i) by {
                    if c < i {
                        assert(!file_bad(ms, c));
                    }
                    if c > i {
                        assert(!file_bad(ms, i as int));
                    }
                }
            }
            if conflict {
                let f = first.unwrap();
                proof {
                    lemma_first_of_depth(ms, d as int, f as int);
                }
                return Err(TablebaseIndexError::InconsistentShardBits { depth: d, existing: m[f].2, found: b });
            } else {
                return Err(TablebaseIndexError::DuplicateShard { depth: d, shard_id: s });
            }
        }
        i = i + 1;
    }
    assert(!exists|i: int| 0 <= i < ms.len() && #[trigger] file_bad(ms, i));
    // every depth that has files must have all of its shards
    let mut d: u8 = 0;
    while d < 18
        invariant
            n == ms.len(),
            ms == m@,
            d <= 18,
            none_bad_before(ms, n as int),
            forall|i: int| 0 <= i < ms.len() ==> (#[trigger] ms[i]).0 <= 16,
            forall|d2: int, s2: int| 0 <= d2 < d ==> !#[trigger] shard_missing(ms, d2, s2),
        decreases 18 - d,
    {
        match find_first_of_depth(m, d, n) {
            None => {
                assert forall|s2: int| !#[trigger] shard_missing(ms, d as int, s2) by {
                    assert(!depth_present(ms, d as int));
                }
            },
            Some(f) => {
                match first_missing_shard(m, d, f) {
                    Some(shard) => {
                        proof {
                            lemma_first_missing(ms, d as int, shard as int);
                            lemma_first_of_depth(ms, d as int, f as int);
                        }
                        return Err(TablebaseIndexError::MissingShard { shard, depth: d, shard_bits: m[f].2 });
                    },
                    None => {},
                }
            },
        }
        assert forall|d2: int, s2: int| 0 <= d2 < d + 1 implies !#[trigger] shard_missing(ms, d2, s2) by {
            if d2 < d {
                assert(!shard_missing(ms, d2, s2));
            }
        }
        d = d + 1;
    }
    Ok(())
}

/// When `(d, s)` is missing and nothing before it is, it is the error reported.
proof fn lemma_first_missing(m: Seq<FileMeta>, d: int, s: int)
    requires
        0 <= d < 18,
        shard_missing(m, d, s),
        forall|d2: int, s2: int| 0 <= d2 < d ==> !#[trigger] shard_missing(m, d2, s2),
        forall|s2: int| s2 < s ==> !#[trigger] shard_missing(m, d, s2),
    ensures
        ({
            let (cd, cs) = choose|cd: int, cs: int| 0 <= cd < 18 && #[trigger] shard_missing(m, cd, cs)
                && (forall|d2: int, s2: int| 0 <= d2 < 18 && shard_missing(m, d2, s2) ==> cd < d2 || (cd == d2 && cs <= s2));
            cd == d && cs == s
        }),
{
    assert(forall|d2: int, s2: int| 0 <= d2 < 18 && shard_missing(m, d2, s2) ==> d < d2 || (d == d2 && s <= s2));
    let (cd, cs) = choose|cd: int, cs: int| 0 <= cd < 18 && #[trigger] shard_missing(m, cd, cs)
        && (forall|d2: int, s2: int| 0 <= d2 < 18 && shard_missing(m, d2, s2) ==> cd < d2 || (cd == d2 && cs <= s2));
    assert(cd < d || (cd == d && cs <= s));
    assert(d < cd || (d == cd && s <= cs));
}

} // verus!

verus! {

impl TablebaseFile {
    /// A validated file has a depth of at most 16 and a shard id below the
    /// number of shards; its header fields are bytes 5 to 9 of the file, which
    /// pass every check of opening.
    pub proof fn lemma_wf_meta(self)
        requires
            self.wf(),
        ensures
            open_outcome(self.bytes()) == Ok::<(u8, u8, u8, u8, u8), TablebaseFileError>(self.header()),
            self.header() == (self.bytes()[5], self.bytes()[6], self.bytes()[7], self.bytes()[8], self.bytes()[9]),
            self.depth_spec() == self.bytes()[5],
            self.shard_id_spec() == self.bytes()[6],
            self.shard_bits_spec() == self.bytes()[7],
            header_arith_ok(self.bytes()),
            self.depth_spec() <= 16,
            shard_id_ok(self.shard_id_spec(), self.shard_bits_spec()),
    {
        let b = self.bytes();
        assert(header_prefix_ok(b));
    }

    /// The depth, shard id and shard bits of the file.
    pub open spec fn meta(self) -> FileMeta {
        (self.depth_spec(), self.shard_id_spec(), self.shard_bits_spec())
    }
}

/// The shards loaded for one depth.
pub struct DepthData {
    shard_bits: u8,
    /// For each shard id, the position of its file in the file list.
    file_index: Vec<usize>,
}

/// All loaded tablebase files, by depth and shard.
pub struct TablebaseIndex {
    files: Vec<TablebaseFile>,
    depths: Vec<Option<DepthData>>,
}

/// The metadata of each file, in order.
pub open spec fn metas(files: Seq<TablebaseFile>) -> Seq<FileMeta> {
    files.map_values(|f: TablebaseFile| f.meta())
}

/// For each shard of depth `d` (whose first file is `f`), the position of its file.
fn build_file_index(meta: &Vec<FileMeta>, d: u8, f: usize, num_shards: usize) -> (r: Vec<usize>)
    requires
        f < meta@.len(),
        meta@[f as int].0 == d,
        num_shards == pow2_64(meta@[f as int].2),
        none_bad_before(meta@, meta@.len() as int),
        forall|t: int| 0 <= t < num_shards ==> #[trigger] shard_present(meta@, d as int, t),
    ensures
        r@.len() == num_shards,
        forall|t: int| 0 <= t < num_shards ==> (#[trigger] r@[t]) < meta@.len() && meta@[r@[t] as int] == (d, t as u8, meta@[f as int].2),
{
    let ghost ms = meta@;
    let n = meta.len();
    let mut file_index: Vec<usize> = Vec::new();
    let mut s: usize = 0;
    while s < num_shards
        invariant
            s <= num_shards,
            ms == meta@,
            n == ms.len(),
            f < n,
            ms[f as int].0 == d,
            none_bad_before(ms, n as int),
            forall|t: int| 0 <= t < num_shards ==> #[trigger] shard_present(ms, d as int, t),
            file_index@.len() == s,
            forall|t: int| 0 <= t < s ==> (#[trigger] file_index@[t]) < n && ms[file_index@[t] as int] == (d, t as u8, ms[f as int].2),
        decreases num_shards - s,
    {
        assert(shard_present(ms, d as int, s as int));
        let mut x: usize = 0;
        let mut found: usize = n;
        while x < n
            invariant
                x <= n == ms.len(),
                ms == meta@,
                found == n || (found < n && ms[found as int].0 == d && ms[found as int].1 == s),
                found == n ==> forall|y: int| 0 <= y < x ==> !((#[trigger] ms[y]).0 == d && ms[y].1 == s),
            decreases n - x,
        {
            if found == n && meta[x].0 == d && meta[x].1 as usize == s {
                found = x;
            }
            x = x + 1;
        }
        proof {
            assert(found < n);
            if found < f {
                lemma_bits_agree(ms, n as int, f as int, found as int);
            } else {
                lemma_bits_agree(ms, n as int, found as int, f as int);
            }
        }
        file_index.push(found);
        s = s + 1;
    }
    file_index
}

impl TablebaseIndex {
    /// A tablebase is loaded for depth `d`.
    pub closed spec fn depth_available(self, d: int) -> bool {
        self.depths@[d] is Some
    }

    /// The shard bits of an available depth.
    pub closed spec fn shard_bits_of(self, d: int) -> u8 {
        self.depths@[d]->Some_0.shard_bits
    }

    /// A loaded depth is split into fewer than `2^16` shards, and each of its
    /// shards is held by one of the loaded files: a validated file of that
    /// depth and shard.
    pub proof fn lemma_shard_bits_small(self, d: int)
        requires
            self.wf(),
            0 <= d < 18,
            self.depth_available(d),
        ensures
            self.shard_bits_of(d) < 16,
            forall|s: int| 0 <= s < pow2_64(self.shard_bits_of(d)) ==> {
                &&& (#[trigger] self.file_of(d, s)).wf()
                &&& self.file_of(d, s).meta() == (d as u8, s as u8, self.shard_bits_of(d))
                &&& self.files_spec().contains(self.file_of(d, s))
            },
    {
        let dd = self.depths@[d]->Some_0;
        assert forall|s: int| 0 <= s < pow2_64(self.shard_bits_of(d)) implies {
            &&& (#[trigger] self.file_of(d, s)).wf()
            &&& self.file_of(d, s).meta() == (d as u8, s as u8, self.shard_bits_of(d))
            &&& self.files_spec().contains(self.file_of(d, s))
        } by {
            let i = dd.file_index@[s] as int;
            assert(self.files@[i] == self.file_of(d, s));
        }
    }

    /// The file of shard `s` of an available depth.
    pub closed spec fn file_of(self, d: int, s: int) -> TablebaseFile {
        self.files@[self.depths@[d]->Some_0.file_index@[s] as int]
    }

    /// Every available depth has one validated file per shard, of that depth and shard.
    pub closed spec fn wf(self) -> bool {
        &&& self.depths@.len() == 18
        &&& forall|i: int| 0 <= i < self.files@.len() ==> (#[trigger] self.files@[i]).wf()
        &&& forall|d: int| 0 <= d < 18 && #[trigger] self.depths@[d] is Some ==> {
            let dd = self.depths@[d]->Some_0;
            &&& dd.shard_bits < 16
            &&& dd.file_index@.len() == pow2_64(dd.shard_bits)
            &&& forall|s: int| 0 <= s < dd.file_index@.len() ==> {
                &&& (#[trigger] dd.file_index@[s]) < self.files@.len()
                &&& self.files@[dd.file_index@[s] as int].meta() == (d as u8, s as u8, dd.shard_bits)
            }
        }
    }

    /// The shard of an available depth that holds `node`: the top shard bits
    /// of its shard hash.
    pub open spec fn shard_of(self, node: Node, d: int) -> int {
        let bits = self.shard_bits_of(d);
        if bits == 0 {
            0
        } else {
            (xxh3_64_with_seed_spec(node.bytes_spec(), DOMAIN_SHARD) >> ((64 - bits) as u64)) as int
        }
    }

    /// The depth of a node: 0 for the root, otherwise pieces on the board plus one.
    pub open spec fn node_depth(node: Node) -> int {
        if node == crate::node::depth_0_sentinel_spec() {
            0
        } else {
            (crate::bits::popcount(node.board.occupancy) + 1) as int
        }
    }

    /// What a lookup of `node` gives: nothing when its depth is above 16 or
    /// not loaded; otherwise the outcome read from the file of its shard.
    pub open spec fn query_spec(self, node: Node) -> Option<u8> {
        let d = TablebaseIndex::node_depth(node);
        if d > 16 || !self.depth_available(d) {
            None
        } else {
            Some(self.file_of(d, self.shard_of(node, d)).query_spec(node))
        }
    }

    /// Group validated files by depth and shard.
    pub fn from_files(files: Vec<TablebaseFile>) -> (r: Result<TablebaseIndex, TablebaseIndexError>)
        requires
            forall|i: int| 0 <= i < files@.len() ==> (#[trigger] files@[i]).wf(),
        ensures
            match r {
                Ok(ix) => {
                    &&& ix.wf()
                    &&& ix.files_spec() == files@
                    &&& index_check(metas(files@)) == Ok::<(), TablebaseIndexError>(())
                    &&& forall|d: int| 0 <= d < 18 ==> (#[trigger] ix.depth_available(d) <==> depth_present(metas(files@), d))
                    &&& forall|d: int, s: int| 0 <= d < 18 && ix.depth_available(d) && 0 <= s < pow2_64(ix.shard_bits_of(d))
                        ==> exists|i: int| 0 <= i < files@.len() && files@[i] == #[trigger] ix.file_of(d, s)
                },
                Err(e) => index_check(metas(files@)) == Err::<(), TablebaseIndexError>(e),
            },
    {
        let n = files.len();
        let mut meta: Vec<FileMeta> = Vec::new();
        let mut i: usize = 0;
        while i < n
            invariant
                i <= n == files@.len(),
                meta@.len() == i,
                forall|k: int| 0 <= k < files@.len() ==> (#[trigger] files@[k]).wf(),
                forall|k: int| 0 <= k < i ==> #[trigger] meta@[k] == files@[k].meta(),
                forall|k: int| 0 <= k < i ==> (#[trigger] meta@[k]).0 <= 16 && shard_id_ok(meta@[k].1, meta@[k].2),
            decreases n - i,
        {
            proof {
                files@[i as int].lemma_wf_meta();
            }
            meta.push((files[i].depth, files[i].shard_id, files[i].shard_bits));
            assert(files@[i as int].depth_spec() == files[i as int].depth);
            i = i + 1;
        }
        assert(meta@ =~= metas(files@));
        match check_files(&meta) {
            Err(e) => {
                return Err(e);
            },
            Ok(()) => {},
        }
        let ghost ms = meta@;
        let mut depths: Vec<Option<DepthData>> = Vec::new();
        let mut d: u8 = 0;
        while d < 18
            invariant
                d <= 18,
                depths@.len() == d,
                ms == meta@,
                ms == metas(files@),
                n == files@.len() == ms.len(),
                index_check(ms) == Ok::<(), TablebaseIndexError>(()),
                forall|e: int| 0 <= e < d ==> (#[trigger] depths@[e] is Some <==> depth_present(ms, e)),
                forall|e: int| 0 <= e < d && #[trigger] depths@[e] is Some ==> {
                    let dd = depths@[e]->Some_0;
                    &&& dd.shard_bits < 16
                    &&& dd.file_index@.len() == pow2_64(dd.shard_bits)
                    &&& forall|s: int| 0 <= s < dd.file_index@.len() ==> {
                        &&& (#[trigger] dd.file_index@[s]) < n
                        &&& ms[dd.file_index@[s] as int] == (e as u8, s as u8, dd.shard_bits)
                    }
                },
            decreases 18 - d,
        {
            match find_first_of_depth(&meta, d, n) {
                None => {
                    depths.push(None);
                },
                Some(f) => {
                    proof {
                        lemma_first_of_depth(ms, d as int, f as int);
                    }
                    let bits = meta[f].2;
                    proof {
                        lemma_pow2_shard(bits);
                        assert(!exists|i: int| 0 <= i < ms.len() && #[trigger] file_bad(ms, i));
                        assert(!(exists|d2: int, s2: int| 0 <= d2 < 18 && #[trigger] shard_missing(ms, d2, s2)));
                        // a shard id is a byte: with nine or more bits shard 256 would be missing
                        if bits >= 9 {
                            assert(!shard_present(ms, d as int, 256));
                            assert(shard_missing(ms, d as int, 256));
                        }
                        lemma_shard_pow2(bits, 0);
                    }
                    let num_shards: usize = 1usize << (bits as usize);
                    proof {
                        assert forall|t: int| 0 <= t < pow2_64(bits) implies #[trigger] shard_present(ms, d as int, t) by {
                            assert(!(exists|d2: int, s2: int| 0 <= d2 < 18 && #[trigger] shard_missing(ms, d2, s2)));
                            assert(!shard_missing(ms, d as int, t));
                        }
                    }
                    let file_index = build_file_index(&meta, d, f, num_shards);
                    depths.push(Some(DepthData { shard_bits: bits, file_index }));
                },
            }
            d = d + 1;
        }
        let ix = TablebaseIndex { files, depths };
        proof {
            assert forall|dd: int, s: int| 0 <= dd < 18 && ix.depth_available(dd) && 0 <= s < pow2_64(ix.shard_bits_of(dd))
                implies exists|i: int| 0 <= i < files@.len() && files@[i] == #[trigger] ix.file_of(dd, s) by {
                let i = ix.depths@[dd]->Some_0.file_index@[s] as int;
                assert(files@[i] == ix.file_of(dd, s));
            }
            assert forall|k: int| 0 <= k < ix.files@.len() implies (#[trigger] ix.files@[k]).wf() by {
            }
            assert forall|e: int| 0 <= e < 18 && #[trigger] ix.depths@[e] is Some implies {
                let dd = ix.depths@[e]->Some_0;
                forall|s: int| 0 <= s < dd.file_index@.len() ==> {
                    &&& (#[trigger] dd.file_index@[s]) < ix.files@.len()
                    &&& ix.files@[dd.file_index@[s] as int].meta() == (e as u8, s as u8, dd.shard_bits)
                }
            } by {
                let dd = ix.depths@[e]->Some_0;
                assert forall|s: int| 0 <= s < dd.file_index@.len() implies {
                    &&& (#[trigger] dd.file_index@[s]) < ix.files@.len()
                    &&& ix.files@[dd.file_index@[s] as int].meta() == (e as u8, s as u8, dd.shard_bits)
                } by {
                    assert(ms[dd.file_index@[s] as int] == ix.files@[dd.file_index@[s] as int].meta());
                }
            }
        }
        Ok(ix)
    }
}

} // verus!

verus! {

impl TablebaseIndex {
    /// Which depths have a tablebase loaded.
    pub fn available_depths(&self) -> (r: [bool; 18])
        requires
            self.wf(),
        ensures
            forall|d: int| 0 <= d < 18 ==> r@[d] == self.depth_available(d),
    {
        let mut available = [false; 18];
        let mut i: usize = 0;
        while i < 18
            invariant
                i <= 18,
                self.depths@.len() == 18,
                forall|d: int| 0 <= d < i ==> available@[d] == self.depth_available(d),
            decreases 18 - i,
        {
            available[i] = self.depths[i].is_some();
            i = i + 1;
        }
        available
    }

    /// The total size of the first `k` files of `fs`.
    pub open spec fn total_size(fs: Seq<TablebaseFile>, k: int) -> int
        decreases k,
    {
        if k <= 0 {
            0
        } else {
            TablebaseIndex::total_size(fs, k - 1) + fs[k - 1].bytes().len()
        }
    }

    /// The loaded files, in load order.
    pub closed spec fn files_spec(self) -> Seq<TablebaseFile> {
        self.files@
    }

    /// Total memory usage of all loaded tablebase files (the sum of their
    /// sizes, which cannot exceed the address space).
    pub fn memory_usage(&self) -> (r: usize)
        ensures
            r == if TablebaseIndex::total_size(self.files_spec(), self.files_spec().len() as int) <= usize::MAX {
                TablebaseIndex::total_size(self.files_spec(), self.files_spec().len() as int)
            } else {
                usize::MAX as int
            },
    {
        let mut total: usize = 0;
        let mut saturated = false;
        let mut i: usize = 0;
        while i < self.files.len()
            invariant
                i <= self.files@.len(),
                saturated ==> total == usize::MAX && TablebaseIndex::total_size(self.files@, i as int) > usize::MAX,
                !saturated ==> total == TablebaseIndex::total_size(self.files@, i as int),
            decreases self.files@.len() - i,
        {
            let sz = self.files[i].size();
            if !saturated {
                if total <= usize::MAX - sz {
                    total = total + sz;
                } else {
                    total = usize::MAX;
                    saturated = true;
                }
            }
            i = i + 1;
        }
        total
    }

    /// Look up the outcome of a position: `None` when its depth has no tablebase.
    pub fn query(&self, node: &Node) -> (r: Option<u8>)
        requires
            self.wf(),
        ensures
            r == self.query_spec(*node),
            r matches Some(o) ==> o < 16,
    {
        let depth: usize = if node.equals(&crate::node::depth_0_sentinel()) {
            0
        } else {
            (crate::bits::count_ones(node.board.occupancy) + 1) as usize
        };
        if depth > 16 {
            return None;
        }
        match &self.depths[depth] {
            None => None,
            Some(depth_data) => {
                let bits = depth_data.shard_bits;
                proof {
                    assert(self.depths@[depth as int] is Some);
                    assert(bits < 16);
                    assert(depth_data.file_index@.len() == pow2_64(bits));
                    lemma_shard_pow2(bits, 0);
                }
                let shard_id: usize = if bits == 0 {
                    0
                } else {
                    let shard_hash = hash_shard_node(node);
                    proof {
                        lemma_shard_pow2(bits, shard_hash);
                    }
                    (shard_hash >> ((64 - bits) as u64)) as usize
                };
                if shard_id >= depth_data.file_index.len() {
                    return None;
                }
                let fi = depth_data.file_index[shard_id];
                proof {
                    assert(self.depths@[depth as int] is Some);
                }
                Some(self.files[fi].query(node))
            },
        }
    }
}

} // verus!
