//! In-memory buffers of record keys bound for shard files, and the choice of
//! which buffer to spill when a worker's memory cap is exceeded.

use vstd::prelude::*;

verus! {

/// Bytes of one record key.
pub const KEY_BYTES: usize = 11;

/// Record keys waiting to be appended to one shard file, in arrival order.
pub struct ShardBuffer {
    buffer: Vec<u8>,
}

impl View for ShardBuffer {
    type V = Seq<u8>;

    closed spec fn view(&self) -> Seq<u8> {
        self.buffer@
    }
}

impl ShardBuffer {
    /// An empty buffer.
    pub fn new() -> (r: Self)
        ensures
            r@ == Seq::<u8>::empty(),
    {
        ShardBuffer { buffer: Vec::with_capacity(1024 * 1024) }
    }

    /// Append an 11-byte key to the buffer.
    pub fn append_fast(&mut self, key: &[u8; 11])
        ensures
            final(self)@ == old(self)@ + key@,
    {
        let ghost before = self.buffer@;
        let mut i: usize = 0;
        while i < KEY_BYTES
            invariant
                i <= KEY_BYTES,
                self.buffer@ == before + key@.subrange(0, i as int),
            decreases KEY_BYTES - i,
        {
            self.buffer.push(key[i]);
            proof {
                assert(key@.subrange(0, i + 1) =~= key@.subrange(0, i as int).push(key@[i as int]));
            }
            i = i + 1;
        }
        proof {
            assert(key@.subrange(0, 11) =~= key@);
        }
    }

    /// Number of bytes buffered.
    pub fn buffered_len(&self) -> (r: usize)
        ensures
            r == self@.len(),
    {
        self.buffer.len()
    }

    /// The buffered bytes, in arrival order.
    pub fn as_bytes(&self) -> (r: &[u8])
        ensures
            r@ == self@,
    {
        self.buffer.as_slice()
    }

    /// Drop the buffered bytes once they are on disk.
    pub fn clear(&mut self)
        ensures
            final(self)@ == Seq::<u8>::empty(),
    {
        self.buffer.clear();
    }
}

impl Default for ShardBuffer {
    fn default() -> (r: Self)
        ensures
            r@ == Seq::<u8>::empty(),
    {
        ShardBuffer { buffer: Vec::new() }
    }
}

/// The bytes of `keys` laid end to end, in order.
pub open spec fn keys_bytes(keys: Seq<[u8; 11]>) -> Seq<u8>
    decreases keys.len(),
{
    if keys.len() == 0 {
        Seq::empty()
    } else {
        keys_bytes(keys.drop_last()) + keys.last()@
    }
}

/// Appending keys one after another to a buffer leaves the buffer's old
/// bytes followed by the keys in arrival order, eleven bytes each: when each
/// state is the one before with the next key appended (what `append_fast`
/// ensures), the last state is the first plus all keys laid end to end, and
/// key `i` sits at bytes `11 * i .. 11 * i + 11` of that tail.
pub proof fn lemma_appends_concatenate(states: Seq<Seq<u8>>, keys: Seq<[u8; 11]>)
    requires
        states.len() == keys.len() + 1,
        forall|i: int| 0 <= i < keys.len() ==> #[trigger] states[i + 1] == states[i] + keys[i]@,
    ensures
        states.last() == states[0] + keys_bytes(keys),
        keys_bytes(keys).len() == 11 * keys.len(),
        forall|i: int, j: int|
            0 <= i < keys.len() && 0 <= j < 11 ==> #[trigger] keys_bytes(keys)[11 * i + j] == keys[i]@[j],
    decreases keys.len(),
{
    if keys.len() > 0 {
        let n = keys.len() - 1;
        let ks = keys.drop_last();
        let ss = states.drop_last();
        assert forall|i: int| 0 <= i < ks.len() implies #[trigger] ss[i + 1] == ss[i] + ks[i]@ by {
            assert(states[i + 1] == states[i] + keys[i]@);
        }
        lemma_appends_concatenate(ss, ks);
        assert(states[n + 1] == states[n] + keys[n]@);
        assert(states.last() =~= states[0] + keys_bytes(keys));
        let t = keys_bytes(keys);
        assert forall|i: int, j: int| 0 <= i < keys.len() && 0 <= j < 11 implies #[trigger] t[11 * i + j] == keys[i]@[j] by {
            if i < n {
                assert(keys_bytes(ks)[11 * i + j] == ks[i]@[j]);
            }
        }
    }
}

/// The buffer to spill next: the first of the longest buffers, when it holds
/// anything.
pub open spec fn is_spill_victim(lens: Seq<usize>, r: Option<usize>) -> bool {
    match r {
        None => forall|i: int| 0 <= i < lens.len() ==> #[trigger] lens[i] == 0,
        Some(v) => {
            &&& v < lens.len()
            &&& lens[v as int] > 0
            &&& forall|i: int| 0 <= i < lens.len() ==> #[trigger] lens[i] <= lens[v as int]
            &&& forall|i: int| 0 <= i < v ==> #[trigger] lens[i] < lens[v as int]
        },
    }
}

/// Of buffers of lengths `lens`, the one to spill when over the memory cap:
/// the first longest, or none when every buffer is empty.
pub fn spill_victim(lens: &Vec<usize>) -> (r: Option<usize>)
    ensures
        is_spill_victim(lens@, r),
{
    let mut victim: Option<usize> = None;
    let mut victim_length: usize = 0;
    let mut i: usize = 0;
    while i < lens.len()
        invariant
            i <= lens.len(),
            victim is None ==> victim_length == 0,
            forall|j: int| 0 <= j < i ==> #[trigger] lens@[j] <= victim_length,
            match victim {
                None => forall|j: int| 0 <= j < i ==> #[trigger] lens@[j] == 0,
                Some(v) => v < i && lens@[v as int] == victim_length && victim_length > 0
                    && forall|j: int| 0 <= j < v ==> #[trigger] lens@[j] < victim_length,
            },
        decreases lens.len() - i,
    {
        if lens[i] > victim_length {
            victim_length = lens[i];
            victim = Some(i);
        }
        i = i + 1;
    }
    victim
}

/// Number of decimal digits of `n`, for `n > 0`.
pub open spec fn decimal_digits(n: nat) -> nat
    decreases n,
{
    if n < 10 {
        1
    } else {
        1 + decimal_digits(n / 10)
    }
}

/// Width of the zero-padded shard number in file names: the digits of the
/// largest shard number, `2^shard_bits - 1`, and 1 for a single shard.
pub fn filename_width(shard_bits: u8) -> (r: usize)
    requires
        shard_bits < 64,
    ensures
        r == (if shard_bits == 0 { 1 } else { decimal_digits((vstd::arithmetic::power2::pow2(shard_bits as nat) - 1) as nat) }),
{
    proof {
        vstd::bits::lemma_u64_pow2_no_overflow(shard_bits as nat);
        vstd::bits::lemma_u64_shl_is_mul(1u64, shard_bits as u64);
        vstd::arithmetic::power2::lemma2_to64();
        if shard_bits > 0 {
            vstd::arithmetic::power2::lemma_pow2_strictly_increases(0, shard_bits as nat);
        }
    }
    let n: u64 = 1u64 << shard_bits as u64;
    if n <= 1 {
        return 1;
    }
    let mut m: u64 = n - 1;
    let mut width: usize = 1;
    proof {
        lemma_digits_bound(m as nat);
    }
    while m >= 10
        invariant
            1 <= width <= 20,
            width + decimal_digits(m as nat) == 1 + decimal_digits((n - 1) as nat),
            decimal_digits((n - 1) as nat) <= 20,
        decreases m,
    {
        proof {
            lemma_digits_bound(m as nat);
            lemma_digits_bound((m / 10) as nat);
        }
        m = m / 10;
        width = width + 1;
    }
    assert(decimal_digits(m as nat) == 1);
    width
}

spec fn ten_pow(k: nat) -> nat
    decreases k,
{
    if k == 0 {
        1
    } else {
        10 * ten_pow((k - 1) as nat)
    }
}

proof fn lemma_digits_le(n: nat, k: nat)
    requires
        k >= 1,
        n < ten_pow(k),
    ensures
        decimal_digits(n) <= k,
    decreases n,
{
    if n >= 10 {
        assert(k >= 2) by {
            if k == 1 {
                assert(ten_pow(1) == 10 * ten_pow(0));
            }
        }
        assert(ten_pow(k) == 10 * ten_pow((k - 1) as nat));
        lemma_digits_le(n / 10, (k - 1) as nat);
    }
}

proof fn lemma_digits_bound(n: nat)
    requires
        n < 0x1_0000_0000_0000_0000,
    ensures
        decimal_digits(n) <= 20,
        n >= 10 ==> decimal_digits(n) == 1 + decimal_digits(n / 10),
        decimal_digits(n) >= 1,
{
    reveal_with_fuel(ten_pow, 21);
    assert(ten_pow(20) == 100000000000000000000nat);
    lemma_digits_le(n, 20);
}

} // verus!

verus! {

/// Operating-system error codes of transient I/O failures worth retrying:
/// EIO, EINTR, EAGAIN (35 on macOS), ETIMEDOUT (60 on macOS) and ENXIO.
pub open spec fn retryable_code(code: i32) -> bool {
    code == 5 || code == 4 || code == 35 || code == 60 || code == 6
}

/// Whether an I/O error with this raw OS code is retried.
pub fn is_retryable_io(raw_os_error: Option<i32>) -> (r: bool)
    ensures
        r == (raw_os_error matches Some(c) && retryable_code(c)),
{
    match raw_os_error {
        Some(c) => c == 5 || c == 4 || c == 35 || c == 60 || c == 6,
        None => false,
    }
}

} // verus!
