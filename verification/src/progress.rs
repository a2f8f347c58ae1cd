//! Progress figures for the console: numbers with thousands separators and
//! elapsed times as hours, minutes and seconds.

use vstd::prelude::*;
use crate::parsing::{hex_char, hex_digit_str};

verus! {

/// The decimal digits of `n`, most significant first, without leading zeros.
pub open spec fn decimal(n: nat) -> Seq<char>
    decreases n,
{
    if n < 10 {
        seq![hex_char(n as u8)]
    } else {
        decimal(n / 10).push(hex_char((n % 10) as u8))
    }
}

/// The characters of `s` from index `k` on, each followed by a comma when
/// the number of characters after it is a positive multiple of three.
pub open spec fn with_separators(s: Seq<char>, k: int) -> Seq<char>
    decreases s.len() - k,
{
    if k < 0 || k >= s.len() {
        Seq::empty()
    } else {
        let after = s.len() - 1 - k;
        let sep: Seq<char> = if after > 0 && after % 3 == 0 { seq![','] } else { Seq::empty() };
        seq![s[k]] + sep + with_separators(s, k + 1)
    }
}

/// The decimal digits of `n`, most significant first.
fn decimal_digits(n: u64) -> (r: Vec<u8>)
    ensures
        r@.len() == decimal(n as nat).len(),
        forall|i: int| 0 <= i < r@.len() ==> #[trigger] r@[i] < 10 && hex_char(r@[i]) == decimal(n as nat)[i],
{
    let mut ds: Vec<u8> = Vec::new();
    let mut m: u64 = n;
    loop
        invariant_except_break
            decimal(n as nat) == decimal(m as nat) + ds@.map_values(|d: u8| hex_char(d)),
        invariant
            forall|i: int| 0 <= i < ds@.len() ==> #[trigger] ds@[i] < 10,
        ensures
            decimal(n as nat) == ds@.map_values(|d: u8| hex_char(d)),
        decreases m,
    {
        let d = (m % 10) as u8;
        let ghost before = ds@;
        ds.insert(0, d);
        proof {
            assert(ds@.map_values(|d: u8| hex_char(d)) =~= seq![hex_char(d)] + before.map_values(|d: u8| hex_char(d)));
        }
        if m < 10 {
            proof {
                assert(decimal(m as nat) == seq![hex_char(d)]);
                assert(decimal(n as nat) =~= ds@.map_values(|d: u8| hex_char(d)));
            }
            break;
        }
        proof {
            assert(decimal(m as nat) == decimal((m / 10) as nat).push(hex_char(d)));
            assert(decimal(m as nat) + before.map_values(|d: u8| hex_char(d))
                =~= decimal((m / 10) as nat) + ds@.map_values(|d: u8| hex_char(d)));
        }
        m = m / 10;
    }
    proof {
        assert forall|i: int| 0 <= i < ds@.len() implies #[trigger] ds@[i] < 10 && hex_char(ds@[i]) == decimal(n as nat)[i] by {
            assert(ds@.map_values(|d: u8| hex_char(d))[i] == hex_char(ds@[i]));
        }
    }
    ds
}

/// Append the decimal digits of `n` to `s`.
fn push_decimal(s: &mut String, n: u64)
    ensures
        final(s)@ == old(s)@ + decimal(n as nat),
{
    let ds = decimal_digits(n);
    let ghost start = s@;
    let mut k: usize = 0;
    while k < ds.len()
        invariant
            k <= ds@.len(),
            ds@.len() == decimal(n as nat).len(),
            forall|i: int| 0 <= i < ds@.len() ==> #[trigger] ds@[i] < 10 && hex_char(ds@[i]) == decimal(n as nat)[i],
            s@ == start + decimal(n as nat).subrange(0, k as int),
        decreases ds@.len() - k,
    {
        let d = ds[k];
        assert(ds@[k as int] < 10);
        s.append(hex_digit_str(d));
        assert(decimal(n as nat).subrange(0, k + 1) =~= decimal(n as nat).subrange(0, k as int).push(decimal(n as nat)[k as int]));
        k = k + 1;
    }
    assert(decimal(n as nat).subrange(0, k as int) =~= decimal(n as nat));
}

/// Format a count with a comma between each group of three digits.
pub fn format_number(n: u64) -> (r: String)
    ensures
        r@ == with_separators(decimal(n as nat), 0),
{
    let ds = decimal_digits(n);
    let ghost s = decimal(n as nat);
    let len = ds.len();
    let mut out = String::new();
    let mut k: usize = 0;
    while k < len
        invariant
            k <= len,
            len == ds@.len(),
            ds@.len() == s.len(),
            s == decimal(n as nat),
            forall|i: int| 0 <= i < ds@.len() ==> #[trigger] ds@[i] < 10 && hex_char(ds@[i]) == s[i],
            out@ + with_separators(s, k as int) == with_separators(s, 0),
        decreases len - k,
    {
        let ghost before = out@;
        assert(ds@[k as int] < 10);
        out.append(hex_digit_str(ds[k]));
        let after = len - 1 - k;
        if after > 0 && after % 3 == 0 {
            proof {
                reveal_strlit(",");
            }
            out.append(",");
        }
        proof {
            let sep: Seq<char> = if after > 0 && after % 3 == 0 { seq![','] } else { Seq::empty() };
            assert(out@ =~= before + seq![s[k as int]] + sep);
            assert(with_separators(s, k as int) == seq![s[k as int]] + sep + with_separators(s, k + 1));
            assert(before + (seq![s[k as int]] + sep + with_separators(s, k + 1)) =~= out@ + with_separators(s, k + 1));
        }
        k = k + 1;
    }
    assert(with_separators(s, len as int) =~= Seq::<char>::empty());
    assert(out@ + Seq::<char>::empty() =~= out@);
    out
}

/// A number in at least two digits, with a leading zero below ten.
pub open spec fn two_digits(n: nat) -> Seq<char> {
    if n < 10 {
        seq!['0'] + decimal(n)
    } else {
        decimal(n)
    }
}

/// Append `n` in at least two digits.
fn push_two_digits(s: &mut String, n: u64)
    ensures
        final(s)@ == old(s)@ + two_digits(n as nat),
{
    let ghost start = s@;
    if n < 10 {
        proof {
            reveal_strlit("0");
        }
        s.append("0");
        push_decimal(s, n);
        assert(s@ =~= start + two_digits(n as nat));
    } else {
        push_decimal(s, n);
    }
}

/// Elapsed time as `HH:MM:SS`; the hours take more digits past 99.
pub fn format_duration(total_secs: u64) -> (r: String)
    ensures
        r@ == two_digits((total_secs / 3600) as nat) + seq![':'] + two_digits(((total_secs % 3600) / 60) as nat)
            + seq![':'] + two_digits((total_secs % 60) as nat),
{
    let hours = total_secs / 3600;
    let minutes = (total_secs % 3600) / 60;
    let seconds = total_secs % 60;
    let mut out = String::new();
    push_two_digits(&mut out, hours);
    proof {
        reveal_strlit(":");
    }
    out.append(":");
    push_two_digits(&mut out, minutes);
    out.append(":");
    push_two_digits(&mut out, seconds);
    out
}

} // verus!

verus! {

/// Positions counted per report to the shared total.
pub const REPORT_BATCH: u64 = 10_000;

/// A worker's count of written positions, reported to the run's shared total
/// in batches of `REPORT_BATCH`: `written` counts every position the worker
/// has written (from the count it resumed at), `pending` those not yet added
/// to the shared total.
pub struct PositionCounter {
    pub written: u64,
    pub pending: u64,
}

impl PositionCounter {
    /// A counter resuming at `starting` written positions, all already in the
    /// shared total.
    pub fn new(starting: u64) -> (r: Self)
        ensures
            r.written == starting,
            r.pending == 0,
    {
        PositionCounter { written: starting, pending: 0 }
    }

    /// Count one more position; returns how much to add to the shared total:
    /// a whole batch once `REPORT_BATCH` positions are pending, else nothing.
    pub fn count_one(&mut self) -> (r: u64)
        requires
            old(self).written < u64::MAX,
            old(self).pending < REPORT_BATCH,
        ensures
            final(self).written == old(self).written + 1,
            r == (if old(self).pending + 1 == REPORT_BATCH { REPORT_BATCH } else { 0 }),
            final(self).pending == old(self).pending + 1 - r,
            final(self).pending < REPORT_BATCH,
    {
        self.written = self.written + 1;
        self.pending = self.pending + 1;
        if self.pending == REPORT_BATCH {
            self.pending = 0;
            REPORT_BATCH
        } else {
            0
        }
    }

    /// At the end of an occupancy pattern: returns the positions not yet
    /// reported, which are then no longer pending. The written count stays.
    pub fn flush(&mut self) -> (r: u64)
        ensures
            r == old(self).pending,
            final(self).pending == 0,
            final(self).written == old(self).written,
    {
        let remainder = self.pending;
        self.pending = 0;
        remainder
    }
}

/// The number of canonical positions of each depth, for progress reports.
pub open spec fn depth_count_spec(depth: int) -> u64 {
    seq![
        1u64, 1, 12, 462, 13_013, 395_640, 8_799_099, 154_965_078, 1_869_817_599, 16_039_232_376, 89_263_657_952,
        327_861_202_104, 706_899_182_360, 895_462_653_600, 523_611_333_864, 147_948_108_768, 10_029_506_543,
    ][depth]
}

/// The number of canonical positions at `depth`.
pub fn depth_count(depth: usize) -> (r: u64)
    requires
        depth <= 16,
    ensures
        r == depth_count_spec(depth as int),
{
    let counts: [u64; 17] = [
        1, 1, 12, 462, 13_013, 395_640, 8_799_099, 154_965_078, 1_869_817_599, 16_039_232_376, 89_263_657_952,
        327_861_202_104, 706_899_182_360, 895_462_653_600, 523_611_333_864, 147_948_108_768, 10_029_506_543,
    ];
    assert(counts@ =~= seq![
        1u64, 1, 12, 462, 13_013, 395_640, 8_799_099, 154_965_078, 1_869_817_599, 16_039_232_376, 89_263_657_952,
        327_861_202_104, 706_899_182_360, 895_462_653_600, 523_611_333_864, 147_948_108_768, 10_029_506_543,
    ]);
    counts[depth]
}

} // verus!
