//! Machine figures and the memory budget derived from them.

use vstd::prelude::*;

verus! {

/// What the machine offers: memory and processor cores.
#[derive(Debug, Clone, Copy)]
pub struct MachineSpecs {
    pub total_memory_bytes: u64,
    pub cpu_cores_logical: usize,
    pub cpu_cores_physical: usize,
}

/// How a memory budget is split between the transposition table and the
/// tablebase.
#[derive(Debug, Clone, Copy)]
pub struct BudgetPlan {
    pub esc_budget_bytes: u64,
    pub tt_bytes: u64,
    pub tb_bytes: u64,
    pub remainder_bytes: u64,
}

/// The machine figures together with the plan made from them.
#[derive(Debug, Clone, Copy)]
pub struct ProbeReport {
    pub specs: MachineSpecs,
    pub plan: BudgetPlan,
}

/// Bytes of one transposition-table entry.
pub const TT_BYTES_PER_ENTRY: u64 = 16;

proof fn lemma_top_bit(x: u64, e: u64)
    by (bit_vector)
    requires
        e < 64,
        (x >> e) & 1u64 != 0u64,
        e < 63 ==> x >> ((e + 1) as u64) == 0u64,
    ensures
        (1u64 << e) <= x,
        x < 2 * (1u64 << e),
{
}

/// The largest power of two not above `x`, with its exponent; zero and no
/// exponent for zero.
pub fn round_down_pow2_with_exponent(x: u64) -> (r: (u64, Option<u32>))
    ensures
        x == 0 ==> r == (0u64, None::<u32>),
        x != 0 ==> (r.1 matches Some(e) && e < 64 && r.0 == 1u64 << (e as u64) && r.0 <= x && x < 2 * r.0),
{
    if x == 0 {
        (0, None)
    } else {
        proof {
            vstd::std_specs::bits::axiom_u64_leading_zeros(x);
        }
        let lz = x.leading_zeros();
        let e = 63 - lz;
        proof {
            let lzi = vstd::std_specs::bits::u64_leading_zeros(x);
            assert(lz as int == lzi);
            if e < 63 {
                assert(x >> ((e + 1) as u64) == 0u64);
            }
            lemma_top_bit(x, e as u64);
        }
        (1u64 << e as u64, Some(e))
    }
}

/// The plan for a budget of `esc` bytes: the transposition table takes the
/// largest power-of-two number of entries that fits `tt_target` bytes; the
/// tablebase takes `tb_target` (by default all that is left), capped to what
/// is left; the remainder is what neither takes.
pub open spec fn plan_spec(esc: u64, tt_entries_po2: u64, tb_target: Option<u64>) -> BudgetPlan {
    let tt = (tt_entries_po2 * TT_BYTES_PER_ENTRY) as u64;
    let left: u64 = if tt <= esc { (esc - tt) as u64 } else { 0 };
    let tb: u64 = match tb_target {
        Some(t) => if t < left { t } else { left },
        None => left,
    };
    BudgetPlan {
        esc_budget_bytes: esc,
        tt_bytes: tt,
        tb_bytes: tb,
        remainder_bytes: if tt + tb <= esc { (esc - tt - tb) as u64 } else { 0 },
    }
}

proof fn lemma_pow2_unique(e1: u64, e2: u64)
    by (bit_vector)
    requires
        e1 < 64,
        e2 < 64,
        (1u64 << e1) < 2 * (1u64 << e2),
        (1u64 << e2) < 2 * (1u64 << e1),
    ensures
        e1 == e2,
{
}

/// Split a budget of `esc` bytes.
pub fn plan_budget(esc: u64, tt_target: u64, tb_target: Option<u64>) -> (r: BudgetPlan)
    ensures
        r == plan_spec(esc, round_down_pow2_with_exponent_spec(tt_target / TT_BYTES_PER_ENTRY), tb_target),
{
    let tt_entries = tt_target / TT_BYTES_PER_ENTRY;
    let (tt_entries_po2, _exp) = round_down_pow2_with_exponent(tt_entries);
    proof {
        if tt_entries != 0 {
            let e = _exp->Some_0 as u64;
            assert(is_top_exponent(tt_entries, e));
            let e2 = choose|e2: u64| is_top_exponent(tt_entries, e2);
            lemma_pow2_unique(e, e2);
        }
    }
    let tt_bytes_po2 = tt_entries_po2 * TT_BYTES_PER_ENTRY;
    let remaining_after_tt = esc.saturating_sub(tt_bytes_po2);
    let tb_wanted = match tb_target {
        Some(t) => t,
        None => remaining_after_tt,
    };
    let tb_final = if tb_wanted < remaining_after_tt { tb_wanted } else { remaining_after_tt };
    let remainder = esc.saturating_sub(tt_bytes_po2 + tb_final);
    BudgetPlan { esc_budget_bytes: esc, tt_bytes: tt_bytes_po2, tb_bytes: tb_final, remainder_bytes: remainder }
}

/// `2^e` is the largest power of two not above `x`.
pub open spec fn is_top_exponent(x: u64, e: u64) -> bool {
    e < 64 && (1u64 << e) <= x && x < 2 * (1u64 << e)
}

/// The largest power of two not above `x` (zero for zero).
pub open spec fn round_down_pow2_with_exponent_spec(x: u64) -> u64 {
    if x == 0 {
        0
    } else {
        1u64 << choose|e: u64| is_top_exponent(x, e)
    }
}

/// Default worker count: one fewer than the logical cores, at least one.
pub fn default_worker_count(cpu_cores_logical: usize) -> (r: u32)
    ensures
        r == (if cpu_cores_logical > 1 { (cpu_cores_logical - 1) as u32 } else { 1u32 }),
{
    let w = cpu_cores_logical.saturating_sub(1);
    if w > 1 { w as u32 } else { 1 }
}

} // verus!
