use escapade::budget::{default_worker_count, plan_budget, round_down_pow2_with_exponent};
use escapade::progress::{depth_count, format_duration, format_number, PositionCounter};
use escapade::shard_buffer::is_retryable_io;

#[test]
fn numbers_get_thousands_separators() {
    assert_eq!(format_number(0), "0");
    assert_eq!(format_number(999), "999");
    assert_eq!(format_number(1000), "1,000");
    assert_eq!(format_number(1234567), "1,234,567");
    assert_eq!(format_number(u64::MAX), "18,446,744,073,709,551,615");
}

#[test]
fn durations_are_hours_minutes_seconds() {
    assert_eq!(format_duration(0), "00:00:00");
    assert_eq!(format_duration(3661), "01:01:01");
    assert_eq!(format_duration(59), "00:00:59");
    assert_eq!(format_duration(100 * 3600 + 5), "100:00:05");
}

#[test]
fn position_counts_are_reported_in_batches() {
    let mut c = PositionCounter { written: 9_998, pending: 9_998 };
    assert_eq!(c.count_one(), 0);
    assert_eq!(c.count_one(), 10_000);
    assert_eq!(c.written, 10_000);
    assert_eq!(c.pending, 0);
    assert_eq!(c.count_one(), 0);
    assert_eq!(c.flush(), 1);
    assert_eq!(c.written, 10_001);
    assert_eq!(c.flush(), 0);
}

#[test]
fn a_worker_counts_every_position_it_wrote() {
    // three occupancy patterns of 100 positions each
    let mut c = PositionCounter::new(0);
    let mut reported = 0;
    for _ in 0..3 {
        for _ in 0..100 {
            reported += c.count_one();
        }
        reported += c.flush();
    }
    assert_eq!(c.written, 300);
    assert_eq!(reported, 300);
    let mut resumed = PositionCounter::new(12_345);
    for _ in 0..10_000 {
        assert_eq!(resumed.count_one(), if resumed.pending == 0 { 10_000 } else { 0 });
    }
    assert_eq!(resumed.written, 22_345);
}

#[test]
fn depth_counts_of_the_game_tree() {
    assert_eq!(depth_count(0), 1);
    assert_eq!(depth_count(3), 462);
    assert_eq!(depth_count(13), 895_462_653_600);
    assert_eq!(depth_count(16), 10_029_506_543);
}

#[test]
fn powers_of_two_round_down() {
    assert_eq!(round_down_pow2_with_exponent(0), (0, None));
    assert_eq!(round_down_pow2_with_exponent(1), (1, Some(0)));
    assert_eq!(round_down_pow2_with_exponent(1000), (512, Some(9)));
    assert_eq!(round_down_pow2_with_exponent(u64::MAX), (1u64 << 63, Some(63)));
}

#[test]
fn budgets_split_between_table_and_tablebase() {
    let p = plan_budget(10_000, 5_000, None);
    assert_eq!(p.tt_bytes, 4_096);
    assert_eq!(p.tb_bytes, 5_904);
    assert_eq!(p.remainder_bytes, 0);
    let q = plan_budget(10_000, 5_000, Some(1_000));
    assert_eq!(q.tb_bytes, 1_000);
    assert_eq!(q.remainder_bytes, 4_904);
    let r = plan_budget(100, 5_000, Some(1_000));
    assert_eq!(r.tt_bytes, 4_096);
    assert_eq!(r.tb_bytes, 0);
    assert_eq!(r.remainder_bytes, 0);
}

#[test]
fn worker_counts_leave_a_core_free() {
    assert_eq!(default_worker_count(0), 1);
    assert_eq!(default_worker_count(1), 1);
    assert_eq!(default_worker_count(2), 1);
    assert_eq!(default_worker_count(8), 7);
}

#[test]
fn transient_io_errors_are_retried() {
    assert!(is_retryable_io(Some(5)));
    assert!(is_retryable_io(Some(4)));
    assert!(is_retryable_io(Some(35)));
    assert!(!is_retryable_io(Some(2)));
    assert!(!is_retryable_io(None));
}
