use mpsc_priority_bench::pool::ProducerPool;
use mpsc_priority_bench::workload::{
    dual_priority_from, dual_producer_seed, payload_pattern, prio101_priority_from,
    prio101_producer_seed, producer_share,
};
use mpsc_priority_bench::{slots_per_producer_for_size, xorshift64, HIGH, LOW, PRODUCERS};

#[test]
fn producer_pool_slot_lifecycle() {
    let mut pool = ProducerPool::new(4, 128);
    let mut hint = 0usize;

    // All four slots can be acquired and are distinct.
    let mut got: Vec<u16> = (0..4).map(|_| pool.acquire_slot(&mut hint)).collect();
    got.sort_unstable();
    assert_eq!(got, vec![0, 1, 2, 3]);

    // Releasing makes a slot acquirable again.
    pool.release_slot(2);
    assert_eq!(pool.acquire_slot(&mut hint), 2);
}

#[test]
fn producer_pool_payload_roundtrip() {
    let size = 200usize;
    let mut pool = ProducerPool::new(2, size);
    let mut hint = 0usize;
    let slot = pool.acquire_slot(&mut hint);

    let pattern = 0xA5u8;
    pool.write_payload(slot, pattern);

    // touch_payload XORs one byte per 64-byte line plus the last byte; all
    // bytes hold `pattern`, so the result is `pattern` for an odd number of
    // touches and 0 for an even number.
    let touches = size.div_ceil(64) + 1;
    let expected = if touches % 2 == 1 { pattern as u64 } else { 0 };
    assert_eq!(pool.touch_payload(slot), expected);
}

#[test]
fn try_acquire_reports_full_pool() {
    let mut pool = ProducerPool::new(3, 8);
    let mut hint = 1usize;
    assert_eq!(pool.try_acquire_slot(&mut hint), Some(1));
    assert_eq!(hint, 2);
    assert_eq!(pool.try_acquire_slot(&mut hint), Some(2));
    assert_eq!(hint, 0);
    assert_eq!(pool.try_acquire_slot(&mut hint), Some(0));
    assert_eq!(hint, 1);
    assert_eq!(pool.try_acquire_slot(&mut hint), None);
    assert_eq!(hint, 1);
    pool.release_slot(0);
    assert_eq!(pool.try_acquire_slot(&mut hint), Some(0));
    assert_eq!(hint, 1);
}

#[test]
fn touch_reads_line_starts_and_last_byte() {
    let mut pool = ProducerPool::new(2, 130);
    // Slot 1: bytes 0, 64, 128 and 129 are read.
    pool.write_payload(1, 0x0F);
    assert_eq!(pool.touch_payload(1), 0x0F ^ 0x0F ^ 0x0F ^ 0x0F);
    assert_eq!(pool.touch_payload(0), 0);
    let mut small = ProducerPool::new(1, 64);
    small.write_payload(0, 0x3C);
    // One line start and the last byte: two touches.
    assert_eq!(small.touch_payload(0), 0);
    let mut odd = ProducerPool::new(1, 65);
    odd.write_payload(0, 0x3C);
    // Bytes 0 and 64, then byte 64 again as the last: three touches.
    assert_eq!(odd.touch_payload(0), 0x3C);
}

#[test]
fn write_payload_stays_in_its_slot() {
    let mut pool = ProducerPool::new(3, 70);
    pool.write_payload(1, 0xFF);
    assert_eq!(pool.touch_payload(0), 0);
    assert_eq!(pool.touch_payload(2), 0);
    // 70 bytes: line starts 0 and 64, plus byte 69: three touches.
    assert_eq!(pool.touch_payload(1), 0xFF);
}

#[test]
fn xorshift_known_values() {
    let mut s = 1u64;
    assert_eq!(xorshift64(&mut s), 0x40822041);
    assert_eq!(s, 0x40822041);
    assert_eq!(xorshift64(&mut s), 0x100041060c011441);
    let mut t = 0x9E3779B97F4A7C15u64;
    assert_eq!(xorshift64(&mut t), 0xdc1b77ae0bf34dad);
}

#[test]
fn slots_per_size_boundaries() {
    assert_eq!(slots_per_producer_for_size(64), 64);
    assert_eq!(slots_per_producer_for_size(4096), 64);
    assert_eq!(slots_per_producer_for_size(4097), 16);
    assert_eq!(slots_per_producer_for_size(65536), 16);
    assert_eq!(slots_per_producer_for_size(65537), 8);
    assert_eq!(slots_per_producer_for_size(1048576), 8);
    assert_eq!(slots_per_producer_for_size(1048577), 4);
    assert_eq!(slots_per_producer_for_size(4194304), 4);
}

#[test]
fn shares_split_total() {
    let total = 200_013u64;
    let shares: Vec<u64> = (0..PRODUCERS).map(|i| producer_share(total, i)).collect();
    assert_eq!(shares.iter().sum::<u64>(), total);
    assert_eq!(shares[0], 10_001);
    assert_eq!(shares[12], 10_001);
    assert_eq!(shares[13], 10_000);
    assert_eq!(producer_share(7, 6), 1);
    assert_eq!(producer_share(7, 7), 0);
}

#[test]
fn seeds_and_priorities() {
    assert_eq!(dual_producer_seed(0), 0x4f82338baed89116);
    assert_eq!(dual_producer_seed(1), 0x3d5deddcdc6fa613);
    assert_eq!(prio101_producer_seed(19), 0x7c72b7dd7b816c3b);
    assert_eq!(dual_priority_from(4), HIGH);
    assert_eq!(dual_priority_from(5), LOW);
    assert_eq!(prio101_priority_from(202), 0);
    assert_eq!(prio101_priority_from(100), 100);
    assert_eq!(prio101_priority_from(u64::MAX), (u64::MAX % 101) as u8);
    assert_eq!(payload_pattern(300, 250), 38);
    assert_eq!(payload_pattern(3, 4), 7);
}
