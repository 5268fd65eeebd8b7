use kepler::mvcc::clock::{physical_of, HybridLogicalClock, LOGICAL_SPAN, MAX_PHYSICAL_MS};

#[test]
fn hlc_is_strictly_monotonic() {
    let mut clock = HybridLogicalClock::new();
    let mut last = clock.now();
    for _ in 0..1000 {
        let t = clock.now();
        assert!(t > last);
        last = t;
    }
}

#[test]
fn observe_advances_past_remote() {
    let mut clock = HybridLogicalClock::new();
    let remote = clock.now() + 1_000_000;
    clock.observe(remote);
    assert!(clock.now() > remote);
}

#[test]
fn a_later_millisecond_starts_afresh() {
    let mut clock = HybridLogicalClock::new();
    let phys = clock.last() / LOGICAL_SPAN + 5;
    assert_eq!(clock.now_at(phys), phys * LOGICAL_SPAN);
    assert_eq!(clock.now_at(phys), phys * LOGICAL_SPAN + 1);
    assert_eq!(clock.now_at(0), phys * LOGICAL_SPAN + 2);
    assert_eq!(clock.last(), phys * LOGICAL_SPAN + 2);
}

#[test]
fn the_logical_part_carries() {
    let mut clock = HybridLogicalClock::new();
    let phys = clock.last() / LOGICAL_SPAN + 1;
    clock.now_at(phys);
    let mut last = clock.last();
    for _ in 0..(LOGICAL_SPAN + 10) {
        let t = clock.now_at(phys);
        assert_eq!(t, last + 1);
        last = t;
    }
    assert_eq!(last / LOGICAL_SPAN, phys + 1);
}

#[test]
fn observing_takes_the_latest_of_three() {
    let mut clock = HybridLogicalClock::new();
    let base = clock.last() / LOGICAL_SPAN + 10;
    clock.now_at(base);
    let here = clock.last();
    // the remote timestamp is the latest
    clock.observe_at(here + 7, 0);
    assert_eq!(clock.last(), here + 8);
    // the clock itself is the latest
    clock.observe_at(here, 0);
    assert_eq!(clock.last(), here + 9);
    // the wall clock is the latest
    clock.observe_at(here, base + 3);
    assert_eq!(clock.last(), (base + 3) * LOGICAL_SPAN);
}

#[test]
fn a_new_clock_reads_the_wall() {
    // 2020-01-01 in milliseconds: the machine's clock is past it
    let clock = HybridLogicalClock::default();
    assert!(clock.last() / LOGICAL_SPAN > 1_577_836_800_000);
    assert!(clock.last() / LOGICAL_SPAN <= MAX_PHYSICAL_MS);
    assert_eq!(clock.last() % LOGICAL_SPAN, 0);
}

#[test]
fn the_physical_part_has_48_bits() {
    assert_eq!(physical_of(None), 0);
    assert_eq!(physical_of(Some(0)), 0);
    assert_eq!(physical_of(Some(1_577_836_800_000)), 1_577_836_800_000);
    assert_eq!(physical_of(Some(MAX_PHYSICAL_MS as u128)), MAX_PHYSICAL_MS);
    assert_eq!(physical_of(Some(MAX_PHYSICAL_MS as u128 + 1)), MAX_PHYSICAL_MS);
    assert_eq!(physical_of(Some(u128::MAX)), MAX_PHYSICAL_MS);
}

#[test]
fn a_clock_starts_at_its_millisecond() {
    assert_eq!(HybridLogicalClock::at(0).last(), 0);
    assert_eq!(HybridLogicalClock::at(7).last(), 7 * LOGICAL_SPAN);
    assert_eq!(HybridLogicalClock::at(MAX_PHYSICAL_MS).last(), MAX_PHYSICAL_MS * LOGICAL_SPAN);
}
