use media_api::stats::{mean_reaches, Mean, MAX_SAMPLES};
use media_api::Stats;

const SECOND: u64 = 1_000_000_000;

#[test]
fn this_machine_has_processors() {
    let stats = Stats::new();
    assert_eq!(stats.num_cpus(), num_cpus::get());
    assert_eq!(stats.current(), 0);
    assert_eq!(Stats::default().num_cpus(), stats.num_cpus());
}

#[test]
fn connections_are_counted() {
    let mut stats = Stats::with_cpus(4);
    for t in 0..10 {
        stats.connection_start(t);
    }
    for t in 10..13 {
        stats.connection_end(t);
    }
    assert_eq!(stats.current(), 7);
    stats.connection_start(20);
    stats.connection_end(21);
    assert_eq!(stats.current(), 7);
}

#[test]
fn means_cover_their_window() {
    let mut stats = Stats::with_cpus(2);
    assert_eq!(stats.average(5 * SECOND, SECOND), Mean { total: 0, count: 1 });
    stats.connection_start(SECOND);
    stats.connection_start(2 * SECOND);
    stats.connection_start(10 * SECOND);
    assert_eq!(stats.average(10 * SECOND, SECOND), Mean { total: 3, count: 1 });
    assert_eq!(stats.average(10 * SECOND, 8 * SECOND), Mean { total: 5, count: 2 });
    assert_eq!(stats.average(10 * SECOND, 60 * SECOND), Mean { total: 6, count: 3 });
    assert_eq!(stats.average(100 * SECOND, SECOND), Mean { total: 3, count: 1 });
}

#[test]
fn history_is_bounded() {
    let mut stats = Stats::with_cpus(1);
    for _ in 0..MAX_SAMPLES {
        stats.record_sample(100, 0);
    }
    stats.connection_start(0);
    let mean = stats.average(0, SECOND);
    assert_eq!(mean.count, MAX_SAMPLES);
    assert_eq!(mean.total, (MAX_SAMPLES as u128 - 1) * 100 + 1);
}

#[test]
fn report_gives_the_figures() {
    let mut stats = Stats::with_cpus(3);
    stats.connection_start(SECOND);
    let report = stats.report(SECOND);
    assert_eq!(report.current_connections, 1);
    assert_eq!(report.num_cpus, 3);
    assert_eq!(report.pool_size, 6);
    assert_eq!(report.max_concurrent, 3);
    assert_eq!(report.mean_300s, Mean { total: 1, count: 1 });
    assert!(!report.alarm);
}

#[test]
fn alarm_follows_the_longer_windows() {
    let mut stats = Stats::with_cpus(2);
    stats.connection_start(0);
    stats.connection_start(0);
    stats.connection_start(0);
    // (1 + 2 + 3) / 3 connections on two processors
    assert!(stats.report(SECOND).alarm);
    // The samples have left every window, the current number counts.
    assert!(stats.report(1000 * SECOND).alarm);
    stats.connection_end(1000 * SECOND);
    stats.connection_end(1000 * SECOND);
    // (2 + 1) / 2 connections on two processors
    assert!(!stats.report(1000 * SECOND).alarm);
    assert!(!stats.report(2000 * SECOND).alarm);
}

#[test]
fn means_are_compared_exactly() {
    assert!(mean_reaches(Mean { total: 6, count: 3 }, 2));
    assert!(!mean_reaches(Mean { total: 5, count: 3 }, 2));
    assert!(mean_reaches(Mean { total: 0, count: 3 }, 0));
}

#[test]
fn steady_load_is_its_own_mean() {
    let mut stats = Stats::with_cpus(8);
    for t in 0..50 {
        stats.record_sample(5, t);
    }
    let mean = stats.average(50, SECOND);
    assert_eq!(mean.total, 5 * mean.count as u128);
    assert_eq!(mean.count, 50);
}
