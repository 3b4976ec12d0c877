//! The stopwatch.

use std::time::Instant;

use searchlight::duration::Duration;
use searchlight::timer::{Timeline, Timer};

/// Let some milliseconds pass.
fn pause(millis: u128) {
    let start = Instant::now();
    while start.elapsed().as_millis() < millis {}
}

#[test]
fn begin_end_records_the_phase() {
    let mut timer = Timer::start();
    timer.begin("walk");
    pause(2);
    timer.end();

    let timeline = timer.finish();
    assert_eq!(timeline.phases.len(), 1);
    let walk = timeline.phase("walk").expect("walk recorded");
    assert!(walk >= Duration::from_millis(2), "elapsed: {:?}", walk);
    assert!(timeline.total >= walk);
    assert_eq!(timeline.phase("search"), None);
}

#[test]
fn begin_twice_closes_the_open_phase() {
    let mut timer = Timer::start();
    timer.begin("walk");
    timer.begin("search");
    timer.end();

    let timeline = timer.finish();
    assert_eq!(timeline.phases.len(), 2);
    assert_eq!(timeline.phases[0].label, "walk");
    assert_eq!(timeline.phases[1].label, "search");
}

#[test]
fn finish_closes_a_forgotten_phase() {
    let mut timer = Timer::start();
    timer.begin("walk");
    pause(1);
    // No end() call on purpose.
    let timeline = timer.finish();
    assert!(timeline.phase("walk").is_some());
    assert_eq!(timeline.phases.len(), 1);
}

#[test]
fn record_and_phases_total() {
    let mut timer = Timer::start();
    timer.record("walk", Duration::from_millis(2));
    timer.record("search", Duration::from_millis(5));
    assert_eq!(timer.phases_total(), Duration::from_millis(7));
    // elapsed() only requires the clock to have moved forward.
    assert!(timer.elapsed() >= Duration::zero());
}

#[test]
fn end_without_begin_is_harmless() {
    let mut timer = Timer::start();
    timer.end();
    assert_eq!(timer.finish().phases.len(), 0);
}

#[test]
fn timeline_builds_from_micro_pairs() {
    let timeline = Timeline::from_micros(&[("walk", 1_200), ("search", 8_900)]);
    assert_eq!(timeline.phase("walk"), Some(Duration::from_micros(1_200)));
    assert_eq!(timeline.phase("search"), Some(Duration::from_micros(8_900)));
    assert_eq!(timeline.phase("render"), None);
    assert_eq!(timeline.total, Duration::from_micros(10_100));
}

#[test]
fn timer_display_renders_an_aligned_table() {
    let timeline = Timeline::from_micros(&[("walk", 1_200), ("search", 8_900)]);
    let text = timeline.to_string();
    let lines: Vec<&str> = text.lines().collect();
    assert_eq!(lines.len(), 3);
    assert!(lines[0].starts_with("walk"), "got: {}", lines[0]);
    assert!(lines[0].contains("1.2 ms"));
    assert!(lines[1].starts_with("search"));
    assert!(lines[1].contains("8.9 ms"));
    assert!(lines[2].starts_with("total"));
    assert!(lines[2].contains("10.1 ms"));
}

#[test]
fn durations_line_up_on_the_right() {
    let timeline = Timeline::from_micros(&[("walk", 1_200), ("search", 8_900)]);
    assert_eq!(timeline.to_string(), "walk     1.2 ms\nsearch   8.9 ms\ntotal   10.1 ms\n");
    assert_eq!(Timeline::from_micros(&[]).to_string(), "total  0 µs\n");
}

#[test]
fn the_first_phase_of_a_label_counts() {
    let timeline = Timeline::from_micros(&[("walk", 1), ("walk", 2)]);
    assert_eq!(timeline.phase("walk"), Some(Duration::from_micros(1)));
}

#[test]
fn measured_times_close_phases() {
    let mut timer = Timer::start();
    timer.begin("walk");
    timer.close_after(Duration::from_millis(3));
    timer.close_after(Duration::from_millis(9));
    timer.begin("search");
    let timeline = timer.into_timeline(Duration::from_millis(5));
    assert_eq!(timeline.phases.len(), 1);
    assert_eq!(timeline.phase("walk"), Some(Duration::from_millis(3)));
    assert_eq!(timeline.total, Duration::from_millis(5));
}

#[test]
fn totals_saturate() {
    let mut timer = Timer::start();
    timer.record("a", Duration::new(u64::MAX, 999_999_999));
    timer.record("b", Duration::from_secs(1));
    assert_eq!(timer.phases_total(), Duration::new(u64::MAX, 999_999_999));
}

#[test]
fn the_clock_moves() {
    let timer = Timer::start();
    pause(3);
    assert!(timer.elapsed() >= Duration::from_millis(3));
    assert!(timer.elapsed() < Duration::from_secs(3_600));
}

#[test]
fn the_total_is_at_least_the_sum_of_the_phases() {
    let mut timer = Timer::start();
    timer.record("walk", Duration::from_secs(1_000_000));
    timer.begin("search");
    let timeline = timer.finish();
    let search = timeline.phase("search").expect("closed");
    assert!(timeline.total >= Duration::from_secs(1_000_000).saturating_add(search));

    let mut timer = Timer::start();
    timer.begin("walk");
    timer.begin("search");
    let timeline = timer.finish();
    assert_eq!(timeline.phases.len(), 2);
    let sum = timeline.phases[0].duration.saturating_add(timeline.phases[1].duration);
    assert!(timeline.total >= sum);

    let mut timer = Timer::start();
    timer.record("a", Duration::new(u64::MAX, 999_999_999));
    timer.record("b", Duration::from_secs(1));
    assert_eq!(timer.finish().total, Duration::new(u64::MAX, 999_999_999));
}

#[test]
fn the_longer_span_is_picked() {
    let (short, long) = (Duration::from_millis(2), Duration::from_millis(3));
    assert_eq!(short.longer(long), long);
    assert_eq!(long.longer(short), long);
    assert_eq!(long.longer(long), long);
}

#[test]
fn timelines_take_the_time_on_the_clock_or_the_phases() {
    let mut timer = Timer::start();
    timer.record("walk", Duration::from_millis(7));
    assert_eq!(timer.into_timeline(Duration::from_millis(5)).total, Duration::from_millis(7));
    let mut timer = Timer::start();
    timer.record("walk", Duration::from_millis(7));
    assert_eq!(timer.into_timeline(Duration::from_millis(9)).total, Duration::from_millis(9));
}
