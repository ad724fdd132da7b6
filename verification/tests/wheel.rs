use std::time::Duration;

use rotor_wheel::wheel::delay_ticks;
use rotor_wheel::{Level, Metrics, Wheel, WheelConfig};

fn wheel() -> Wheel<&'static str> {
    Wheel::new(Duration::from_millis(10))
}

/// The tick at which `id` is handed out, counted from now, within `limit` ticks.
fn fires_after(wheel: &mut Wheel<&'static str>, id: &str, limit: u64) -> Option<u64> {
    let mut metrics = Metrics::default();
    for n in 1..=limit {
        if wheel.advance(&mut metrics).contains(&id) {
            return Some(n);
        }
    }
    None
}

#[test]
fn default_configuration() {
    let config = WheelConfig::default();
    assert_eq!(config.tick_interval, Duration::from_secs(1));
    assert_eq!(config.batch_size, 500);
    assert_eq!(config.channel_capacity, 65536);
    let copy = config.clone();
    assert_eq!(copy.tick_interval, config.tick_interval);
    assert_eq!(copy.batch_size, config.batch_size);
    assert_eq!(copy.channel_capacity, config.channel_capacity);
}

#[test]
fn default_metrics_are_zero() {
    let zero = Metrics {
        active: 0,
        inserted: 0,
        dropped: 0,
        expirations: 0,
        abnormal: 0,
        pending: 0,
    };
    assert_eq!(Metrics::default(), zero);
}

#[test]
fn delays_are_whole_ticks_and_at_least_one() {
    assert_eq!(delay_ticks(0, 10), 1);
    assert_eq!(delay_ticks(9, 10), 1);
    assert_eq!(delay_ticks(19, 10), 1);
    assert_eq!(delay_ticks(200, 10), 20);
    assert_eq!(delay_ticks(u128::MAX, 1), u64::MAX);
}

#[test]
fn level_buckets() {
    let mut level = Level::new(64, 64);
    assert_eq!(level.slot_of(0), 0);
    assert_eq!(level.slot_of(63), 0);
    assert_eq!(level.slot_of(64), 1);
    assert_eq!(level.slot_now(64 * 64), 0);
    assert_eq!(level.slot_of(64 * 65), 1);
    level.push(130, 7);
    level.push(191, 8);
    assert_eq!(level.drain(127), Vec::<usize>::new());
    assert_eq!(level.drain(128), vec![7, 8]);
    assert_eq!(level.drain(128), Vec::<usize>::new());
}

#[test]
fn fires_at_its_tick_on_every_level() {
    for delay in [1u64, 2, 63, 64, 65, 127, 128, 500, 4095, 4096, 4160, 8192, 300_000] {
        let mut wheel = wheel();
        wheel.schedule("x", Duration::from_millis(10 * delay));
        assert_eq!(fires_after(&mut wheel, "x", delay + 10), Some(delay));
        assert_eq!(fires_after(&mut wheel, "x", 5000), None);
    }
}

#[test]
fn a_task_that_comes_down_two_levels_at_once_fires_at_its_tick() {
    let mut seconds: Wheel<&'static str> = Wheel::new(Duration::from_secs(1));
    seconds.schedule("x", Duration::from_secs(4101));
    assert_eq!(fires_after(&mut seconds, "x", 10_000), Some(4101));
    for start in [0u64, 1, 63, 64, 4095, 4096] {
        for delay in [4096u64, 4097, 4101, 4159, 4160, 8191, 8192, 8193, 8255, 266_241] {
            let mut wheel = wheel();
            let mut metrics = Metrics::default();
            for _ in 0..start {
                wheel.advance(&mut metrics);
            }
            wheel.schedule("x", Duration::from_millis(10 * delay));
            assert_eq!(fires_after(&mut wheel, "x", delay + 5000), Some(delay));
        }
    }
}

#[test]
fn the_ids_of_the_lowest_level_come_first() {
    let mut wheel = wheel();
    let mut metrics = Metrics::default();
    wheel.schedule("b", Duration::from_millis(640));
    for _ in 0..10 {
        assert!(wheel.advance(&mut metrics).is_empty());
    }
    wheel.schedule("a", Duration::from_millis(540));
    for _ in 0..53 {
        assert!(wheel.advance(&mut metrics).is_empty());
    }
    assert_eq!(wheel.advance(&mut metrics), vec!["a", "b"]);
}

#[test]
fn sub_tick_timeout_fires_at_the_next_tick() {
    let mut wheel = wheel();
    wheel.schedule("x", Duration::ZERO);
    assert_eq!(fires_after(&mut wheel, "x", 3), Some(1));
}

#[test]
fn tick_interval_below_a_millisecond_counts_as_one() {
    let mut wheel: Wheel<&'static str> = Wheel::new(Duration::from_micros(10));
    wheel.schedule("x", Duration::from_millis(5));
    assert_eq!(fires_after(&mut wheel, "x", 10), Some(5));
}

#[test]
fn rescheduling_replaces_the_earlier_schedule() {
    let mut wheel = wheel();
    wheel.schedule("x", Duration::from_millis(50));
    wheel.schedule("x", Duration::from_millis(1000));
    assert_eq!(fires_after(&mut wheel, "x", 2000), Some(100));
}

#[test]
fn removal_reaches_no_other_task() {
    let mut wheel = wheel();
    wheel.schedule("x", Duration::from_millis(50));
    wheel.schedule("y", Duration::from_millis(50));
    wheel.remove(&"x");
    wheel.remove(&"unknown");
    let mut metrics = Metrics::default();
    let mut handed_out = Vec::new();
    for _ in 0..5 {
        handed_out.extend(wheel.advance(&mut metrics));
    }
    assert_eq!(handed_out, vec!["y"]);
    assert_eq!(metrics.active, 0);
    assert_eq!(wheel.current_tick(), 5);
}

#[test]
fn a_removed_slot_is_not_reused_before_its_bucket_drains() {
    let mut wheel = wheel();
    wheel.schedule("a", Duration::from_millis(100));
    wheel.remove(&"a");
    wheel.schedule("b", Duration::from_millis(400));
    assert_eq!(fires_after(&mut wheel, "b", 100), Some(40));
}

#[test]
fn slots_are_reused_once_their_bucket_has_drained() {
    let mut wheel = wheel();
    assert_eq!(wheel.allocate("a", 5), (0, 0));
    wheel.push_to_level(5, 0);
    assert_eq!(wheel.allocate("a", 6), (1, 1));
    wheel.push_to_level(6, 1);
    let mut metrics = Metrics::default();
    for _ in 0..5 {
        assert!(wheel.advance(&mut metrics).is_empty());
    }
    assert_eq!(wheel.allocate("b", 9), (0, 0));
    wheel.push_to_level(9, 0);
    assert_eq!(wheel.advance(&mut metrics), vec!["a"]);
    assert_eq!(wheel.allocate("c", 9), (1, 0));
}

#[test]
fn a_drained_bucket_is_processed_in_order() {
    let mut wheel = wheel();
    let (late, _) = wheel.allocate("late", 70);
    let (stale, _) = wheel.allocate("due", 1);
    let (due, generation) = wheel.allocate("due", 0);
    assert_eq!(generation, 1);
    let mut expired = vec!["before"];
    wheel.process_slot(vec![late, stale, due], 1, &mut expired);
    assert_eq!(expired, vec!["before", "due"]);
    assert_eq!(fires_after(&mut wheel, "late", 100), Some(70));
}

#[test]
fn a_stale_copy_is_dropped_and_the_new_schedule_survives() {
    let mut wheel = wheel();
    wheel.schedule("a", Duration::from_millis(50));
    wheel.schedule("a", Duration::from_millis(100));
    let mut expired = Vec::new();
    wheel.process_slot(vec![0], 0, &mut expired);
    assert!(expired.is_empty());
    assert_eq!(wheel.allocate("b", 9), (0, 0));
    assert_eq!(wheel.allocate("a", 9), (2, 2));
}

#[test]
fn slots_can_be_taken_in_a_row() {
    let mut wheel = wheel();
    assert_eq!(wheel.allocate("a", 5), (0, 0));
    assert_eq!(wheel.allocate("a", 9), (1, 1));
    assert_eq!(wheel.allocate("b", 3), (2, 0));
}

#[test]
fn the_slot_of_an_expired_task_is_reused() {
    let mut wheel = wheel();
    let mut metrics = Metrics::default();
    for _ in 0..100 {
        wheel.schedule("a", Duration::from_millis(10));
        assert_eq!(wheel.advance(&mut metrics), vec!["a"]);
    }
    assert_eq!(wheel.allocate("b", 900).0, 0);
    assert_eq!(wheel.allocate("c", 900).0, 1);
}

#[test]
fn draining_hands_out_every_task_once() {
    let mut wheel = wheel();
    wheel.schedule("near", Duration::from_millis(50));
    wheel.schedule("far", Duration::from_millis(50_000_000));
    wheel.schedule("middle", Duration::from_millis(5000));
    wheel.schedule("gone", Duration::from_millis(60));
    wheel.remove(&"gone");
    wheel.schedule("near", Duration::from_millis(70));
    assert_eq!(wheel.drain_all(), vec!["near", "middle", "far"]);
    assert_eq!(wheel.drain_all(), Vec::<&str>::new());
    assert_eq!(fires_after(&mut wheel, "near", 100), None);
    assert_eq!(wheel.allocate("next", 200).1, 0);
}

#[test]
fn timeouts_beyond_the_clock_do_not_fit() {
    let mut wheel: Wheel<&'static str> = Wheel::new(Duration::from_millis(1));
    assert!(wheel.fits(Duration::MAX));
    wheel.advance(&mut Metrics::default());
    assert!(!wheel.fits(Duration::MAX));
    assert!(wheel.fits(Duration::from_secs(3600)));
}

#[test]
fn active_counts_tracked_tasks() {
    let mut wheel = wheel();
    let mut metrics = Metrics { inserted: 7, ..Metrics::default() };
    wheel.schedule("x", Duration::from_millis(10));
    wheel.schedule("y", Duration::from_millis(30));
    wheel.schedule("z", Duration::from_millis(30));
    assert_eq!(wheel.advance(&mut metrics), vec!["x"]);
    assert_eq!(metrics.active, 2);
    assert_eq!(metrics.inserted, 7);
}

#[test]
fn nothing_waits_in_a_new_wheel() {
    let mut wheel = wheel();
    assert_eq!(wheel.current_tick(), 0);
    assert_eq!(wheel.drain_all(), Vec::<&str>::new());
    let mut metrics = Metrics::default();
    for _ in 0..5000 {
        assert!(wheel.advance(&mut metrics).is_empty());
    }
    assert_eq!(metrics, Metrics::default());
}
