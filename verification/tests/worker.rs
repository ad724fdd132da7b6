use std::time::Duration;

use rotor_wheel::worker::ticks_behind;
use rotor_wheel::{Action, Cmd, Event, Setup, TimingWheel, WheelConfig};

fn setup(batch_size: usize) -> Setup<u32> {
    TimingWheel::start(&WheelConfig {
        tick_interval: Duration::from_millis(10),
        batch_size,
        channel_capacity: 100,
    })
}

fn ticked(ms: u64) -> Event<u32> {
    Event::Ticked(Duration::from_millis(ms))
}

fn fires(action: Action<u32>) -> u32 {
    match action {
        Action::Fire(id) => id,
        _ => panic!("expected a callback"),
    }
}

#[test]
fn catching_up_stops_at_multiples_of_ten() {
    assert_eq!(ticks_behind(0, 0, 10), 0);
    assert_eq!(ticks_behind(0, 35, 10), 3);
    assert_eq!(ticks_behind(0, 1000, 10), 10);
    assert_eq!(ticks_behind(7, 1000, 10), 3);
    assert_eq!(ticks_behind(10, 1000, 10), 10);
    assert_eq!(ticks_behind(100, 1000, 10), 0);
    assert_eq!(ticks_behind(101, 1000, 10), 0);
    assert_eq!(ticks_behind(5, 0x1_0000_0000_0000_0000 + 7, 1), 2);
}

#[test]
fn a_batch_limits_the_callbacks_after_a_tick() {
    let mut s = setup(2);
    for id in 1..=3 {
        let insert = Event::Command(Cmd::Insert(id, Duration::from_millis(10)));
        assert!(matches!(s.worker.step(&mut s.shared, insert), Action::Wait));
    }
    assert_eq!(fires(s.worker.step(&mut s.shared, ticked(10))), 3);
    assert_eq!(fires(s.worker.step(&mut s.shared, Event::Fired(true))), 2);
    assert!(matches!(s.worker.step(&mut s.shared, Event::Fired(false)), Action::Wait));
    assert_eq!(s.handle.pending_len(&s.shared), 1);
    assert_eq!(s.handle.expirations_total(&s.shared), 1);
    assert_eq!(s.handle.abnormal_total(&s.shared), 1);
    assert_eq!(fires(s.worker.step(&mut s.shared, ticked(20))), 1);
    assert!(matches!(s.worker.step(&mut s.shared, Event::Fired(true)), Action::Wait));
    assert_eq!(s.handle.pending_len(&s.shared), 0);
    assert_eq!(s.handle.expirations_total(&s.shared), 2);
}

#[test]
fn a_command_on_its_way_blocks_the_callback() {
    let mut s = setup(500);
    s.worker.step(&mut s.shared, Event::Command(Cmd::Insert(1, Duration::from_millis(10))));
    s.worker.step(&mut s.shared, Event::Command(Cmd::Insert(2, Duration::from_millis(10))));
    assert!(s.handle.remove(&mut s.shared, &2));
    assert_eq!(fires(s.worker.step(&mut s.shared, ticked(10))), 1);
    assert!(matches!(s.worker.step(&mut s.shared, Event::Fired(true)), Action::Wait));
    assert_eq!(s.handle.pending_len(&s.shared), 0);
    assert_eq!(s.shared.marker_count(&2), 1);
    s.worker.step(&mut s.shared, Event::Command(Cmd::Remove(2)));
    assert_eq!(s.shared.marker_count(&2), 0);
}

#[test]
fn a_command_drops_the_pending_callback() {
    let mut s = setup(1);
    for id in 1..=3 {
        s.worker.step(&mut s.shared, Event::Command(Cmd::Insert(id, Duration::from_millis(10))));
    }
    assert_eq!(fires(s.worker.step(&mut s.shared, ticked(10))), 3);
    s.worker.step(&mut s.shared, Event::Fired(true));
    s.worker.step(&mut s.shared, Event::Command(Cmd::Reset(2, Duration::from_millis(20))));
    assert_eq!(fires(s.worker.step(&mut s.shared, ticked(20))), 1);
    s.worker.step(&mut s.shared, Event::Fired(true));
    assert_eq!(fires(s.worker.step(&mut s.shared, ticked(30))), 2);
    assert!(matches!(s.worker.step(&mut s.shared, Event::Fired(true)), Action::Wait));
}

#[test]
fn shutdown_fires_what_is_left_and_hears_the_rest() {
    let mut s = setup(1);
    assert!(s.handle.insert(&mut s.shared, 3, Duration::from_secs(9)));
    assert!(s.handle.insert(&mut s.shared, 4, Duration::from_secs(9)));
    assert!(s.handle.shutdown(&mut s.shared));
    assert!(s.handle.remove(&mut s.shared, &4));
    s.worker.step(&mut s.shared, Event::Command(Cmd::Insert(1, Duration::from_secs(5))));
    s.worker.step(&mut s.shared, Event::Command(Cmd::Insert(2, Duration::from_secs(500))));
    s.worker.step(&mut s.shared, ticked(10));
    assert_eq!(s.handle.active_tasks(&s.shared), 2);
    assert_eq!(fires(s.worker.step(&mut s.shared, Event::Command(Cmd::Shutdown))), 2);
    assert_eq!(s.handle.active_tasks(&s.shared), 0);
    assert_eq!(fires(s.worker.step(&mut s.shared, Event::Fired(true))), 1);
    assert!(matches!(s.worker.step(&mut s.shared, Event::Fired(true)), Action::Poll));
    for _ in 0..4 {
        let action = s.worker.poll(&mut s.shared, &mut s.commands).unwrap();
        assert!(matches!(action, Action::Poll));
    }
    assert_eq!(fires(s.worker.poll(&mut s.shared, &mut s.commands).unwrap()), 3);
    assert!(matches!(s.worker.step(&mut s.shared, Event::Fired(true)), Action::Stop));
    assert_eq!(s.shared.marker_count(&3), 0);
    assert_eq!(s.shared.marker_count(&4), 0);
    assert!(s.worker.try_step(&mut s.shared, ticked(20)).is_none());
}

#[test]
fn a_closed_channel_shuts_the_worker_down() {
    let mut s = setup(1);
    s.worker.step(&mut s.shared, Event::Command(Cmd::Insert(1, Duration::from_secs(5))));
    assert_eq!(fires(s.worker.step(&mut s.shared, Event::Exhausted)), 1);
    assert!(matches!(s.worker.step(&mut s.shared, Event::Fired(true)), Action::Poll));
    drop(s.handle);
    let action = s.worker.poll(&mut s.shared, &mut s.commands).unwrap();
    assert!(matches!(action, Action::Stop));
}

#[test]
fn events_out_of_phase_are_not_accepted() {
    let mut s = setup(1);
    assert!(s.worker.accepts(&ticked(0)));
    assert!(!s.worker.accepts(&Event::Fired(true)));
    assert!(s.worker.try_step(&mut s.shared, Event::Fired(true)).is_none());
    assert_eq!(s.handle.expirations_total(&s.shared), 0);
    s.worker.step(&mut s.shared, Event::Command(Cmd::Insert(1, Duration::from_millis(10))));
    assert_eq!(fires(s.worker.step(&mut s.shared, ticked(10))), 1);
    assert!(!s.worker.accepts(&ticked(20)));
    assert!(!s.worker.accepts(&Event::Exhausted));
    assert!(!s.worker.accepts(&Event::Command(Cmd::Shutdown)));
    assert!(s.worker.accepts(&Event::Fired(false)));
}

#[test]
fn timeouts_beyond_the_clock_are_not_accepted() {
    let mut s: Setup<u32> = TimingWheel::start(&WheelConfig {
        tick_interval: Duration::from_millis(1),
        ..WheelConfig::default()
    });
    s.worker.step(&mut s.shared, ticked(1));
    let insert = || Event::Command(Cmd::Insert(1, Duration::MAX));
    assert!(!s.worker.accepts(&insert()));
    assert!(s.worker.try_step(&mut s.shared, insert()).is_none());
    assert!(s.worker.accepts(&Event::Command(Cmd::Insert(1, Duration::from_secs(3600)))));
    assert!(s.worker.accepts(&Event::Command(Cmd::Remove(1))));
}

#[test]
fn a_worker_that_fell_behind_catches_up_tick_by_tick() {
    let mut s = setup(500);
    for (id, ms) in [(1, 50), (2, 150), (3, 250), (4, 350)] {
        s.worker.step(&mut s.shared, Event::Command(Cmd::Insert(id, Duration::from_millis(ms))));
    }
    for id in 1..=3 {
        assert_eq!(fires(s.worker.step(&mut s.shared, ticked(300))), id);
        assert!(matches!(s.worker.step(&mut s.shared, Event::Fired(true)), Action::Wait));
    }
    assert!(matches!(s.worker.step(&mut s.shared, ticked(300)), Action::Wait));
    assert_eq!(s.handle.active_tasks(&s.shared), 1);
}

#[test]
fn a_panic_does_not_touch_the_other_callbacks() {
    let mut quiet = setup(500);
    let mut loud = setup(500);
    for id in 1..=4 {
        let insert = || Event::Command(Cmd::Insert(id, Duration::from_millis(10)));
        quiet.worker.step(&mut quiet.shared, insert());
        loud.worker.step(&mut loud.shared, insert());
    }
    let mut left = fires(quiet.worker.step(&mut quiet.shared, ticked(10)));
    let mut right = fires(loud.worker.step(&mut loud.shared, ticked(10)));
    for _ in 0..3 {
        assert_eq!(left, right);
        left = fires(quiet.worker.step(&mut quiet.shared, Event::Fired(true)));
        right = fires(loud.worker.step(&mut loud.shared, Event::Fired(false)));
    }
    assert_eq!(left, right);
    assert_eq!(quiet.handle.expirations_total(&quiet.shared), 3);
    assert_eq!(loud.handle.abnormal_total(&loud.shared), 3);
    assert_eq!(loud.handle.expirations_total(&loud.shared), 0);
}
