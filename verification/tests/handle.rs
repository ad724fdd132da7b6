use std::collections::HashMap;
use std::sync::Arc;
use std::task::{Context, Wake, Waker};
use std::time::Duration;

use rotor_wheel::{cancel_decrement, cancel_increment, Cmd, Heard, Setup, TimingWheel, WheelConfig};

fn setup(channel_capacity: usize) -> Setup<String> {
    TimingWheel::start(&WheelConfig { channel_capacity, ..WheelConfig::default() })
}

#[test]
fn markers_count_and_vanish() {
    let mut map: HashMap<u8, usize> = HashMap::new();
    cancel_increment(&mut map, &1);
    cancel_increment(&mut map, &1);
    cancel_increment(&mut map, &2);
    assert_eq!(map.get(&1), Some(&2));
    cancel_decrement(&mut map, &1);
    assert_eq!(map.get(&1), Some(&1));
    cancel_decrement(&mut map, &1);
    assert_eq!(map.get(&1), None);
    cancel_decrement(&mut map, &1);
    cancel_decrement(&mut map, &3);
    assert_eq!(map.len(), 1);
    assert_eq!(map.get(&2), Some(&1));
}

#[test]
fn a_channel_takes_as_many_commands_as_it_holds() {
    let mut s = setup(3);
    for _ in 0..3 {
        assert!(s.handle.insert(&mut s.shared, "a".into(), Duration::from_secs(1)));
    }
    assert!(!s.handle.insert(&mut s.shared, "a".into(), Duration::from_secs(1)));
    assert!(!s.handle.reset(&mut s.shared, "a".into(), Duration::from_secs(1)));
    assert!(!s.handle.remove(&mut s.shared, &"a".to_string()));
    assert!(!s.handle.shutdown(&mut s.shared));
    assert_eq!(s.handle.inserted_total(&s.shared), 3);
    assert_eq!(s.handle.dropped_total(&s.shared), 3);
    assert_eq!(s.shared.marker_count(&"a".to_string()), 3);
}

#[test]
fn commands_arrive_as_they_were_sent() {
    let mut s = setup(10);
    let other = s.handle.clone();
    assert!(s.handle.insert(&mut s.shared, "a".into(), Duration::from_secs(1)));
    assert!(other.reset(&mut s.shared, "b".into(), Duration::from_secs(2)));
    assert!(s.handle.remove(&mut s.shared, &"c".to_string()));
    assert!(other.shutdown(&mut s.shared));
    let second = Duration::from_secs(1);
    assert!(matches!(s.shared.take_command(&mut s.commands), Some(Cmd::Insert(id, d)) if id == "a" && d == second));
    assert!(matches!(s.shared.take_command(&mut s.commands), Some(Cmd::Reset(id, d)) if id == "b" && d == 2 * second));
    assert!(matches!(s.shared.take_command(&mut s.commands), Some(Cmd::Remove(id)) if id == "c"));
    assert!(matches!(s.shared.take_command(&mut s.commands), Some(Cmd::Shutdown)));
    assert!(s.shared.take_command(&mut s.commands).is_none());
    assert_eq!(s.handle.inserted_total(&s.shared), 2);
    assert_eq!(s.handle.dropped_total(&s.shared), 0);
    for id in ["a", "b", "c"] {
        assert_eq!(s.shared.marker_count(&id.to_string()), 1);
    }
}

#[test]
fn a_closed_channel_drops_commands() {
    let mut s = setup(10);
    drop(s.commands);
    assert!(!s.handle.insert(&mut s.shared, "a".into(), Duration::from_secs(1)));
    assert!(!s.handle.remove(&mut s.shared, &"a".to_string()));
    assert!(!s.handle.shutdown(&mut s.shared));
    assert_eq!(s.handle.dropped_total(&s.shared), 2);
    assert_eq!(s.handle.inserted_total(&s.shared), 0);
    assert_eq!(s.shared.marker_count(&"a".to_string()), 0);
}

#[test]
fn removals_change_no_count_when_accepted() {
    let mut s = setup(10);
    assert!(s.handle.remove(&mut s.shared, &"never".to_string()));
    assert_eq!(s.handle.inserted_total(&s.shared), 0);
    assert_eq!(s.handle.dropped_total(&s.shared), 0);
    assert!(s.shared.has_room(&"never".to_string()));
}

#[test]
fn settling_follows_the_outcome() {
    let mut s = setup(1);
    let id = "a".to_string();
    s.shared.announce(&id);
    assert!(s.shared.settle_schedule(&id, true));
    assert_eq!(s.shared.metrics().inserted, 1);
    assert_eq!(s.shared.marker_count(&"a".to_string()), 1);
    s.shared.announce(&id);
    assert!(!s.shared.settle_schedule(&id, false));
    assert_eq!(s.shared.metrics().dropped, 1);
    assert_eq!(s.shared.marker_count(&"a".to_string()), 1);
    s.shared.announce(&id);
    assert!(!s.shared.settle_remove(&id, false));
    assert!(s.shared.settle_remove(&id, true));
    assert_eq!(s.shared.metrics().dropped, 2);
    assert_eq!(s.shared.metrics().inserted, 1);
}

#[test]
fn a_shutdown_that_comes_back_is_not_counted() {
    let mut s = setup(1);
    assert!(s.handle.shutdown(&mut s.shared));
    assert!(!s.handle.shutdown(&mut s.shared));
    assert_eq!(s.handle.dropped_total(&s.shared), 0);
    assert_eq!(s.handle.inserted_total(&s.shared), 0);
    assert!(matches!(s.shared.take_command(&mut s.commands), Some(Cmd::Shutdown)));
    assert!(s.shared.take_command(&mut s.commands).is_none());
}

#[test]
fn counters_follow_the_calls() {
    let mut s = setup(4);
    let mut refused = 0;
    let mut booked = 0;
    for round in 0..20 {
        let insert = s.handle.insert(&mut s.shared, "a".into(), Duration::from_secs(1));
        let reset = s.handle.reset(&mut s.shared, "b".into(), Duration::from_secs(1));
        let remove = s.handle.remove(&mut s.shared, &"c".to_string());
        s.handle.shutdown(&mut s.shared);
        booked += insert as usize + reset as usize;
        refused += !insert as usize + !reset as usize + !remove as usize;
        for _ in 0..round % 4 {
            let _ = s.shared.take_command(&mut s.commands);
        }
    }
    assert!(booked > 0 && refused > 0);
    assert_eq!(s.handle.inserted_total(&s.shared), booked);
    assert_eq!(s.handle.dropped_total(&s.shared), refused);
}

struct Quiet;

impl Wake for Quiet {
    fn wake(self: Arc<Self>) {}
}

#[test]
fn listening_takes_commands_in_order_until_the_channel_is_closed() {
    let mut s = setup(10);
    let waker = Waker::from(Arc::new(Quiet));
    let mut cx = Context::from_waker(&waker);
    assert!(matches!(s.shared.listen(&mut s.commands, &mut cx), Heard::Nothing));
    let other = s.handle.clone();
    assert!(s.handle.remove(&mut s.shared, &"a".to_string()));
    assert!(other.remove(&mut s.shared, &"b".to_string()));
    drop(s.handle);
    drop(other);
    let first = s.shared.listen(&mut s.commands, &mut cx);
    assert!(matches!(first, Heard::Command(Cmd::Remove(id)) if id == "a"));
    let second = s.shared.listen(&mut s.commands, &mut cx);
    assert!(matches!(second, Heard::Command(Cmd::Remove(id)) if id == "b"));
    assert!(matches!(s.shared.listen(&mut s.commands, &mut cx), Heard::Closed));
    assert!(s.shared.take_command(&mut s.commands).is_none());
}

#[test]
fn a_taken_command_makes_room_for_another() {
    let mut s = setup(1);
    assert!(s.handle.shutdown(&mut s.shared));
    assert!(!s.handle.shutdown(&mut s.shared));
    assert!(s.shared.take_command(&mut s.commands).is_some());
    assert!(s.handle.shutdown(&mut s.shared));
}
