use std::hash::Hash;
use std::time::Duration;

use rotor_wheel::{Action, CmdReceiver, Event, Setup, Shared, TimingWheel, WheelConfig, Worker};

/// A timing wheel under a clock that moves only when told to.
struct Sim<T> {
    handle: TimingWheel<T>,
    commands: CmdReceiver<T>,
    shared: Shared<T>,
    worker: Worker<T>,
    tick_ms: u64,
    clock_ms: u64,
    fired: Vec<T>,
    returns: fn(&T) -> bool,
    stopped: bool,
}

impl<T: Eq + Hash + Clone> Sim<T> {
    fn start(config: &WheelConfig) -> Self {
        Self::with_callback(config, |_| true)
    }

    fn with_callback(config: &WheelConfig, returns: fn(&T) -> bool) -> Self {
        let Setup { handle, commands, shared, worker } = TimingWheel::start(config);
        let mut sim = Sim {
            handle,
            commands,
            shared,
            worker,
            tick_ms: config.tick_interval.as_millis() as u64,
            clock_ms: 0,
            fired: Vec::new(),
            returns,
            stopped: false,
        };
        sim.take(Event::Ticked(Duration::ZERO));
        sim
    }

    fn take(&mut self, event: Event<T>) {
        let mut action = self.worker.try_step(&mut self.shared, event).unwrap();
        loop {
            action = match action {
                Action::Wait => return,
                Action::Poll => {
                    self.worker.poll(&mut self.shared, &mut self.commands).unwrap()
                }
                Action::Fire(id) => {
                    let returned = (self.returns)(&id);
                    self.fired.push(id);
                    self.worker.step(&mut self.shared, Event::Fired(returned))
                }
                Action::Stop => {
                    self.stopped = true;
                    return;
                }
            };
        }
    }

    /// Let the worker carry out the commands in the channel.
    fn hear(&mut self) {
        while !self.stopped {
            match self.shared.take_command(&mut self.commands) {
                Some(cmd) => self.take(Event::Command(cmd)),
                None => return,
            }
        }
    }

    /// Let `ms` milliseconds pass.
    fn pass(&mut self, ms: u64) {
        let end = self.clock_ms + ms;
        self.hear();
        while !self.stopped && (self.clock_ms / self.tick_ms + 1) * self.tick_ms <= end {
            self.clock_ms = (self.clock_ms / self.tick_ms + 1) * self.tick_ms;
            self.take(Event::Ticked(Duration::from_millis(self.clock_ms)));
            self.hear();
        }
        self.clock_ms = end;
    }

    /// Move the clock on by `ms` milliseconds at once: the ticker makes up for the ticks that
    /// it missed, and the commands in the channel are heard after the first of them.
    fn jump(&mut self, ms: u64) {
        let missed = (self.clock_ms + ms) / self.tick_ms - self.clock_ms / self.tick_ms;
        self.clock_ms += ms;
        for _ in 0..missed {
            self.take(Event::Ticked(Duration::from_millis(self.clock_ms)));
            self.hear();
        }
    }

    fn insert(&mut self, id: T, timeout: Duration) -> bool {
        self.handle.insert(&mut self.shared, id, timeout)
    }

    fn reset(&mut self, id: T, timeout: Duration) -> bool {
        self.handle.reset(&mut self.shared, id, timeout)
    }

    fn remove(&mut self, id: &T) -> bool {
        self.handle.remove(&mut self.shared, id)
    }

    fn shutdown(&mut self) -> bool {
        self.handle.shutdown(&mut self.shared)
    }
}

fn cfg_fast() -> WheelConfig {
    WheelConfig { tick_interval: Duration::from_millis(10), ..Default::default() }
}

fn millis(ms: u64) -> Duration {
    Duration::from_millis(ms)
}

#[test]
fn test_one_shot() {
    let mut h = Sim::<String>::start(&cfg_fast());
    h.pass(5);
    h.insert("x".into(), millis(200));
    h.jump(500);
    h.pass(100);
    assert_eq!(h.fired.len(), 1);
}

#[test]
fn test_reset_extends() {
    let mut h = Sim::<String>::start(&cfg_fast());
    h.pass(5);
    h.insert("x".into(), Duration::from_secs(1));
    h.jump(800);
    h.pass(100);
    h.reset("x".into(), Duration::from_secs(1));
    h.jump(800);
    h.pass(100);
    assert_eq!(h.fired.len(), 0);
    h.jump(1000);
    h.pass(200);
    assert_eq!(h.fired.len(), 1);
}

#[test]
fn test_remove() {
    let mut h = Sim::<String>::start(&cfg_fast());
    h.pass(5);
    h.insert("x".into(), millis(200));
    h.remove(&"x".to_string());
    h.jump(500);
    h.pass(100);
    assert_eq!(h.fired.len(), 0);
}

#[test]
fn test_long_delay_cascades_down() {
    let mut h = Sim::<String>::start(&cfg_fast());
    h.pass(5);
    h.insert("x".into(), Duration::from_secs(10));
    h.jump(5000);
    h.pass(100);
    assert_eq!(h.fired.len(), 0);
    h.jump(6000);
    h.pass(100);
    assert_eq!(h.fired.len(), 1);
}

#[test]
fn test_metrics() {
    let mut h = Sim::<String>::start(&cfg_fast());
    h.pass(5);
    h.insert("a".into(), Duration::from_secs(10));
    h.insert("b".into(), Duration::from_secs(10));
    h.jump(100);
    h.pass(50);
    assert_eq!(h.handle.inserted_total(&h.shared), 2);
    assert!(h.handle.active_tasks(&h.shared) > 0);
    assert_eq!(h.handle.active_tasks(&h.shared), 2);
}

#[test]
fn test_shutdown() {
    let mut h = Sim::<String>::start(&cfg_fast());
    h.pass(5);
    h.insert("x".into(), millis(100));
    h.jump(200);
    h.pass(100);
    h.shutdown();
    assert!(h.fired.len() >= 1);
    h.hear();
    assert!(h.stopped);
}

#[test]
fn test_panicked_callback_increments_abnormal() {
    let mut h = Sim::<String>::with_callback(&cfg_fast(), |_| false);
    h.pass(5);
    h.insert("x".into(), millis(100));
    h.jump(300);
    h.pass(100);
    assert_eq!(h.handle.abnormal_total(&h.shared), 1);
    assert_eq!(h.handle.expirations_total(&h.shared), 0);
    h.shutdown();
}

#[test]
fn test_remove_then_insert_different_id_no_false_fire() {
    let mut h = Sim::<String>::start(&cfg_fast());
    h.jump(100);
    h.pass(30);
    h.insert("A".into(), millis(200));
    h.jump(80);
    h.remove(&"A".to_string());
    h.insert("B".into(), millis(400));
    h.jump(80);
    h.pass(50);
    assert_eq!(h.fired.len(), 0, "B must not fire when A's old bucket drains");
    h.jump(350);
    h.pass(100);
    assert_eq!(h.fired.len(), 1, "B must fire at its own expiry");
    assert_eq!(h.fired, vec!["B".to_string()]);
    h.shutdown();
}

#[test]
fn test_remove_then_insert_same_id() {
    let mut h = Sim::<String>::start(&cfg_fast());
    h.jump(100);
    h.pass(30);
    h.insert("A".into(), millis(200));
    h.jump(80);
    h.remove(&"A".to_string());
    h.insert("A".into(), millis(600));
    h.jump(200);
    h.pass(100);
    assert_eq!(h.fired.len(), 0, "A must not fire at the old expiry");
    h.jump(400);
    h.pass(100);
    assert_eq!(h.fired.len(), 1, "A must fire once at the new expiry");
    h.shutdown();
}

#[test]
fn test_remove_level1_task_insert_new() {
    let mut h = Sim::<String>::start(&cfg_fast());
    h.jump(100);
    h.pass(30);
    h.insert("A".into(), millis(800));
    h.jump(200);
    h.remove(&"A".to_string());
    h.insert("B".into(), millis(400));
    h.pass(100);
    h.jump(400);
    h.pass(100);
    assert_eq!(h.fired.len(), 1, "B must fire at its own time");
    h.jump(600);
    h.pass(100);
    assert_eq!(h.fired.len(), 1, "no additional fire from A's stale bucket");
    h.shutdown();
}

#[test]
fn test_churn_then_insert() {
    let mut h = Sim::<String>::start(&cfg_fast());
    h.jump(100);
    h.pass(30);
    for i in 0..100 {
        let id = format!("churn-{i}");
        h.insert(id.clone(), millis(300));
        h.remove(&id);
    }
    for i in 0..50 {
        h.insert(format!("final-{i}"), millis(400));
    }
    h.jump(300);
    h.pass(100);
    assert_eq!(h.fired.len(), 0, "churned tasks must not fire");
    h.jump(200);
    h.pass(100);
    assert_eq!(h.fired.len(), 50, "final tasks must all fire");
    h.shutdown();
}

#[test]
fn test_insert_replaces_pending() {
    let mut h = Sim::<String>::start(&cfg_fast());
    h.jump(100);
    h.pass(30);
    h.insert("A".into(), millis(200));
    h.jump(100);
    h.insert("A".into(), millis(600));
    h.jump(200);
    h.pass(100);
    assert_eq!(h.fired.len(), 0, "old pending callback must not fire after reinsert");
    h.jump(500);
    h.pass(100);
    assert_eq!(h.fired.len(), 1, "new task must fire at its own expiry");
    h.shutdown();
}

#[test]
fn test_concurrent_remove_same_id() {
    let mut h = Sim::<String>::start(&cfg_fast());
    h.jump(100);
    h.pass(30);
    h.insert("A".into(), millis(200));
    let h1 = h.handle.clone();
    let h2 = h.handle.clone();
    assert!(h1.remove(&mut h.shared, &"A".to_string()), "first remove must succeed");
    assert!(h2.remove(&mut h.shared, &"A".to_string()), "second remove must succeed");
    h.jump(500);
    h.pass(100);
    assert_eq!(h.fired.len(), 0, "concurrent removes must prevent the callback");
    h.shutdown();
}

fn cfg_narrow() -> WheelConfig {
    WheelConfig { tick_interval: Duration::from_millis(10), channel_capacity: 1, batch_size: 500 }
}

fn fill(h: &mut Sim<String>) {
    let mut ok = true;
    while ok {
        ok = h.insert("filler".into(), Duration::from_secs(99));
    }
}

#[test]
fn test_remove_returns_false_on_full_channel() {
    let mut h = Sim::<String>::start(&cfg_narrow());
    fill(&mut h);
    assert!(!h.remove(&"x".to_string()), "remove on full channel must return false");
    h.shutdown();
}

#[test]
fn test_reset_increments_inserted() {
    let mut h = Sim::<String>::start(&cfg_fast());
    h.jump(100);
    h.pass(30);
    h.insert("A".into(), millis(200));
    let before = h.handle.inserted_total(&h.shared);
    assert!(h.reset("A".into(), millis(600)));
    assert_eq!(
        h.handle.inserted_total(&h.shared),
        before + 1,
        "reset must increment inserted_total"
    );
    h.shutdown();
}

#[test]
fn test_batch_size_one_works() {
    let config = WheelConfig {
        tick_interval: Duration::from_millis(10),
        batch_size: 1,
        channel_capacity: 64 * 1024,
    };
    let mut h = Sim::<String>::start(&config);
    h.pass(5);
    h.insert("x".into(), millis(100));
    h.jump(200);
    h.pass(100);
    assert_eq!(h.fired.len(), 1, "task must fire with batch_size=1");
    h.shutdown();
}

#[test]
fn test_failed_remove_does_not_leak_count() {
    let mut h = Sim::<String>::start(&cfg_narrow());
    fill(&mut h);
    assert!(!h.remove(&"a".to_string()), "remove on full channel must return false");
    assert_eq!(h.shared.marker_count(&"a".to_string()), 0);

    let mut h2 = Sim::<String>::start(&cfg_fast());
    h2.jump(100);
    h2.pass(30);
    h2.insert("a".into(), millis(200));
    h2.jump(300);
    h2.pass(100);
    assert_eq!(h2.fired.len(), 1, "a must fire after failed remove on another wheel");
    h.shutdown();
    h2.shutdown();
}

#[test]
fn failed_remove_does_not_block_the_same_wheel() {
    let mut h = Sim::<String>::start(&cfg_narrow());
    h.insert("a".into(), millis(200));
    h.hear();
    fill(&mut h);
    assert!(!h.remove(&"a".to_string()));
    assert!(!h.reset("a".into(), millis(900)));
    h.pass(300);
    assert_eq!(h.fired, vec!["a".to_string()]);
}

#[test]
fn test_failed_remove_increments_dropped() {
    let mut h = Sim::<String>::start(&cfg_narrow());
    fill(&mut h);
    let before = h.handle.dropped_total(&h.shared);
    h.remove(&"x".to_string());
    assert_eq!(
        h.handle.dropped_total(&h.shared),
        before + 1,
        "failed remove must increment dropped_total"
    );
    h.shutdown();
}

#[test]
fn test_failed_insert_rolls_back() {
    let mut h = Sim::<String>::start(&cfg_narrow());
    fill(&mut h);
    let before_dropped = h.handle.dropped_total(&h.shared);
    let before_inserted = h.handle.inserted_total(&h.shared);
    assert!(!h.insert("a".into(), Duration::from_secs(99)));
    assert_eq!(h.handle.dropped_total(&h.shared), before_dropped + 1);
    assert_eq!(h.handle.inserted_total(&h.shared), before_inserted);
    assert_eq!(h.shared.marker_count(&"a".to_string()), 0);
    h.shutdown();
}
