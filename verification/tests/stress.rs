use std::hash::Hash;
use std::time::Duration;

use rotor_wheel::{Action, CmdReceiver, Event, Setup, Shared, TimingWheel, WheelConfig, Worker};

/// A timing wheel under a clock that moves only when told to.
struct Sim<T> {
    handle: TimingWheel<T>,
    commands: CmdReceiver<T>,
    shared: Shared<T>,
    worker: Worker<T>,
    tick_ms: u64,
    clock_ms: u64,
    fired: Vec<T>,
    returns: fn(&T) -> bool,
    stopped: bool,
}

impl<T: Eq + Hash + Clone> Sim<T> {
    fn start(config: &WheelConfig) -> Self {
        Self::with_callback(config, |_| true)
    }

    fn with_callback(config: &WheelConfig, returns: fn(&T) -> bool) -> Self {
        let Setup { handle, commands, shared, worker } = TimingWheel::start(config);
        let mut sim = Sim {
            handle,
            commands,
            shared,
            worker,
            tick_ms: config.tick_interval.as_millis() as u64,
            clock_ms: 0,
            fired: Vec::new(),
            returns,
            stopped: false,
        };
        sim.take(Event::Ticked(Duration::ZERO));
        sim
    }

    fn take(&mut self, event: Event<T>) {
        let mut action = self.worker.try_step(&mut self.shared, event).unwrap();
        loop {
            action = match action {
                Action::Wait => return,
                Action::Poll => {
                    self.worker.poll(&mut self.shared, &mut self.commands).unwrap()
                }
                Action::Fire(id) => {
                    let returned = (self.returns)(&id);
                    self.fired.push(id);
                    self.worker.step(&mut self.shared, Event::Fired(returned))
                }
                Action::Stop => {
                    self.stopped = true;
                    return;
                }
            };
        }
    }

    /// Let the worker carry out the commands in the channel.
    fn hear(&mut self) {
        while !self.stopped {
            match self.shared.take_command(&mut self.commands) {
                Some(cmd) => self.take(Event::Command(cmd)),
                None => return,
            }
        }
    }

    /// Let `ms` milliseconds pass.
    fn pass(&mut self, ms: u64) {
        let end = self.clock_ms + ms;
        self.hear();
        while !self.stopped && (self.clock_ms / self.tick_ms + 1) * self.tick_ms <= end {
            self.clock_ms = (self.clock_ms / self.tick_ms + 1) * self.tick_ms;
            self.take(Event::Ticked(Duration::from_millis(self.clock_ms)));
            self.hear();
        }
        self.clock_ms = end;
    }

    fn insert(&mut self, id: T, timeout: Duration) -> bool {
        self.handle.insert(&mut self.shared, id, timeout)
    }

    fn reset(&mut self, id: T, timeout: Duration) -> bool {
        self.handle.reset(&mut self.shared, id, timeout)
    }

    fn remove(&mut self, id: &T) -> bool {
        self.handle.remove(&mut self.shared, id)
    }

    fn shutdown(&mut self) -> bool {
        self.handle.shutdown(&mut self.shared)
    }
}

fn cfg() -> WheelConfig {
    WheelConfig {
        tick_interval: Duration::from_millis(20),
        batch_size: 500,
        channel_capacity: 200_000,
    }
}

#[test]
fn stress_50k_one_shot() {
    let mut h = Sim::<usize>::start(&cfg());
    let total = 50_000;
    for i in 0..total {
        h.insert(i, Duration::from_secs(5));
    }
    h.pass(8000);
    let fired = h.fired.len();
    assert!(fired as f64 > total as f64 * 0.95);
    h.shutdown();
}

#[test]
fn stress_10k_heartbeat() {
    let mut h = Sim::<usize>::start(&cfg());
    let total = 10_000;
    for i in 0..total {
        h.insert(i, Duration::from_secs(60));
    }
    for _ in 0..10 {
        h.pass(1000);
        for i in 0..total {
            h.reset(i, Duration::from_secs(60));
        }
    }
    h.pass(2000);
    assert_eq!(h.fired.len(), 0, "no false expirations");
    h.shutdown();
}

#[test]
fn stress_throughput() {
    let mut h = Sim::<usize>::start(&cfg());
    let count = 50_000;
    let mut dropped = 0;
    for i in 0..count {
        if !h.insert(i, Duration::from_secs(30)) {
            dropped += 1;
        }
    }
    assert_eq!(dropped, 0);
    assert_eq!(h.handle.inserted_total(&h.shared), count);
    h.shutdown();
}

#[test]
fn stress_long_running() {
    let mut h = Sim::<usize>::start(&cfg());
    let mut id = 0usize;
    while h.clock_ms < 15_000 {
        for _ in 0..1000 {
            h.insert(id, Duration::from_secs(30));
            id += 1;
        }
        for i in id.saturating_sub(5000)..id {
            h.reset(i, Duration::from_secs(30));
        }
        for i in id.saturating_sub(10_000)..id.saturating_sub(8000) {
            h.remove(&i);
        }
        h.pass(100);
    }
    assert!(h.fired.is_empty());
    assert!((0..id).all(|i| h.shared.marker_count(&i) == 0));
    h.shutdown();
}

#[test]
fn stress_3_hour_delay() {
    let config = WheelConfig {
        tick_interval: Duration::from_millis(10),
        batch_size: 500,
        channel_capacity: 200_000,
    };
    let mut h = Sim::<String>::start(&config);
    h.insert("long".into(), Duration::from_secs(3 * 3600));
    h.pass(100);
    assert_eq!(h.fired.len(), 0, "3h task should not fire immediately");
    h.pass(3 * 3_600_000 - 110);
    assert_eq!(h.fired.len(), 0);
    h.pass(10);
    assert_eq!(h.fired, vec!["long".to_string()]);
    h.shutdown();
}

#[test]
fn stress_concurrent_mixed() {
    let mut h = Sim::<usize>::start(&cfg());
    let total = 20_000;
    for i in 0..total / 4 {
        for part in 0..4 {
            h.insert(part * (total / 4) + i, Duration::from_secs(2));
        }
        h.reset(0, Duration::from_secs(3));
        h.reset(0, Duration::from_secs(3));
    }
    h.pass(5000);
    assert!(h.fired.len() > 0, "some tasks should expire");
    assert_eq!(h.fired.len(), total);
    h.shutdown();
}

#[test]
fn stress_callback_panic_resilience() {
    let config = WheelConfig {
        tick_interval: Duration::from_millis(20),
        batch_size: 200,
        channel_capacity: 100_000,
    };
    let mut h = Sim::<usize>::with_callback(&config, |id| id % 10 != 0);
    let total = 5000;
    for i in 0..total {
        h.insert(i, Duration::from_secs(2));
    }
    h.pass(4000);
    let ok = h.handle.expirations_total(&h.shared);
    assert!(ok as f64 > total as f64 * 0.85, "only {ok}/{total} succeeded after panics");
    assert_eq!(h.handle.abnormal_total(&h.shared), total / 10);
    h.shutdown();
}

#[test]
fn stress_shutdown_fires_all() {
    let config = WheelConfig {
        tick_interval: Duration::from_millis(10),
        batch_size: 1000,
        channel_capacity: 100_000,
    };
    let mut h = Sim::<usize>::start(&config);
    let total = 1000;
    for i in 0..total {
        h.insert(i, Duration::from_millis(100));
    }
    h.pass(300);
    h.shutdown();
    let n = h.fired.len();
    assert_eq!(n, total, "shutdown must drain all expired tasks");
}

#[test]
fn stress_arena_reuse() {
    let mut h = Sim::<usize>::start(&cfg());
    for _ in 0..20 {
        for i in 0..5000 {
            h.insert(i, Duration::from_millis(200));
        }
        h.pass(600);
        assert_eq!(h.handle.active_tasks(&h.shared), 0);
    }
    assert_eq!(h.handle.inserted_total(&h.shared), 100_000);
    h.shutdown();
}

#[test]
fn stress_sustained_heartbeat() {
    let mut h = Sim::<usize>::start(&cfg());
    let n = 5000;
    for i in 0..n {
        h.insert(i, Duration::from_secs(10));
    }
    for round in 0i32..30 {
        h.pass(2000);
        for i in 0..n {
            h.reset(i, Duration::from_secs(10));
        }
        let e = h.fired.len();
        if e > 0 {
            panic!("round {round}: {e} false expirations detected");
        }
    }
    h.shutdown();
}
