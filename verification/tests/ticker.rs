use chip_8::ticker::{Tickable, Ticker};
use std::time::Duration;

const DT_HZ: u64 = 500;
const DT_TIMER_HZ: u64 = 60;

#[derive(PartialEq, Debug)]
struct MockError();

struct MockTickable {
    tick: usize,
    tick_timer: usize,
    ticks: Vec<u8>,
    do_error: bool,
}

impl MockTickable {
    fn new() -> Self {
        MockTickable {
            tick: 0,
            tick_timer: 0,
            ticks: vec![],
            do_error: false,
        }
    }
}

impl Tickable for MockTickable {
    type Error = MockError;

    const DT_TICK_MICROS: u64 = 1_000_000 / DT_HZ;
    const DT_TICK_TIMER_MICROS: u64 = 1_000_000 / DT_TIMER_HZ;

    fn tick(&mut self) -> Result<(), Self::Error> {
        if self.do_error {
            return Err(MockError {});
        }

        self.tick += 1;
        self.ticks.push(0);
        Ok(())
    }

    fn tick_timer(&mut self) {
        self.tick_timer += 1;
        self.ticks.push(1);
    }
}

#[test]
fn ticks_error() {
    let mut ticker = Ticker::default();
    let mut mock = MockTickable::new();

    mock.do_error = true;

    assert_eq!(
        ticker.tick(Duration::from_secs(1), &mut mock),
        Err(MockError {})
    );
}

#[test]
fn ticks_count() {
    let mut ticker = Ticker::default();
    let mut mock = MockTickable::new();

    let _ = ticker.tick(Duration::from_secs(1), &mut mock);

    assert_eq!(mock.tick, DT_HZ as usize);
    assert_eq!(mock.tick_timer, DT_TIMER_HZ as usize);
}

#[test]
fn ticks_interleaved() {
    let mut ticker = Ticker::default();
    let mut mock = MockTickable::new();

    let _ = ticker.tick(Duration::from_millis(16), &mut mock);

    assert_eq!(mock.tick, 8);
    assert_eq!(mock.tick_timer, 0);

    let _ = ticker.tick(Duration::from_millis(2), &mut mock);

    assert_eq!(mock.tick, 9);
    assert_eq!(mock.tick_timer, 1);

    let expected = [0, 0, 0, 0, 0, 0, 0, 0, 1, 0];

    assert_eq!(mock.ticks, expected);

    let _ = ticker.tick(Duration::from_millis(16), &mut mock);

    assert_eq!(mock.tick, 17);
    assert_eq!(mock.tick_timer, 2);

    let expected = [0, 0, 0, 0, 0, 0, 0, 0, 1, 0, 0, 0, 0, 0, 0, 0, 0, 1, 0];

    assert_eq!(mock.ticks, expected);

    let _ = ticker.tick(Duration::from_millis(16), &mut mock);

    assert_eq!(mock.tick, 25);
    assert_eq!(mock.tick_timer, 3);

    let expected = [
        0, 0, 0, 0, 0, 0, 0, 0, 1, 0, 0, 0, 0, 0, 0, 0, 0, 1, 0, 0, 0, 0, 0, 0, 0, 0, 1, 0,
    ];

    assert_eq!(mock.ticks, expected);
}

#[test]
fn ticks_split_time_runs_the_same() {
    let mut whole = Ticker::new();
    let mut at_once = MockTickable::new();
    let _ = whole.tick(Duration::from_millis(100), &mut at_once);

    let mut split = Ticker::new();
    let mut in_parts = MockTickable::new();
    for ms in [7, 33, 1, 59] {
        let _ = split.tick(Duration::from_millis(ms), &mut in_parts);
    }

    assert_eq!(in_parts.ticks, at_once.ticks);
    assert_eq!(in_parts.tick, 50);
    assert_eq!(in_parts.tick_timer, 6);
}

#[test]
fn ticks_less_than_a_period_runs_nothing() {
    let mut ticker = Ticker::new();
    let mut mock = MockTickable::new();

    let _ = ticker.tick(Duration::from_micros(1999), &mut mock);
    assert_eq!(mock.tick, 0);

    let _ = ticker.tick(Duration::from_micros(1), &mut mock);
    assert_eq!(mock.tick, 1);
}

#[test]
fn ticks_error_stops_at_first_failure() {
    let mut ticker = Ticker::new();
    let mut mock = MockTickable::new();

    mock.do_error = true;
    assert_eq!(
        ticker.tick(Duration::from_millis(100), &mut mock),
        Err(MockError {})
    );
    assert_eq!(mock.tick, 0);
    assert_eq!(mock.tick_timer, 0);

    mock.do_error = false;
    let _ = ticker.tick(Duration::ZERO, &mut mock);
    assert_eq!(mock.tick, 49);
}
