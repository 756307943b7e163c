
use lib::input::{InputState, Key, KeyState};
use lib::rt;
use lib::rt_common::input::{make_input_tools, InnerSharedInputState, SharedInputState};

/// Nanoseconds since the runtime's clock started.
const NOW: u64 = 5_000_000;

/// A second in nanoseconds.
const SECOND: u64 = 1_000_000_000;

#[test]
fn test_input() {
    let mut shared = SharedInputState::default(); // Deadline is set
    let (mut gatherer, mut consumer) = make_input_tools(&mut shared);

    gatherer.update(Key::Left, KeyState::Pressed, NOW);
    gatherer.update(Key::Right, KeyState::Released, NOW);

    // The deadline in the past, so the updates are not sent

    // Deadline is reset
    let gathered = consumer.get_gathered(NOW + SECOND);
    gatherer.update(Key::Space, KeyState::Pressed, NOW);

    assert_eq!(gathered.left, KeyState::Up);
    assert_eq!(gathered.right, KeyState::Up);

    let gathered = consumer.get_gathered(NOW);

    assert_eq!(gathered.left, KeyState::Pressed);
    assert_eq!(gathered.right, KeyState::Released);
    assert_eq!(gathered.space, KeyState::Pressed);

    let gathered = consumer.get_gathered(NOW);

    assert_eq!(gathered.left, KeyState::Down); // KeyState relaxing happens
    assert_eq!(gathered.right, KeyState::Up);
    assert_eq!(gathered.space, KeyState::Down);
}

#[test]
fn late_events_wait_for_the_next_frame() {
    let now = NOW;
    let mut inner = InnerSharedInputState {
        current: InputState::new(),
        next: InputState::new(),
        deadline: now,
    };
    inner.record(Key::Up, KeyState::Pressed, now + 1);
    inner.record(Key::Down, KeyState::Pressed, now);
    let frame = inner.take_frame(now);
    assert_eq!(frame.up, KeyState::Up);
    assert_eq!(frame.down, KeyState::Pressed);
    let frame = inner.take_frame(now);
    assert_eq!(frame.up, KeyState::Pressed);
    assert_eq!(frame.down, KeyState::Down);
    assert_eq!(inner.next.up, KeyState::Up);
}

#[test]
fn buffered_gatherer_applies_held_back_events_in_order() {
    let mut shared = rt::input::SharedInputState::new();
    let (mut gatherer, mut consumer) = rt::input::new_input_pair(&mut shared);
    // The deadline is the creation time, so these are held back.
    let later = NOW + 3600 * SECOND;
    gatherer.update(Key::Left, KeyState::Pressed, later);
    gatherer.update(Key::Left, KeyState::Released, later);
    let frame = consumer.consume_gathered(later + 3600 * SECOND);
    assert_eq!(frame.left, KeyState::Up);
    // An event in time flushes the held-back ones first.
    gatherer.update(Key::Space, KeyState::Pressed, NOW);
    let frame = consumer.consume_gathered(NOW);
    assert_eq!(frame.left, KeyState::Tap);
    assert_eq!(frame.space, KeyState::Pressed);
    let frame = consumer.consume_gathered(NOW);
    assert_eq!(frame.left, KeyState::Up);
    assert_eq!(frame.space, KeyState::Down);
}

#[test]
fn flushing_applies_events_oldest_first() {
    let mut input = InputState::new();
    let mut events = std::collections::VecDeque::new();
    events.push_back((Key::Right, KeyState::Pressed));
    events.push_back((Key::Right, KeyState::Released));
    events.push_back((Key::Up, KeyState::Down));
    rt::input::flush_events(&mut input, &mut events);
    assert!(events.is_empty());
    assert_eq!(input.right, KeyState::Tap);
    assert_eq!(input.up, KeyState::Down);
}

#[test]
fn gather_holds_back_late_events_and_flushes_them_in_time() {
    let mut gathered = rt::input::Gathered { input: InputState::new(), deadline: NOW };
    let mut pending = std::collections::VecDeque::new();

    rt::input::gather(&mut gathered, &mut pending, Key::Left, KeyState::Pressed, NOW + 1);
    assert_eq!(pending.len(), 1);
    assert_eq!(gathered.input.get(Key::Left), KeyState::Up);
    assert_eq!(gathered.deadline, NOW);

    rt::input::gather(&mut gathered, &mut pending, Key::Right, KeyState::Pressed, NOW);
    assert_eq!(pending.len(), 0);
    assert_eq!(gathered.input.get(Key::Left), KeyState::Pressed);
    assert_eq!(gathered.input.get(Key::Right), KeyState::Pressed);
    assert_eq!(gathered.deadline, NOW);
}
