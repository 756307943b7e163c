use lib::rt_common::timer::{Timer, WaitAction, WaitPhase};

/// Waits for the next deadline the way the logic loop does, with the clock
/// reading the times of `now` in turn and the sleeps recorded in `sleeps`.
fn wait_until_next(timer: &mut Timer, now: &[u64], sleeps: &mut Vec<u64>) -> u64 {
    let mut reads = now.iter().copied();
    let mut phase = WaitPhase::Begin;
    loop {
        let t = reads.next().unwrap();
        let (p, action) = timer.wait_step(phase, t);
        phase = p;
        match action {
            WaitAction::Sleep(d) => sleeps.push(d),
            WaitAction::Check => {}
            WaitAction::Done(next) => {
                assert!(reads.next().is_none());
                return next;
            }
            WaitAction::OutOfRange => panic!("timer out of range"),
        }
    }
}

fn s(i: u64) -> u64 {
    i * 1_000_000_000
}

fn us(i: u64) -> u64 {
    i * 1_000
}

#[test]
fn test_timer() {
    let start = 1_000_000;
    let mut timer = Timer::new(1, start);

    // Frame 0, no sleep because next is now
    let mut sleeps = Vec::new();
    assert_eq!(wait_until_next(&mut timer, &[start, start], &mut sleeps), start + s(1));
    assert_eq!(sleeps, Vec::<u64>::new());

    // Frame 1, regular sleep and overlong snooze that matches deadline perfectly
    let mut sleeps = Vec::new();
    let now_1 = [start, start + s(1) - us(3500), start + s(1)];
    assert_eq!(wait_until_next(&mut timer, &now_1, &mut sleeps), start + s(2));
    assert_eq!(sleeps, vec![s(1) - us(3500), us(3500) * 2 / 3]);

    // Frame 2, regular sleep and standard, iterative snooze
    let mut sleeps = Vec::new();
    let now_2 = [
        start + s(1),
        start + s(2) - us(3000),
        start + s(2) - us(300),
        start + s(2) - us(30),
        start + s(2) - us(3),
        start + s(3),
    ];
    assert_eq!(wait_until_next(&mut timer, &now_2, &mut sleeps), start + s(3));
    assert_eq!(sleeps, vec![s(1) - us(3500), us(2000), us(200), us(20), us(2)]);

    // Frame 3
    let mut sleeps = Vec::new();
    let now_3 = [start + s(2), start + s(3) - us(3000), start + s(3)];
    assert_eq!(wait_until_next(&mut timer, &now_3, &mut sleeps), start + s(4));
    assert_eq!(sleeps, vec![s(1) - us(3500), us(2000)]);

    // Frame 4, the margin is now adjusted down from 3500 to 3125
    let mut sleeps = Vec::new();
    let now_4 = [start + s(3), start + s(4) - us(208), start + s(4)];
    assert_eq!(wait_until_next(&mut timer, &now_4, &mut sleeps), start + s(5));
    assert_eq!(sleeps, vec![s(1) - us(3125), us(208) * 2 / 3]);

    // Frame 5, the margin is still adjusted down from 3125 to 3125 - 208/8 = 3099
    let mut sleeps = Vec::new();
    let now_5 = [start + s(4), start + s(5) - us(199), start + s(5)];
    assert_eq!(wait_until_next(&mut timer, &now_5, &mut sleeps), start + s(6));
    assert_eq!(sleeps, vec![s(1) - us(3099), us(199) * 2 / 3]);

    // Frame 6, the margin is no more adjusted because the early threshold is reached
    let mut sleeps = Vec::new();
    let now_6 = [start + s(5), start + s(6) - us(200), start + s(6)];
    assert_eq!(wait_until_next(&mut timer, &now_6, &mut sleeps), start + s(7));
    assert_eq!(sleeps, vec![s(1) - us(3099), us(200) * 2 / 3]);

    // Frame 7, we sleep too much and are late, so the margin is adjusted backwards by 1000
    let mut sleeps = Vec::new();
    let now_7 = [start + s(6), start + s(7) + us(1000)];
    assert_eq!(wait_until_next(&mut timer, &now_7, &mut sleeps), start + s(8));
    assert_eq!(sleeps, vec![s(1) - us(3099)]);

    // Frame 8, sleep according to the adjusted margin: 4099
    let mut sleeps = Vec::new();
    let now_8 = [start + s(7), start + s(8)];
    assert_eq!(wait_until_next(&mut timer, &now_8, &mut sleeps), start + s(9));
    assert_eq!(sleeps, vec![s(1) - us(4099)]);
}

#[test]
fn period_rounds_to_the_nearest_nanosecond() {
    let mut timer = Timer::new(3, 0);
    assert_eq!(timer.advance(), 333_333_333);
    let mut timer = Timer::new(60, 0);
    assert_eq!(timer.advance(), 16_666_667);
}

#[test]
fn period_ties_go_to_the_even_nanosecond() {
    let mut timer = Timer::new(1024, 0);
    assert_eq!(timer.advance(), 976_562);
    let mut timer = Timer::new(400_000_000, 0);
    assert_eq!(timer.advance(), 2);
    let mut timer = Timer::new(1_000_000, 0);
    assert_eq!(timer.advance(), 1_000);
}

#[test]
fn late_frames_do_not_shift_the_deadlines() {
    let mut timer = Timer::new(10, 0);
    let period = 100_000_000;
    let mut sleeps = Vec::new();
    // Every wake-up comes a quarter period late.
    for k in 1..=5u64 {
        let late = (k - 1) * period + period + period / 4;
        let next = wait_until_next(&mut timer, &[late, late], &mut sleeps);
        assert_eq!(next, k * period);
    }
    assert!(sleeps.is_empty());
}
