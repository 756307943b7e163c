use lib::input::{InputState, Key, KeyState};

#[test]
fn test_relax_and_merge() {
    let mut state = InputState::new();
    let mut neutral = InputState::new();

    let all_keys = &[Key::Down, Key::Left, Key::Right, Key::Up, Key::Space];

    for key in all_keys {
        let state = state.get(*key);
        assert!(state.up());
    }

    for key in all_keys {
        state.update(*key, KeyState::Pressed);
    }

    for key in all_keys {
        let state = state.get(*key);
        assert!(state.down());
        assert_eq!(state, KeyState::Pressed);
    }

    state.relax_and_merge(&mut neutral);

    for key in all_keys {
        let state = state.get(*key);
        assert!(state.down());
        assert_eq!(state, KeyState::Down);
    }

    state.relax_and_merge(&mut neutral);

    for key in all_keys {
        let state = state.get(*key);
        assert!(state.down());
        assert_eq!(state, KeyState::Down);
    }

    for key in all_keys {
        state.update(*key, KeyState::Released);
    }

    for key in all_keys {
        let state = state.get(*key);
        assert!(state.up());
        assert_eq!(state, KeyState::Released);
    }

    state.relax_and_merge(&mut neutral);

    for key in all_keys {
        let state = state.get(*key);
        assert_eq!(state, KeyState::Up);
        assert!(state.up());
    }

    for key in all_keys {
        state.update(*key, KeyState::Tap);
    }

    for key in all_keys {
        let state = state.get(*key);
        assert_eq!(state, KeyState::Tap);
        assert!(state.up());
        assert!(state.down());
    }

    state.relax_and_merge(&mut neutral);

    for key in all_keys {
        let state = state.get(*key);
        assert_eq!(state, KeyState::Up);
        assert!(state.up());
    }

    for key in all_keys {
        state.update(*key, KeyState::Up);
    }

    for key in all_keys {
        let state = state.get(*key);
        assert_eq!(state, KeyState::Up);
        assert!(state.up());
    }

    state.relax_and_merge(&mut neutral);

    for key in all_keys {
        let state = state.get(*key);
        assert_eq!(state, KeyState::Up);
        assert!(state.up());
    }

    let mut next = InputState::new();

    for key in all_keys {
        next.update(*key, KeyState::Pressed);
    }

    for key in all_keys {
        let state = next.get(*key);
        assert_eq!(state, KeyState::Pressed);
    }

    state.relax_and_merge(&mut next);

    for key in all_keys {
        let state = state.get(*key);
        assert_eq!(state, KeyState::Pressed);
        let state = next.get(*key);
        assert_eq!(state, KeyState::Up);
    }
}

#[test]
fn test_tap() {
    let mut state = InputState::new();

    let all_keys = &[
        Key::Down,
        Key::Left,
        Key::Right,
        Key::Up,
        Key::Space,
        Key::Other,
    ];

    for key in all_keys {
        state.update(*key, KeyState::Pressed);
    }

    for key in all_keys {
        state.update(*key, KeyState::Released);
    }

    for key in all_keys {
        let state = state.get(*key);
        if *key == Key::Other {
            assert_eq!(state, KeyState::Up);
        } else {
            assert_eq!(state, KeyState::Tap);
        }
    }
}

#[test]
fn test_convert() {
    for i in 0..256 {
        let _ = Key::from_code(i);
    }

    assert_eq!(Key::from_ascii(b' '), Key::Space);
    assert_eq!(Key::from_ascii(b'a'), Key::Other);
}

#[test]
fn key_codes_map_to_arrow_keys_and_space() {
    assert_eq!(Key::from_code(49), Key::Space);
    assert_eq!(Key::from_code(126), Key::Up);
    assert_eq!(Key::from_code(125), Key::Down);
    assert_eq!(Key::from_code(123), Key::Left);
    assert_eq!(Key::from_code(124), Key::Right);
    assert_eq!(Key::from_code(0), Key::Other);
    assert_eq!(Key::from_code(127), Key::Other);
}

#[test]
fn relaxing_settles_every_state() {
    let all = [
        KeyState::Up,
        KeyState::Down,
        KeyState::Pressed,
        KeyState::Released,
        KeyState::Tap,
    ];
    let expected = [
        KeyState::Up,
        KeyState::Down,
        KeyState::Down,
        KeyState::Up,
        KeyState::Up,
    ];
    for (s, e) in all.iter().zip(expected.iter()) {
        let mut k = *s;
        k.relax();
        assert_eq!(k, *e);
        assert!(!k.edge());
        k.relax();
        assert_eq!(k, *e);
    }
}

#[test]
fn only_tap_is_both_down_and_up() {
    for s in [
        KeyState::Up,
        KeyState::Down,
        KeyState::Pressed,
        KeyState::Released,
        KeyState::Tap,
    ] {
        assert!(s.down() || s.up());
        assert_eq!(s.down() && s.up(), s == KeyState::Tap);
    }
}

#[test]
fn merge_takes_pending_edges_and_keeps_steady_ones() {
    let mut cur = KeyState::Down;
    let mut next = KeyState::Released;
    cur.merge(&mut next);
    assert_eq!(cur, KeyState::Released);
    assert_eq!(next, KeyState::Up);

    let mut cur = KeyState::Pressed;
    let mut next = KeyState::Down;
    cur.merge(&mut next);
    assert_eq!(cur, KeyState::Down);
    assert_eq!(next, KeyState::Down);
}

#[test]
fn relaxing_a_whole_input_state() {
    let mut s = InputState::new();
    s.update(Key::Left, KeyState::Pressed);
    s.update(Key::Right, KeyState::Tap);
    s.update(Key::Up, KeyState::Released);
    s.relax();
    assert_eq!(s.left, KeyState::Down);
    assert_eq!(s.right, KeyState::Up);
    assert_eq!(s.up, KeyState::Up);
    assert_eq!(s.get(Key::Other), KeyState::Up);
}
