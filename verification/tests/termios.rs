use lib::termios::{linux, macos};

#[test]
fn raw_mode_turns_off_line_editing_and_echo_on_linux() {
    let mut t = linux::Termios::default();
    t.c_lflag = linux::ICANON | linux::ECHO | 0o100;
    t.c_iflag = 7;
    t.c_cc[linux::VMIN] = 9;
    t.c_cc[linux::VTIME] = 9;
    t.c_cc[0] = 3;
    let r = t.raw_mode();
    assert_eq!(r.c_lflag, 0o100);
    assert_eq!(r.c_iflag, 7);
    assert_eq!(r.c_cc[linux::VMIN], 1);
    assert_eq!(r.c_cc[linux::VTIME], 0);
    assert_eq!(r.c_cc[0], 3);
}

#[test]
fn raw_mode_turns_off_line_editing_and_echo_on_macos() {
    let mut t = macos::Termios::default();
    t.c_lflag = macos::ICANON | macos::ECHO | 0x1;
    t.c_cc[macos::VMIN] = 9;
    t.c_cc[macos::VTIME] = 9;
    let r = t.raw_mode();
    assert_eq!(r.c_lflag, 0x1);
    assert_eq!(r.c_cc[macos::VMIN], 1);
    assert_eq!(r.c_cc[macos::VTIME], 0);
}

#[test]
fn terminal_mode_keeps_what_to_restore() {
    let mut t = linux::Termios::default();
    t.c_lflag = 5;
    let m = linux::TerminalMode::new(t, 3);
    assert_eq!(m.original_attrs().c_lflag, 5);
    assert_eq!(m.descriptor(), 3);
}
