//! Terminal attributes as Linux lays them out.

use vstd::prelude::*;

verus! {

/// The local-mode flag that turns on line editing.
pub const ICANON: u32 = 0o000002;

/// The local-mode flag that echoes typed characters.
pub const ECHO: u32 = 0o000010;

/// Apply attribute changes at once.
pub const TCSANOW: i32 = 0;

/// The index of the minimum number of bytes a read waits for.
pub const VMIN: usize = 6;

/// The index of the time a read waits for, in tenths of a second.
pub const VTIME: usize = 5;

/// Terminal attributes.
#[derive(Clone, Copy, Default, Debug)]
pub struct Termios {
    pub c_iflag: u32,
    pub c_oflag: u32,
    pub c_cflag: u32,
    pub c_lflag: u32,
    pub c_line: u8,
    pub c_cc: [u8; 32],
    pub c_ispeed: u32,
    pub c_ospeed: u32,
}

impl Termios {
    /// These attributes without line editing and echo, with reads that return
    /// as soon as one byte is there.
    pub fn raw_mode(&self) -> (t: Termios)
        ensures
            t.c_lflag == self.c_lflag & !(ICANON | ECHO),
            t.c_cc@ == self.c_cc@.update(VMIN as int, 1u8).update(VTIME as int, 0u8),
            t.c_iflag == self.c_iflag,
            t.c_oflag == self.c_oflag,
            t.c_cflag == self.c_cflag,
            t.c_line == self.c_line,
            t.c_ispeed == self.c_ispeed,
            t.c_ospeed == self.c_ospeed,
    {
        let mut t = *self;
        t.c_lflag = t.c_lflag & !(ICANON | ECHO);
        t.c_cc[VMIN] = 1;
        t.c_cc[VTIME] = 0;
        t
    }
}

/// The terminal mode to restore when the text runtime ends: the attributes
/// the terminal had, and the descriptor they belong to.
pub struct TerminalMode {
    original: Termios,
    fd: i32,
}

impl TerminalMode {
    /// Remembers `original` as the attributes of descriptor `fd`.
    pub fn new(original: Termios, fd: i32) -> (m: TerminalMode)
        ensures
            m.original() == original,
            m.fd() == fd,
    {
        TerminalMode { original, fd }
    }

    pub closed spec fn original(&self) -> Termios {
        self.original
    }

    pub closed spec fn fd(&self) -> i32 {
        self.fd
    }

    /// The attributes to restore.
    pub fn original_attrs(&self) -> (t: Termios)
        ensures
            t == self.original(),
    {
        self.original
    }

    /// The descriptor the attributes belong to.
    pub fn descriptor(&self) -> (fd: i32)
        ensures
            fd == self.fd(),
    {
        self.fd
    }
}

} // verus!
