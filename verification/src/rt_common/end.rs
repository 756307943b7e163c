use vstd::prelude::*;

use core::sync::atomic::AtomicBool;
use core::sync::atomic::Ordering;

verus! {

/// The flag that asks the runtime's loops to end, and the runtime's way of
/// being told about it.
pub struct Ender<F> {
    should_end: AtomicBool,
    notify_end: F,
}

impl<F: Fn(&AtomicBool)> Ender<F> {
    /// The runtime hook that `soft_quit` calls after raising the flag.
    pub closed spec fn notifier(&self) -> F {
        self.notify_end
    }

    /// The flag that `should_end` reads and `soft_quit` raises and hands to the
    /// runtime hook.
    pub closed spec fn end_flag(&self) -> AtomicBool {
        self.should_end
    }

    /// A flag that is not raised, with `notify_end` to be called on quitting.
    pub fn new(notify_end: F) -> (e: Ender<F>)
        ensures
            e.notifier() == notify_end,
    {
        Ender { should_end: AtomicBool::new(false), notify_end }
    }

    /// Whether the flag has been raised. Nothing is stated of the result: any
    /// thread, or a signal handler, may raise the flag.
    pub fn should_end(&self) -> bool {
        self.should_end.load(Ordering::Acquire)
    }

    /// Raises the flag, then tells the runtime by calling its hook with the
    /// flag.
    pub fn soft_quit(&self)
        requires
            forall|flag: &AtomicBool| call_requires(self.notifier(), (flag,)),
        ensures
            call_ensures(self.notifier(), (&self.end_flag(),), ()),
    {
        self.should_end.store(true, Ordering::Release);
        assert(call_requires(self.notifier(), (&self.should_end,)));
        (self.notify_end)(&self.should_end);
    }

    /// The flag itself, for a signal handler to raise.
    pub fn flag(&self) -> (f: &AtomicBool)
        ensures
            *f == self.end_flag(),
    {
        &self.should_end
    }
}

} // verus!
