use std::ops::Not;
use std::sync::atomic::{AtomicBool, Ordering};

use lib::rt_common::end::Ender;
use lib::rt_common::error::EndMsg;
use lib::rt_common::runtime::end_message;

#[test]
fn test_end() {
    let ender = Ender::new(|_| CALLED.store(true, Ordering::Release));
    static CALLED: AtomicBool = AtomicBool::new(false);
    assert!(ender.should_end().not());
    ender.soft_quit();
    assert!(ender.should_end());
    assert!(CALLED.load(Ordering::Acquire));
}

#[test]
fn raising_the_flag_directly_is_seen_without_notifying() {
    static NOTIFIED: AtomicBool = AtomicBool::new(false);
    let ender = Ender::new(|_| NOTIFIED.store(true, Ordering::Release));
    ender.flag().store(true, Ordering::Release);
    assert!(ender.should_end());
    assert!(NOTIFIED.load(Ordering::Acquire).not());
}

#[test]
fn end_msg_keeps_its_parts() {
    let msg = EndMsg::new(|| "boom".to_string(), "src/main.rs", 7);
    assert_eq!(msg.file, "src/main.rs");
    assert_eq!(msg.line, 7);
    assert_eq!((msg.callback)(), "boom");
}

#[test]
fn end_message_names_the_loops_that_panicked() {
    assert_eq!(
        end_message(Some("boom"), Some("bang")),
        Some("Runtime and logic loops both panicked: boom, bang".to_string())
    );
    assert_eq!(end_message(Some("boom"), None), Some("Runtime loop panicked: boom".to_string()));
    assert_eq!(end_message(None, Some("bang")), Some("Logic loop panicked: bang".to_string()));
    assert_eq!(end_message(None, None), None);
}
