use lib::rt_common::draw::{ReceiverState, SenderState};

#[test]
fn hand_over_retires_missed_and_replaced_frames() {
    let mut sender = SenderState::new();
    let mut receiver = ReceiverState::new();

    // Frame 1 is sent and taken: the placeholder's sequence 0 is retired.
    assert_eq!(sender.on_send(1, false), None);
    assert_eq!(receiver.on_take(Some(1)), Some(0));
    // Nothing new: the receiver keeps frame 1.
    assert_eq!(receiver.on_take(None), None);
    assert_eq!(receiver.fresh_alloc_seq, 1);

    // Frame 2 is sent, then frame 3 replaces it unseen: 2 is retired early.
    assert_eq!(sender.on_send(2, false), None);
    assert_eq!(sender.on_send(3, true), Some(2));
    // Taking frame 3 retires everything up to frame 1.
    assert_eq!(receiver.on_take(Some(3)), Some(1));
    assert_eq!(receiver.fresh_alloc_seq, 3);
    assert_eq!(sender.sent_alloc_seq, 3);
}
