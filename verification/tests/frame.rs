use lib::ffi::end_frame;

#[test]
fn end_frame_counts_one_frame() {
    let mut frame = 41u64;
    end_frame(&mut frame);
    assert_eq!(frame, 42);
}
