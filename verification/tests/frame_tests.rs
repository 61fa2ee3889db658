use mcp_core::frame::FrameBuffer;

#[test]
fn partial_line_waits_for_more() {
    let mut b = FrameBuffer::new();
    b.push_bytes(b"{\"id\":1");
    assert_eq!(b.take_frame(), None);
    b.push_bytes(b"}\n");
    assert_eq!(b.take_frame(), Some(b"{\"id\":1}".to_vec()));
    assert_eq!(b.take_frame(), None);
}

#[test]
fn two_frames_come_out_in_order() {
    let mut b = FrameBuffer::new();
    b.push_bytes(b"one\ntwo\nthr");
    assert_eq!(b.take_frame(), Some(b"one".to_vec()));
    assert_eq!(b.take_frame(), Some(b"two".to_vec()));
    assert_eq!(b.take_frame(), None);
    b.push_bytes(b"ee\n");
    assert_eq!(b.take_frame(), Some(b"three".to_vec()));
}

#[test]
fn empty_frame_is_a_frame() {
    let mut b = FrameBuffer::new();
    b.push_bytes(b"\n");
    assert_eq!(b.take_frame(), Some(Vec::new()));
}
