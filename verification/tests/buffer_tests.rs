use tls_validator::tcp_buffer::TcpBuffer;

#[test]
fn in_order_delivery() {
    let mut buf = TcpBuffer::new(1000, 100);
    buf.add_segment(1000, b"hello");
    buf.add_segment(1005, b" world");
    assert_eq!(buf.len(), 11);
    assert_eq!(buf.get_data(), b"hello world");
}

#[test]
fn out_of_order_delivery() {
    let mut buf = TcpBuffer::new(0, 100);
    buf.add_segment(5, b"world");
    assert_eq!(buf.len(), 0);
    buf.add_segment(0, b"hello");
    assert_eq!(buf.len(), 10);
    assert_eq!(buf.get_data(), b"helloworld");
}

#[test]
fn three_parts_arriving_3_1_2() {
    let mut buf = TcpBuffer::new(100, 1000);
    buf.add_segment(108, b"cc");
    assert_eq!(buf.len(), 0);
    buf.add_segment(100, b"aaaa");
    assert_eq!(buf.len(), 4);
    buf.add_segment(104, b"bbbb");
    assert_eq!(buf.len(), 10);
    assert_eq!(buf.get_data(), b"aaaabbbbcc");
}

#[test]
fn overlap_latest_write_wins() {
    let mut buf = TcpBuffer::new(0, 100);
    buf.add_segment(0, b"xxxxxx");
    buf.add_segment(2, b"YY");
    assert_eq!(buf.get_data(), b"xxYYxx");
}

#[test]
fn duplicate_segment_is_harmless() {
    let mut buf = TcpBuffer::new(0, 100);
    buf.add_segment(0, b"abcd");
    buf.add_segment(0, b"abcd");
    assert_eq!(buf.len(), 4);
    assert_eq!(buf.get_data(), b"abcd");
}

#[test]
fn empty_payload_changes_nothing() {
    let mut buf = TcpBuffer::new(0, 100);
    buf.add_segment(0, b"abcd");
    buf.add_segment(2, b"");
    assert_eq!(buf.get_data(), b"abcd");
}

#[test]
fn window_boundary_rejects_and_truncates() {
    // a segment exactly at initial + capacity is dropped entirely
    let mut buf = TcpBuffer::new(1000, 64);
    buf.add_segment(1064, b"zz");
    buf.add_segment(1000, &[7u8; 64]);
    assert_eq!(buf.len(), 64);
    assert_eq!(buf.get_data(), &[7u8; 64][..]);

    // at capacity - 1 it is accepted, truncated to a single byte
    let mut buf = TcpBuffer::new(0, 8);
    buf.add_segment(7, b"AB");
    buf.add_segment(0, b"0123456");
    assert_eq!(buf.len(), 8);
    assert_eq!(buf.get_data(), b"0123456A");
}

#[test]
fn sequence_wrap_is_an_offset() {
    // initial sequence number close to 2^32: data crossing the wrap lands
    // at the correct offset
    let mut buf = TcpBuffer::new(u32::MAX - 1, 100);
    buf.add_segment(u32::MAX - 1, b"ab");
    // sequence 0 is forward distance 2
    buf.add_segment(0, b"cd");
    assert_eq!(buf.len(), 4);
    assert_eq!(buf.get_data(), b"abcd");

    // backward (far-future on the ring) data is dropped
    let mut buf = TcpBuffer::new(10, 100);
    buf.add_segment(5, b"zz");
    assert_eq!(buf.len(), 0);
    buf.add_segment(10, b"ok");
    assert_eq!(buf.get_data(), b"ok");
}

#[test]
fn drain_shifts_window() {
    let mut buf = TcpBuffer::new(0, 100);
    buf.add_segment(0, b"hello world");
    buf.drain(6);
    assert_eq!(buf.len(), 5);
    assert_eq!(buf.get_data(), b"world");
    // the anchor advanced: new data continues at sequence 11
    buf.add_segment(11, b"!!");
    assert_eq!(buf.get_data(), b"world!!");
}

#[test]
fn drain_split_matches_single_drain() {
    let mk = || {
        let mut b = TcpBuffer::new(0, 100);
        b.add_segment(0, b"0123456789");
        b.add_segment(20, b"pending");
        b
    };
    let mut a = mk();
    a.drain(3);
    a.drain(4);
    let mut b = mk();
    b.drain(7);
    assert_eq!(a.len(), b.len());
    assert_eq!(a.get_data(), b.get_data());
    // and both expose the same bytes going forward
    a.add_segment(17, b"XYZ");
    b.add_segment(17, b"XYZ");
    assert_eq!(a.get_data(), b.get_data());
}

#[test]
fn drain_past_valid_skips_forward() {
    let mut buf = TcpBuffer::new(0, 100);
    buf.add_segment(0, b"abc");
    buf.drain(5);
    assert_eq!(buf.len(), 0);
    // bytes 5..8 of the original stream now sit at offset 0
    buf.add_segment(5, b"def");
    assert_eq!(buf.get_data(), b"def");
}

#[test]
fn process_valid_data_is_idempotent() {
    let mut buf = TcpBuffer::new(0, 100);
    buf.add_segment(0, b"abcd");
    buf.process_valid_data();
    assert_eq!(buf.len(), 4);
    assert_eq!(buf.get_data(), b"abcd");
}
