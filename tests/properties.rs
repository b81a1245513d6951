use streambuf::{RangeBuf, RecvBuf, SendBuf, Stream, StreamIterator, StreamTable};

#[test]
fn range_buf_accessors() {
    let b = RangeBuf::from(b"abc", 7);
    assert_eq!(b.off(), 7);
    assert_eq!(b.len(), 3);
    assert!(!b.is_empty());
    assert_eq!(b.as_slice(), b"abc");
    assert_eq!(b.into_vec(), b"abc".to_vec());
}

#[test]
fn range_buf_split_off() {
    let mut b = RangeBuf::from(b"helloworld", 4);
    let tail = b.split_off(5);
    assert_eq!(&b[..], b"hello");
    assert_eq!(b.off(), 4);
    assert_eq!(&tail[..], b"world");
    assert_eq!(tail.off(), 9);
}

#[test]
fn gap_keeps_read_empty() {
    let mut buf = RecvBuf::new();
    buf.push(RangeBuf::from(b"fghij", 5));
    buf.push(RangeBuf::from(b"pqrst", 15));
    assert!(!buf.ready());
    assert_eq!(buf.pop().len(), 0);
    assert_eq!(buf.len(), 20);

    buf.push(RangeBuf::from(b"abcde", 0));
    let read = buf.pop();
    assert_eq!(read.off(), 0);
    assert_eq!(&read[..], b"abcdefghij");
    assert_eq!(buf.len(), 10);
    assert_eq!(buf.pop().len(), 0);
}

#[test]
fn out_of_order_chunks_coalesce() {
    let mut buf = RecvBuf::new();
    buf.push(RangeBuf::from(b"KLMNO", 10));
    buf.push(RangeBuf::from(b"ABCDE", 0));
    buf.push(RangeBuf::from(b"FGHIJ", 5));
    let read = buf.pop();
    assert_eq!(&read[..], b"ABCDEFGHIJKLMNO");
    assert_eq!(buf.pop().len(), 0);
    assert_eq!(buf.len(), 0);
}

#[test]
fn overlapping_and_duplicate_chunks() {
    let mut buf = RecvBuf::new();
    buf.push(RangeBuf::from(b"abcdef", 0));
    buf.push(RangeBuf::from(b"abcdef", 0));
    buf.push(RangeBuf::from(b"defghi", 3));
    let read = buf.pop();
    assert_eq!(&read[..], b"abcdefghi");
    assert_eq!(buf.len(), 0);

    // Already delivered: dropped.
    buf.push(RangeBuf::from(b"cde", 2));
    assert!(!buf.ready());
    assert_eq!(buf.len(), 0);

    // Reaches past what was delivered: only the new part is kept.
    buf.push(RangeBuf::from(b"ghijkl", 6));
    assert!(buf.ready());
    let read = buf.pop();
    assert_eq!(read.off(), 9);
    assert_eq!(&read[..], b"jkl");
}

#[test]
fn empty_chunk_is_not_readable() {
    let mut buf = RecvBuf::new();
    buf.push(RangeBuf::from(b"", 0));
    assert!(!buf.ready());
    assert_eq!(buf.pop().len(), 0);
}

#[test]
fn extent_counts_gaps() {
    let mut buf = RecvBuf::new();
    buf.push(RangeBuf::from(b"xy", 8));
    assert_eq!(buf.len(), 10);
    buf.push(RangeBuf::from(b"z", 3));
    assert_eq!(buf.len(), 10);
}

#[test]
fn send_split_mid_chunk() {
    let mut buf = SendBuf::new();
    assert_eq!(buf.push(b"something"), 0);
    assert_eq!(buf.push(b"helloworld"), 9);
    assert_eq!(buf.len(), 19);

    let write = buf.pop(12);
    assert_eq!(write.off(), 0);
    assert_eq!(&write[..], b"somethinghel");
    assert_eq!(buf.len(), 7);

    let write = buf.pop(100);
    assert_eq!(write.off(), 12);
    assert_eq!(&write[..], b"loworld");
    assert_eq!(buf.len(), 0);
    assert!(!buf.ready());
}

#[test]
fn send_zero_budget_and_offsets() {
    let mut buf = SendBuf::new();
    assert_eq!(buf.pop(0).len(), 0);
    buf.push(b"abc");
    assert_eq!(buf.pop(0).len(), 0);
    assert_eq!(buf.len(), 3);
    assert_eq!(buf.pop(2).as_slice(), b"ab");
    assert_eq!(buf.push(b"de"), 3);
    let write = buf.pop(10);
    assert_eq!(write.off(), 2);
    assert_eq!(&write[..], b"cde");
}

#[test]
fn send_accounting() {
    let mut buf = SendBuf::new();
    let mut pushed = 0usize;
    let mut popped = 0usize;
    for (i, chunk) in [&b"a"[..], b"bcd", b"", b"efghij"].iter().enumerate() {
        buf.push(chunk);
        pushed += chunk.len();
        popped += buf.pop(i).len();
        assert_eq!(buf.len(), pushed - popped);
    }
}

#[test]
fn stream_read_write() {
    let mut s = Stream::new();
    assert!(!s.can_read());
    assert!(!s.can_write());

    s.push_recv(RangeBuf::from(b"world", 5));
    assert!(!s.can_read());
    assert_eq!(s.pop_recv().len(), 0);
    s.push_recv(RangeBuf::from(b"hello", 0));
    assert!(s.can_read());
    assert_eq!(&s.pop_recv()[..], b"helloworld");
    assert!(!s.can_read());

    assert_eq!(s.push_send(b"abc"), 0);
    assert!(s.can_write());
    assert_eq!(&s.pop_send(2)[..], b"ab");
    assert!(s.can_write());
    assert_eq!(&s.pop_send(2)[..], b"c");
    assert!(!s.can_write());
}

#[test]
fn readable_streams() {
    let mut t = StreamTable::new();
    t.get_or_create(4).push_recv(RangeBuf::from(b"x", 0));
    t.get_or_create(8).push_recv(RangeBuf::from(b"y", 1));
    t.get_or_create(12);
    t.get_or_create(16).push_recv(RangeBuf::from(b"z", 0));
    t.get_or_create(4).push_recv(RangeBuf::from(b"w", 1));

    let mut ids = t.readable_ids();
    ids.sort();
    assert_eq!(ids, vec![4, 16]);

    let mut it: StreamIterator = t.readable();
    let mut seen = Vec::new();
    while let Some(id) = it.next() {
        seen.push(id);
    }
    seen.sort();
    assert_eq!(seen, vec![4, 16]);

    assert_eq!(&t.get_or_create(4).pop_recv()[..], b"xw");
    assert_eq!(t.readable_ids(), vec![16]);
}
