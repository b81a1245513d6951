use streambuf::{RangeBuf, RecvBuf, SendBuf};

#[test]
fn empty_read() {
    let mut buf = RecvBuf::new();
    assert_eq!(buf.len(), 0);

    let read = buf.pop();
    assert_eq!(read.len(), 0);
}

#[test]
fn ordered_read() {
    let mut buf = RecvBuf::new();
    assert_eq!(buf.len(), 0);

    let first = RangeBuf::from(b"hello", 0);
    let second = RangeBuf::from(b"world", 5);
    let third = RangeBuf::from(b"something", 10);

    buf.push(second);
    assert_eq!(buf.len(), 10);

    let read = buf.pop();
    assert_eq!(read.len(), 0);

    buf.push(third);
    assert_eq!(buf.len(), 19);

    buf.push(first);
    assert_eq!(buf.len(), 19);

    let read = buf.pop();
    assert_eq!(read.len(), 19);
    assert_eq!(&read[..], b"helloworldsomething");
    assert_eq!(buf.len(), 0);

    let read = buf.pop();
    assert_eq!(read.len(), 0);
}

#[test]
fn incomplete_read() {
    let mut buf = RecvBuf::new();
    assert_eq!(buf.len(), 0);

    let first = RangeBuf::from(b"something", 0);
    let second = RangeBuf::from(b"helloworld", 9);

    buf.push(second);
    assert_eq!(buf.len(), 19);

    let read = buf.pop();
    assert_eq!(read.len(), 0);

    buf.push(first);
    assert_eq!(buf.len(), 19);

    let read = buf.pop();
    assert_eq!(read.len(), 19);
    assert_eq!(&read[..], b"somethinghelloworld");
    assert_eq!(buf.len(), 0);
}

#[test]
fn empty_write() {
    let mut buf = RecvBuf::new();
    assert_eq!(buf.len(), 0);

    let write = buf.pop();
    assert_eq!(write.len(), 0);
}

#[test]
fn multi_write() {
    let mut buf = SendBuf::new();
    assert_eq!(buf.len(), 0);

    let first: [u8; 9] = *b"something";
    let second: [u8; 10] = *b"helloworld";

    buf.push(&first);
    assert_eq!(buf.len(), 9);

    buf.push(&second);
    assert_eq!(buf.len(), 19);

    let write = buf.pop(128);
    assert_eq!(write.len(), 19);
    assert_eq!(&write[..], b"somethinghelloworld");
    assert_eq!(buf.len(), 0);
}

#[test]
fn split_write() {
    let mut buf = SendBuf::new();
    assert_eq!(buf.len(), 0);

    let first: [u8; 9] = *b"something";
    let second: [u8; 10] = *b"helloworld";

    buf.push(&first);
    assert_eq!(buf.len(), 9);

    buf.push(&second);
    assert_eq!(buf.len(), 19);

    let write = buf.pop(9);
    assert_eq!(write.len(), 9);
    assert_eq!(&write[..], b"something");
    assert_eq!(buf.len(), 10);

    let write = buf.pop(10);
    assert_eq!(write.len(), 10);
    assert_eq!(&write[..], b"helloworld");
    assert_eq!(buf.len(), 0);
}
