use coreos_installer::peek::PeekReader;
use std::io::{Cursor, Read, SeekFrom};

fn make_peek() -> PeekReader<Cursor<&'static [u8]>> {
    // use BufReader capacity larger than input; we're not testing
    // BufReader's buffering behavior
    PeekReader::with_capacity(64, Cursor::new(b"abcdefghijklmnopqrstuvwxyz"))
}

fn read_bytes<R: Read>(peek: &mut PeekReader<R>, amt: usize) -> Vec<u8> {
    let mut buf = vec![0; amt];
    let amt = peek.read(&mut buf).unwrap();
    buf.truncate(amt);
    buf
}

#[test]
fn read() {
    let mut peek = make_peek();
    // read some bytes
    assert_eq!(&read_bytes(&mut peek, 3), b"abc");
    assert_eq!(&read_bytes(&mut peek, 3), b"def");
    // peek at some bytes
    assert_eq!(peek.peek(2).unwrap(), b"gh");
    // peek reuses existing buffer
    assert_eq!(peek.peek(1).unwrap(), b"g");
    // peek extends buffer
    assert_eq!(peek.peek(4).unwrap(), b"ghij");
    // read after peek, partially emptying buffer
    assert_eq!(&read_bytes(&mut peek, 3), b"ghi");
    // peek extends buffer
    assert_eq!(peek.peek(2).unwrap(), b"jk");
    // read after peek, emptying buffer
    assert_eq!(&read_bytes(&mut peek, 3), b"jk");
    // normal read
    assert_eq!(&read_bytes(&mut peek, 3), b"lmn");
}

#[test]
fn seek() {
    let mut peek = make_peek();
    // fill peek buffer
    assert_eq!(peek.peek(4).unwrap(), b"abcd");
    // seek
    peek.seek(SeekFrom::Start(10)).unwrap();
    // read
    assert_eq!(&read_bytes(&mut peek, 3), b"klm");
    // fill peek buffer
    assert_eq!(peek.peek(4).unwrap(), b"nopq");
    // seek
    peek.seek(SeekFrom::Start(5)).unwrap();
    // peek
    assert_eq!(peek.peek(4).unwrap(), b"fghi");
}

#[test]
fn buf() {
    let mut peek = make_peek();
    // BufRead fill and partial consume
    assert_eq!(peek.fill_buf().unwrap(), b"abcdefghijklmnopqrstuvwxyz");
    peek.consume(5);
    // BufRead fill
    assert_eq!(peek.fill_buf().unwrap(), b"fghijklmnopqrstuvwxyz");
    // peek
    assert_eq!(peek.peek(5).unwrap(), b"fghij");
    // Peek buffer fill and partial consume
    assert_eq!(peek.fill_buf().unwrap(), b"fghij");
    peek.consume(3);
    // Peek buffer fill and consume
    assert_eq!(peek.fill_buf().unwrap(), b"ij");
    peek.consume(2);
    // BufRead fill
    assert_eq!(peek.fill_buf().unwrap(), b"klmnopqrstuvwxyz");
}

#[test]
fn eof() {
    let mut peek = make_peek();
    // seek to near end
    peek.seek(SeekFrom::Start(24)).unwrap();
    // peek past end
    assert_eq!(peek.peek(4).unwrap(), b"yz");
    // read to end
    assert_eq!(&read_bytes(&mut peek, 3), b"yz");
    // peek at end
    assert_eq!(peek.peek(4).unwrap(), b"");
}

#[test]
fn large_reads_bypass_the_buffer() {
    let mut peek = PeekReader::with_capacity(4, Cursor::new(&b"abcdefgh"[..]));
    assert_eq!(&read_bytes(&mut peek, 6), b"abcdef");
    assert_eq!(peek.fill_buf().unwrap(), b"gh");
}
