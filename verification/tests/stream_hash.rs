use coreos_installer::stream_hash::{do_stream_hash, parse_hash_file, stream_hash_bytes, StreamHashError};
use std::io::Cursor;

#[test]
fn test_stream_hash() {
    struct Test {
        hash_file: &'static str,
        input: &'static str,
        err: Option<&'static str>,
    }
    let tests = vec![
        Test {
            hash_file: "",
            input: "",
            err: Some("hash file is empty"),
        },
        Test {
            hash_file: "aardvark\n",
            input: "",
            err: Some("couldn't parse hash file header"),
        },
        Test {
            hash_file: " stream-hash sha256 1234 \n",
            input: "",
            err: Some("couldn't parse hash file header"),
        },
        Test {
            hash_file: "stream-hash sha255 1234\n",
            input: "",
            err: Some("unknown digest algorithm sha255"),
        },
        Test {
            hash_file: "stream-hash sha256 0\n",
            input: "",
            err: Some("chunk size cannot be zero"),
        },
        Test {
            hash_file: "stream-hash sha256 134217728\n",
            input: "",
            err: Some("chunk size 134217728 is greater than maximum 67108864"),
        },
        Test {
            hash_file: "stream-hash sha256 8\nasdf\n",
            input: "",
            err: Some("couldn't decode hash: \"asdf\""),
        },
        // empty input
        Test {
            hash_file: "stream-hash sha256 8\n",
            input: "",
            err: None,
        },
        // extra hash
        Test {
            hash_file: "stream-hash sha256 8
3af36011654a7bc5159ecf41c610f1f7dbd9deb0d5638f8626db66f7b6467106
3af36011654a7bc5159ecf41c610f1f7dbd9deb0d5638f8626db66f7b6467106
",
            input: "asdfasd\n",
            err: Some("premature end of input data at offset 8"),
        },
        // bad hash
        Test {
            hash_file: "stream-hash sha256 8
3af36011654a7bc5159ecf41c610f1f7dbd9deb0d5638f8626db66f7b6467106
e1bc8d3ba4afc7e109612cb73acbdddac052c93025aa1f82942edabb7deb82a1
",
            input: "asdfasd\nasdf\n",
            err: Some("hash mismatch at offset 8; expected e1bc8d3ba4afc7e109612cb73acbdddac052c93025aa1f82942edabb7deb82a1, found d1bc8d3ba4afc7e109612cb73acbdddac052c93025aa1f82942edabb7deb82a1"),
        },
        // extra data
        Test {
            hash_file: "stream-hash sha256 8
3af36011654a7bc5159ecf41c610f1f7dbd9deb0d5638f8626db66f7b6467106
",
            input: "asdfasd\nqqq",
            err: Some("found extra input data at offset 8"),
        },
        // partial last chunk
        Test {
            hash_file: "stream-hash sha256 8
3af36011654a7bc5159ecf41c610f1f7dbd9deb0d5638f8626db66f7b6467106
5f70ae29b3019ec851ef6b664b59d3fd88dda0de5eb58212ddbd97c65c3f8198
",
            input: "asdfasd\nqwer\n",
            err: None,
        },
        // full last chunk
        Test {
            hash_file: "stream-hash sha256 8
3af36011654a7bc5159ecf41c610f1f7dbd9deb0d5638f8626db66f7b6467106
ef2323b075d71f44c62f62d37b29a5fc4f10c03579a3f6e5b00c2d9666a75e65
",
            input: "asdfasd\nqwertyu\n",
            err: None,
        },
        // no trailing newline in hash file
        Test {
            hash_file: "stream-hash sha256 8
688787d8ff144c502c7f5cffaafe2cc588d86079f9de88304c26b0cb99ce91c6",
            input: "asd",
            err: None,
        },
    ];
    for (i, test) in tests.iter().enumerate() {
        let mut output: Vec<u8> = Vec::new();
        match do_stream_hash(
            &mut Cursor::new(&test.hash_file),
            &mut Cursor::new(&test.input),
            &mut output,
        )
        .0
        {
            Ok(_) => {
                assert!(
                    test.err.is_none(),
                    "{}: expected error: {}",
                    i,
                    test.err.unwrap_or("-")
                );
                assert_eq!(test.input.as_bytes(), output.as_slice(), "{}", i);
            }
            Err(e) => {
                assert!(test.err.is_some(), "{}: found error: {}", i, e.to_string());
                assert_eq!(&e.to_string(), test.err.unwrap(), "{}", i);
            }
        }
    }
}

#[test]
fn stream_hash_header_faults() {
    assert_eq!(
        parse_hash_file(b"stream-hash sha256 99999999999999999999999\n").err(),
        Some(StreamHashError::BadChunkSize)
    );
    assert_eq!(
        parse_hash_file(b"stream-hash sha256 8").err(),
        Some(StreamHashError::BadHeader)
    );
    assert_eq!(
        parse_hash_file(b"stream-hash \xff 8\n").err(),
        Some(StreamHashError::ReadHashFile)
    );
    let (size, lines) = parse_hash_file(b"stream-hash sha256 16\nab\r\ncd\n\nef").unwrap();
    assert_eq!(size, 16);
    assert_eq!(
        lines,
        vec![b"ab".to_vec(), b"cd".to_vec(), b"".to_vec(), b"ef".to_vec()]
    );
}

#[test]
fn stream_hash_messages() {
    assert_eq!(StreamHashError::BadHashLine.to_string(), "couldn't read hash from hash file");
    assert_eq!(
        StreamHashError::BadDigest { line: "a\"b".to_string() }.to_string(),
        "couldn't decode hash: \"a\\\"b\""
    );
    let mut output: Vec<u8> = Vec::new();
    let r = do_stream_hash(
        &mut Cursor::new(b"stream-hash sha256 8\n\xff\n".to_vec()),
        &mut Cursor::new(b"abc".to_vec()),
        &mut output,
    )
    .0;
    assert_eq!(r, Err(StreamHashError::BadHashLine));
    assert!(output.is_empty());
}

const H1: &str = "3af36011654a7bc5159ecf41c610f1f7dbd9deb0d5638f8626db66f7b6467106";
const H_QWER: &str = "5f70ae29b3019ec851ef6b664b59d3fd88dda0de5eb58212ddbd97c65c3f8198";
const H_BAD: &str = "e1bc8d3ba4afc7e109612cb73acbdddac052c93025aa1f82942edabb7deb82a1";

#[test]
fn stream_hash_in_memory() {
    // extra data: the verified chunk is written, then the copy fails
    let hf = format!("stream-hash sha256 8\n{}\n", H1);
    let (out, r) = stream_hash_bytes(hf.as_bytes(), b"asdfasd\nqqq");
    assert_eq!(out, b"asdfasd\n");
    assert_eq!(r, Err(StreamHashError::ExtraInput { offset: 8 }));
    // a short last chunk is accepted, and the output is the input
    let hf = format!("stream-hash sha256 8\n{}\n{}\n", H1, H_QWER);
    let (out, r) = stream_hash_bytes(hf.as_bytes(), b"asdfasd\nqwer\n");
    assert_eq!(out, b"asdfasd\nqwer\n");
    assert_eq!(r, Ok(()));
    // a mismatching chunk is never written
    let hf = format!("stream-hash sha256 8\n{}\n{}\n", H1, H_BAD);
    let (out, r) = stream_hash_bytes(hf.as_bytes(), b"asdfasd\nasdf\n");
    assert_eq!(out, b"asdfasd\n");
    assert_eq!(
        r.unwrap_err().to_string(),
        format!("hash mismatch at offset 8; expected {}, found d1bc8d3ba4afc7e109612cb73acbdddac052c93025aa1f82942edabb7deb82a1", H_BAD)
    );
    // input ends early
    let hf = format!("stream-hash sha256 8\n{}\n{}\n", H1, H1);
    let (out, r) = stream_hash_bytes(hf.as_bytes(), b"asdfasd\n");
    assert_eq!(out, b"asdfasd\n");
    assert_eq!(r, Err(StreamHashError::PrematureEnd { offset: 8 }));
    // a bad hash file writes nothing
    let (out, r) = stream_hash_bytes(b"", b"x");
    assert!(out.is_empty());
    assert_eq!(r, Err(StreamHashError::EmptyHashFile));
}

#[test]
fn stream_hash_streaming_output() {
    let hf = format!("stream-hash sha256 8\n{}\n", H1);
    let mut out: Vec<u8> = Vec::new();
    let r = do_stream_hash(&mut Cursor::new(hf.as_bytes()), &mut Cursor::new(b"asdfasd\nqqq"), &mut out).0;
    assert_eq!(r, Err(StreamHashError::ExtraInput { offset: 8 }));
    assert_eq!(out, b"asdfasd\n");
}

/// Gives its bytes, then fails.
struct FailsAfter {
    data: Vec<u8>,
    pos: usize,
}

impl std::io::Read for FailsAfter {
    fn read(&mut self, buf: &mut [u8]) -> std::io::Result<usize> {
        if self.pos == self.data.len() {
            return Err(std::io::Error::new(std::io::ErrorKind::Other, "broken"));
        }
        let n = buf.len().min(self.data.len() - self.pos);
        buf[..n].copy_from_slice(&self.data[self.pos..self.pos + n]);
        self.pos += n;
        Ok(n)
    }
}

#[test]
fn stream_hash_hash_file_read_lazily() {
    // the hash file fails after its first digest line: the first chunk was
    // checked and written before the failure
    let hf = format!("stream-hash sha256 8\n{}\n", H1);
    let mut hash_file = FailsAfter { data: hf.into_bytes(), pos: 0 };
    let mut out: Vec<u8> = Vec::new();
    let r = do_stream_hash(&mut hash_file, &mut Cursor::new(b"asdfasd\nqwer\n"), &mut out).0;
    assert_eq!(r, Err(StreamHashError::BadHashLine));
    assert_eq!(out, b"asdfasd\n");
    // a header that cannot be read
    let mut hash_file = FailsAfter { data: b"stream-hash".to_vec(), pos: 0 };
    let mut out: Vec<u8> = Vec::new();
    let r = do_stream_hash(&mut hash_file, &mut Cursor::new(b"x"), &mut out).0;
    assert_eq!(r, Err(StreamHashError::ReadHashFile));
    assert!(out.is_empty());
}
