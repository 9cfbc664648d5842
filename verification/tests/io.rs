use coreos_installer::io::{
    collision_message, copy_exactly_n, copy_n, exactly_n, is_zstd_magic, limit_answer, sniff_compression, Compression, CopyError, LimitReader,
    LimitWriter, TeeReader,
};
use std::io::{Cursor, Read, Write};

#[test]
fn io_test_copy_n() {
    let mut sink = std::io::sink();
    let mut buf = [0u8; 50];

    let data = [0u8; 30];
    assert_eq!(
        copy_exactly_n(&mut &data[..], &mut sink, 0, &mut buf).0.unwrap(),
        0
    );
    assert_eq!(
        copy_exactly_n(&mut &data[..], &mut sink, 1, &mut buf).0.unwrap(),
        1
    );
    assert_eq!(
        copy_exactly_n(&mut &data[..], &mut sink, 29, &mut buf).0.unwrap(),
        29
    );
    assert_eq!(
        copy_exactly_n(&mut &data[..], &mut sink, 30, &mut buf).0.unwrap(),
        30
    );
    assert_eq!(copy_n(&mut &data[..], &mut sink, 31, &mut buf).0.unwrap(), 30);
    assert_eq!(copy_n(&mut &data[..], &mut sink, 49, &mut buf).0.unwrap(), 30);
    assert_eq!(copy_n(&mut &data[..], &mut sink, 50, &mut buf).0.unwrap(), 30);
    assert_eq!(copy_n(&mut &data[..], &mut sink, 51, &mut buf).0.unwrap(), 30);

    let data = [0u8; 50];
    assert_eq!(
        copy_exactly_n(&mut &data[..], &mut sink, 0, &mut buf).0.unwrap(),
        0
    );
    assert_eq!(
        copy_exactly_n(&mut &data[..], &mut sink, 1, &mut buf).0.unwrap(),
        1
    );
    assert_eq!(
        copy_exactly_n(&mut &data[..], &mut sink, 49, &mut buf).0.unwrap(),
        49
    );
    assert_eq!(
        copy_exactly_n(&mut &data[..], &mut sink, 50, &mut buf).0.unwrap(),
        50
    );
    assert_eq!(copy_n(&mut &data[..], &mut sink, 51, &mut buf).0.unwrap(), 50);

    let data = [0u8; 80];
    assert_eq!(
        copy_exactly_n(&mut &data[..], &mut sink, 0, &mut buf).0.unwrap(),
        0
    );
    assert_eq!(
        copy_exactly_n(&mut &data[..], &mut sink, 1, &mut buf).0.unwrap(),
        1
    );
    assert_eq!(
        copy_exactly_n(&mut &data[..], &mut sink, 49, &mut buf).0.unwrap(),
        49
    );
    assert_eq!(
        copy_exactly_n(&mut &data[..], &mut sink, 50, &mut buf).0.unwrap(),
        50
    );
    assert_eq!(
        copy_exactly_n(&mut &data[..], &mut sink, 51, &mut buf).0.unwrap(),
        51
    );
    assert_eq!(
        copy_exactly_n(&mut &data[..], &mut sink, 79, &mut buf).0.unwrap(),
        79
    );
    assert_eq!(
        copy_exactly_n(&mut &data[..], &mut sink, 80, &mut buf).0.unwrap(),
        80
    );
    assert_eq!(copy_n(&mut &data[..], &mut sink, 81, &mut buf).0.unwrap(), 80);
}
#[test]
fn io_limit_reader_test() {
    // build input data
    let mut data: Vec<u8> = Vec::new();
    for i in 0..100 {
        data.push(i);
    }

    // limit larger than file
    let mut file = Cursor::new(data.clone());
    let mut lim = LimitReader::new(&mut file, 150, "foo".into());
    let mut buf = [0u8; 60];
    assert_eq!(lim.read(&mut buf).unwrap(), 60);
    assert_eq!(buf[..], data[0..60]);
    assert_eq!(lim.read(&mut buf).unwrap(), 40);
    assert_eq!(buf[..40], data[60..100]);
    assert_eq!(lim.read(&mut buf).unwrap(), 0);

    // limit exactly equal to file
    let mut file = Cursor::new(data.clone());
    let mut lim = LimitReader::new(&mut file, 100, "foo".into());
    let mut buf = [0u8; 60];
    assert_eq!(lim.read(&mut buf).unwrap(), 60);
    assert_eq!(buf[..], data[0..60]);
    assert_eq!(lim.read(&mut buf).unwrap(), 40);
    assert_eq!(buf[..40], data[60..100]);
    assert_eq!(lim.read(&mut buf).unwrap(), 0);

    // buffer smaller than limit
    let mut file = Cursor::new(data.clone());
    let mut lim = LimitReader::new(&mut file, 90, "foo".into());
    let mut buf = [0u8; 60];
    assert_eq!(lim.read(&mut buf).unwrap(), 60);
    assert_eq!(buf[..], data[0..60]);
    assert_eq!(lim.read(&mut buf).unwrap(), 30);
    assert_eq!(buf[..30], data[60..90]);
    assert_eq!(
        lim.read(&mut buf).unwrap_err().to_string(),
        "collision with foo at offset 90"
    );

    // buffer exactly equal to limit
    let mut file = Cursor::new(data.clone());
    let mut lim = LimitReader::new(&mut file, 60, "foo".into());
    let mut buf = [0u8; 60];
    assert_eq!(lim.read(&mut buf).unwrap(), 60);
    assert_eq!(buf[..], data[0..60]);
    assert_eq!(
        lim.read(&mut buf).unwrap_err().to_string(),
        "collision with foo at offset 60"
    );

    // buffer larger than limit
    let mut file = Cursor::new(data.clone());
    let mut lim = LimitReader::new(&mut file, 50, "foo".into());
    let mut buf = [0u8; 60];
    assert_eq!(lim.read(&mut buf).unwrap(), 50);
    assert_eq!(buf[..50], data[0..50]);
    assert_eq!(
        lim.read(&mut buf).unwrap_err().to_string(),
        "collision with foo at offset 50"
    );
}
#[test]
fn limit_limit_reader_test() {
    // build input data
    let data: Vec<u8> = (0..100).collect();

    // limit larger than file
    let mut file = Cursor::new(data.clone());
    let mut lim = LimitReader::new(&mut file, 150, "foo".into());
    let mut buf = [0u8; 60];
    assert_eq!(lim.read(&mut buf).unwrap(), 60);
    assert_eq!(buf[..], data[0..60]);
    assert_eq!(lim.read(&mut buf).unwrap(), 40);
    assert_eq!(buf[..40], data[60..100]);
    assert_eq!(lim.read(&mut buf).unwrap(), 0);

    // limit exactly equal to file
    let mut file = Cursor::new(data.clone());
    let mut lim = LimitReader::new(&mut file, 100, "foo".into());
    let mut buf = [0u8; 60];
    assert_eq!(lim.read(&mut buf).unwrap(), 60);
    assert_eq!(buf[..], data[0..60]);
    assert_eq!(lim.read(&mut buf).unwrap(), 40);
    assert_eq!(buf[..40], data[60..100]);
    assert_eq!(lim.read(&mut buf).unwrap(), 0);

    // buffer smaller than limit
    let mut file = Cursor::new(data.clone());
    let mut lim = LimitReader::new(&mut file, 90, "foo".into());
    let mut buf = [0u8; 60];
    assert_eq!(lim.read(&mut buf).unwrap(), 60);
    assert_eq!(buf[..], data[0..60]);
    assert_eq!(lim.read(&mut buf).unwrap(), 30);
    assert_eq!(buf[..30], data[60..90]);
    assert_eq!(
        lim.read(&mut buf).unwrap_err().to_string(),
        "collision with foo at offset 90"
    );

    // buffer exactly equal to limit
    let mut file = Cursor::new(data.clone());
    let mut lim = LimitReader::new(&mut file, 60, "foo".into());
    let mut buf = [0u8; 60];
    assert_eq!(lim.read(&mut buf).unwrap(), 60);
    assert_eq!(buf[..], data[0..60]);
    assert_eq!(
        lim.read(&mut buf).unwrap_err().to_string(),
        "collision with foo at offset 60"
    );

    // buffer larger than limit
    let mut file = Cursor::new(data.clone());
    let mut lim = LimitReader::new(&mut file, 50, "foo".into());
    let mut buf = [0u8; 60];
    assert_eq!(lim.read(&mut buf).unwrap(), 50);
    assert_eq!(buf[..50], data[0..50]);
    assert_eq!(
        lim.read(&mut buf).unwrap_err().to_string(),
        "collision with foo at offset 50"
    );
}
#[test]
fn limit_writer_test() {
    let data: Vec<u8> = (0..100).collect();

    // limit larger than data
    let mut outbuf: Vec<u8> = Vec::new();
    let mut lim = LimitWriter::new(&mut outbuf, 150, "foo".into());
    lim.write_all(&data).unwrap();
    lim.flush().unwrap();
    assert_eq!(data, outbuf);

    // limit exactly equal to data
    let mut outbuf: Vec<u8> = Vec::new();
    let mut lim = LimitWriter::new(&mut outbuf, 100, "foo".into());
    lim.write_all(&data).unwrap();
    lim.flush().unwrap();
    assert_eq!(data, outbuf);

    // limit smaller than data
    let mut outbuf: Vec<u8> = Vec::new();
    let mut lim = LimitWriter::new(&mut outbuf, 90, "foo".into());
    assert_eq!(
        lim.write_all(&data).unwrap_err().to_string(),
        "collision with foo at offset 90"
    );

    // directly test writing in multiple chunks
    let mut outbuf: Vec<u8> = Vec::new();
    let mut lim = LimitWriter::new(&mut outbuf, 90, "foo".into());
    assert_eq!(lim.write(&data[0..60]).unwrap(), 60);
    assert_eq!(lim.write(&data[60..100]).unwrap(), 30); // short write
    assert_eq!(
        lim.write(&data[90..100]).unwrap_err().to_string(),
        "collision with foo at offset 90"
    );
    assert_eq!(lim.write(&data[0..0]).unwrap(), 0);
    assert_eq!(&data[0..90], &outbuf);
}
#[test]
fn mod_test_copy_n() {
    let mut sink = std::io::sink();
    let mut buf = [0u8; 50];

    let data = [0u8; 30];
    assert_eq!(
        copy_exactly_n(&mut &data[..], &mut sink, 0, &mut buf).0.unwrap(),
        0
    );
    assert_eq!(
        copy_exactly_n(&mut &data[..], &mut sink, 1, &mut buf).0.unwrap(),
        1
    );
    assert_eq!(
        copy_exactly_n(&mut &data[..], &mut sink, 29, &mut buf).0.unwrap(),
        29
    );
    assert_eq!(
        copy_exactly_n(&mut &data[..], &mut sink, 30, &mut buf).0.unwrap(),
        30
    );
    assert_eq!(copy_n(&mut &data[..], &mut sink, 31, &mut buf).0.unwrap(), 30);
    assert_eq!(copy_n(&mut &data[..], &mut sink, 49, &mut buf).0.unwrap(), 30);
    assert_eq!(copy_n(&mut &data[..], &mut sink, 50, &mut buf).0.unwrap(), 30);
    assert_eq!(copy_n(&mut &data[..], &mut sink, 51, &mut buf).0.unwrap(), 30);

    let data = [0u8; 50];
    assert_eq!(
        copy_exactly_n(&mut &data[..], &mut sink, 0, &mut buf).0.unwrap(),
        0
    );
    assert_eq!(
        copy_exactly_n(&mut &data[..], &mut sink, 1, &mut buf).0.unwrap(),
        1
    );
    assert_eq!(
        copy_exactly_n(&mut &data[..], &mut sink, 49, &mut buf).0.unwrap(),
        49
    );
    assert_eq!(
        copy_exactly_n(&mut &data[..], &mut sink, 50, &mut buf).0.unwrap(),
        50
    );
    assert_eq!(copy_n(&mut &data[..], &mut sink, 51, &mut buf).0.unwrap(), 50);

    let data = [0u8; 80];
    assert_eq!(
        copy_exactly_n(&mut &data[..], &mut sink, 0, &mut buf).0.unwrap(),
        0
    );
    assert_eq!(
        copy_exactly_n(&mut &data[..], &mut sink, 1, &mut buf).0.unwrap(),
        1
    );
    assert_eq!(
        copy_exactly_n(&mut &data[..], &mut sink, 49, &mut buf).0.unwrap(),
        49
    );
    assert_eq!(
        copy_exactly_n(&mut &data[..], &mut sink, 50, &mut buf).0.unwrap(),
        50
    );
    assert_eq!(
        copy_exactly_n(&mut &data[..], &mut sink, 51, &mut buf).0.unwrap(),
        51
    );
    assert_eq!(
        copy_exactly_n(&mut &data[..], &mut sink, 79, &mut buf).0.unwrap(),
        79
    );
    assert_eq!(
        copy_exactly_n(&mut &data[..], &mut sink, 80, &mut buf).0.unwrap(),
        80
    );
    assert_eq!(copy_n(&mut &data[..], &mut sink, 81, &mut buf).0.unwrap(), 80);
}
#[test]
fn tee_reader() {
    const COUNT: usize = 100;
    let src: Vec<u8> = (0..COUNT as u8).collect();
    let mut buf = vec![0; 2 * COUNT];
    let mut off = 0;
    let mut tee = TeeReader::new(&*src, Vec::new());
    for i in 2.. {
        off += tee.read(&mut buf[off..off + i]).unwrap();
        assert!(off <= COUNT);
        if off == COUNT {
            break;
        }
    }
    assert_eq!(src, buf[..COUNT]);
    let (_, dest) = tee.into_inner();
    assert_eq!(src, dest);
}
#[test]
fn copy_exactly_n_short() {
    let data = [7u8; 10];
    let mut out: Vec<u8> = Vec::new();
    let mut buf = [0u8; 4];
    match copy_exactly_n(&mut &data[..], &mut out, 12, &mut buf).0 {
        Err(CopyError::Short { expected, copied }) => {
            assert_eq!(expected, 12);
            assert_eq!(copied, 10);
        }
        other => panic!("unexpected {:?}", other),
    }
    assert_eq!(out, data);
    let mut out: Vec<u8> = Vec::new();
    assert_eq!(copy_n(&mut &data[..], &mut out, 3, &mut buf).0.unwrap(), 3);
    assert_eq!(out, vec![7u8; 3]);
}

#[test]
fn compression_sniffing() {
    assert_eq!(sniff_compression(b"\x1f\x8b\x08"), Compression::Gzip);
    assert_eq!(sniff_compression(b"\xfd7zXZ\x00"), Compression::Xz);
    assert_eq!(sniff_compression(b"\x28\xb5\x2f\xfd\x00"), Compression::Zstd);
    assert_eq!(sniff_compression(b"\x5a\x2a\x4d\x18\x00"), Compression::Zstd);
    assert_eq!(sniff_compression(b"\x28\xb5\x2f\xfd"), Compression::Uncompressed);
    assert_eq!(sniff_compression(b"\x1f"), Compression::Uncompressed);
    assert_eq!(sniff_compression(b"hello!"), Compression::Uncompressed);
    assert!(is_zstd_magic([0x28, 0xb5, 0x2f, 0xfd]));
    assert!(is_zstd_magic([0x5f, 0x2a, 0x4d, 0x18]));
    assert!(!is_zstd_magic([0x60, 0x2a, 0x4d, 0x18]));
}

#[test]
fn copy_steps() {
    use_copy_steps();
}

fn use_copy_steps() {
    let mut c = coreos_installer::io::CopyN::new(51);
    assert_eq!(c.request(50), 50);
    assert!(c.took(&[1u8; 50]));
    assert_eq!(c.request(50), 1);
    assert!(!c.took(&[2u8; 1]));
    assert_eq!(c.written(), 51);

    let mut c = coreos_installer::io::CopyN::new(51);
    assert!(c.took(&[0u8; 30]));
    // the reader ran out
    assert!(!c.took(&[]));
    assert_eq!(c.written(), 30);
}

#[test]
fn copy_exactly_n_result_step() {
    assert_eq!(exactly_n(51, 51).unwrap(), 51);
    match exactly_n(51, 30) {
        Err(CopyError::Short { expected, copied }) => {
            assert_eq!(expected, 51);
            assert_eq!(copied, 30);
        }
        other => panic!("unexpected {:?}", other),
    }
}

#[test]
fn limit_reader_answers() {
    // below the limit the source's count is handed on
    assert_eq!(limit_answer(90, 60), Some(60));
    assert_eq!(limit_answer(30, 0), Some(0));
    // at the limit: the end of the source is no error, more data is
    assert_eq!(limit_answer(0, 0), Some(0));
    assert_eq!(limit_answer(0, 1), None);
    assert_eq!(collision_message("foo", 90), "collision with foo at offset 90");
}

struct FailingWriter;

impl std::io::Write for FailingWriter {
    fn write(&mut self, _buf: &[u8]) -> std::io::Result<usize> {
        Err(std::io::Error::new(std::io::ErrorKind::Other, "refused"))
    }
    fn flush(&mut self) -> std::io::Result<()> {
        Ok(())
    }
}

#[test]
fn tee_reader_write_failure() {
    let src = [1u8, 2, 3];
    let mut tee = TeeReader::new(&src[..], FailingWriter);
    let mut buf = [0u8; 3];
    let e = tee.read(&mut buf).unwrap_err();
    assert_eq!(e.to_string(), "refused");
    // an empty buffer reads nothing and succeeds
    assert_eq!(tee.read(&mut buf[..0]).unwrap(), 0);
}
