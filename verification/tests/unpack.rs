use coreos_installer::initrd::{GlobMatcher, Initrd};
use coreos_installer::unpack::parse_initrd;
use std::io::{Cursor, Write};

fn cpio_archive(files: &[(&str, &[u8])]) -> Vec<u8> {
    let entries = files.iter().map(|(name, data)| {
        (
            cpio::NewcBuilder::new(name).mode(0o100_644),
            Cursor::new(data.to_vec()),
        )
    });
    cpio::write_cpio(entries, Vec::new()).unwrap()
}

fn gzip(data: &[u8]) -> Vec<u8> {
    let mut e = flate2::write::GzEncoder::new(Vec::new(), flate2::Compression::default());
    e.write_all(data).unwrap();
    e.finish().unwrap()
}

fn xz(data: &[u8]) -> Vec<u8> {
    let mut e = xz2::write::XzEncoder::new(Vec::new(), 6);
    e.write_all(data).unwrap();
    e.finish().unwrap()
}

fn zstd(data: &[u8]) -> Vec<u8> {
    zstd::stream::encode_all(data, 3).unwrap()
}

#[test]
fn roundtrip() {
    let input = r#"{}"#;
    let mut initrd = Initrd::new();
    initrd.add("z", input.as_bytes().into());
    assert_eq!(
        input.as_bytes(),
        Initrd::from_reader(&*initrd.to_bytes().unwrap())
            .unwrap()
            .get("z")
            .unwrap()
    );
}

fn mixed_archive() -> Vec<u8> {
    let mut data = Vec::new();
    data.extend(cpio_archive(&[
        ("uncompressed-1/hello", b"HELLO\n"),
        ("uncompressed-1/world", b"WORLD\n"),
    ]));
    data.extend(vec![0u8; 512]);
    data.extend(gzip(&cpio_archive(&[("gzip/hello", b"HELLO\n"), ("gzip/world", b"WORLD\n")])));
    data.extend(vec![0u8; 3]);
    data.extend(xz(&cpio_archive(&[("xz/hello", b"HELLO\n"), ("xz/world", b"WORLD\n")])));
    data.extend(zstd(&cpio_archive(&[("zstd/hello", b"HELLO\n"), ("zstd/world", b"WORLD\n")])));
    data.extend(cpio_archive(&[
        ("uncompressed-2/hello", b"HELLO\n"),
        ("uncompressed-2/world", b"WORLD\n"),
    ]));
    data
}

#[test]
fn compression() {
    let initrd = Initrd::from_reader(&*mixed_archive()).unwrap();
    let all = initrd.find(&GlobMatcher::new(&["*"]).unwrap());
    let got: Vec<(&str, &[u8])> = all.iter().map(|(p, c)| (p.as_str(), c.as_slice())).collect();
    assert_eq!(
        got,
        vec![
            ("gzip/hello", &b"HELLO\n"[..]),
            ("gzip/world", b"WORLD\n"),
            ("uncompressed-1/hello", b"HELLO\n"),
            ("uncompressed-1/world", b"WORLD\n"),
            ("uncompressed-2/hello", b"HELLO\n"),
            ("uncompressed-2/world", b"WORLD\n"),
            ("xz/hello", b"HELLO\n"),
            ("xz/world", b"WORLD\n"),
            ("zstd/hello", b"HELLO\n"),
            ("zstd/world", b"WORLD\n"),
        ]
    );
}

#[test]
fn filtered_reading() {
    let data = mixed_archive();
    let matcher = |glob| GlobMatcher::new(&[glob]).unwrap();
    let initrd = Initrd::from_reader_filtered(&*data, &matcher("z")).unwrap();
    assert!(initrd.is_empty());
    let initrd = Initrd::from_reader_filtered(&*data, &matcher("gzip/*")).unwrap();
    assert_eq!(initrd.find(&matcher("*")).len(), 2);
    let initrd = Initrd::from_reader_filtered(&*data, &matcher("uncompressed-*")).unwrap();
    assert_eq!(initrd.find(&matcher("*")).len(), 4);
}

/// The last copy of a file in an initrd wins, as in the kernel.
#[test]
fn redundancy() {
    let mut data = cpio_archive(&[("data/file", b"first\n")]);
    data.extend(gzip(&cpio_archive(&[("data/file", b"second\n")])));
    data.extend(cpio_archive(&[("data/file", b"third\n")]));
    assert_eq!(
        Initrd::from_reader(&*data).unwrap().get("data/file").unwrap(),
        b"third\n"
    );
}

#[test]
fn bad_archives() {
    // garbage
    assert!(Initrd::from_reader(&b"not an archive"[..]).is_err());
    // leading zeros are not padding
    let mut data = vec![0u8; 4];
    data.extend(cpio_archive(&[("a", b"1")]));
    assert!(Initrd::from_reader(&*data).is_err());
    // data after the trailer inside a compressed archive
    let mut inner = cpio_archive(&[("a", b"1")]);
    inner.extend(b"junk");
    assert!(Initrd::from_reader(&*gzip(&inner)).is_err());
    // zero padding there is fine
    let mut inner = cpio_archive(&[("a", b"1")]);
    inner.extend(vec![0u8; 16]);
    assert_eq!(Initrd::from_reader(&*xz(&inner)).unwrap().get("a").unwrap(), b"1");
    // empty input
    assert!(Initrd::from_reader(&b""[..]).unwrap().is_empty());
}

/// A newc entry written by hand, its name padded with NULs to `name_len`
/// bytes, as dracut-cpio does.
fn padded_entry(ino: u32, name: &str, mode: u32, data: &[u8], name_len: usize) -> Vec<u8> {
    let mut out = b"070701".to_vec();
    for field in [ino, mode, 0, 0, 1, 0, data.len() as u32, 0, 0, 0, 0, name_len as u32, 0] {
        out.extend(format!("{:08x}", field).as_bytes());
    }
    let mut name_bytes = name.as_bytes().to_vec();
    name_bytes.resize(name_len, 0);
    out.extend(name_bytes);
    while out.len() % 4 != 0 {
        out.push(0);
    }
    out.extend(data);
    while out.len() % 4 != 0 {
        out.push(0);
    }
    out
}

#[test]
fn padded_filenames() {
    let hello = vec![b'z'; 5000];
    let world = vec![b'q'; 4500];
    let mut archive = Vec::new();
    archive.extend(padded_entry(1, "dir", 0o40_755, b"", 512));
    archive.extend(padded_entry(2, "dir/hello", 0o100_644, &hello, 512));
    archive.extend(padded_entry(3, "dir/world", 0o100_644, &world, 300));
    archive.extend(padded_entry(0, "TRAILER!!!", 0, b"", 11));
    let initrd = Initrd::from_reader(&*archive).unwrap();
    let all = initrd.find(&GlobMatcher::new(&["*"]).unwrap());
    let got: Vec<(&str, &[u8])> = all.iter().map(|(p, c)| (p.as_str(), c.as_slice())).collect();
    assert_eq!(got, vec![("dir/hello", &hello[..]), ("dir/world", &world[..])]);
}

#[test]
fn nested_files_read_back() {
    let mut initrd = Initrd::new();
    initrd.add("etc/a/b", b"one".to_vec());
    initrd.add("etc/c", b"two".to_vec());
    initrd.add("z", Vec::new());
    let bytes = initrd.to_bytes().unwrap();
    let all = GlobMatcher::new(&["*"]).unwrap();
    let back = parse_initrd(&bytes, &all).unwrap();
    assert_eq!(back.get("etc/a/b").unwrap(), b"one");
    assert_eq!(back.get("etc/c").unwrap(), b"two");
    assert_eq!(back.get("z").unwrap(), b"");
    // the directories are archive entries, not files
    assert!(back.get("etc").is_none());
    assert!(back.get("etc/a").is_none());
}
