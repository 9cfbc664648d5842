use coreos_installer::initrd::{GlobMatcher, Initrd, DIR_MODE, FILE_MODE};
use std::io::Read;

fn unpack(archive: &[u8]) -> Vec<(bool, String, Vec<u8>)> {
    let mut cpio = Vec::new();
    xz2::read::XzDecoder::new(archive)
        .read_to_end(&mut cpio)
        .unwrap();
    let mut source = &*cpio;
    let mut out = Vec::new();
    loop {
        let mut reader = cpio::NewcReader::new(source).unwrap();
        let entry = reader.entry();
        if entry.is_trailer() {
            break;
        }
        let is_dir = entry.mode() & 0o170_000 == 0o40_000;
        let name = entry.name().to_string();
        let mut data = Vec::new();
        reader.read_to_end(&mut data).unwrap();
        out.push((is_dir, name, data));
        source = reader.finish().unwrap();
    }
    out
}

#[test]
fn directories() {
    let mut initrd = Initrd::new();
    initrd.add("c/f", vec![]);
    initrd.add("c/a/b/d/f", vec![]);
    initrd.add("d", vec![]);
    initrd.add("c/g", vec![]);
    initrd.add("c/a/c/f", vec![]);
    initrd.add("a/b/c/d/e/f", vec![]);

    let entries = unpack(&initrd.to_bytes().unwrap());
    assert_eq!(
        entries
            .iter()
            .map(|(d, p, _)| (*d, p.as_str()))
            .collect::<Vec<(bool, &str)>>(),
        vec![
            (true, "a"),
            (true, "a/b"),
            (true, "a/b/c"),
            (true, "a/b/c/d"),
            (true, "a/b/c/d/e"),
            (false, "a/b/c/d/e/f"),
            (true, "c"),
            (true, "c/a"),
            (true, "c/a/b"),
            (true, "c/a/b/d"),
            (false, "c/a/b/d/f"),
            (true, "c/a/c"),
            (false, "c/a/c/f"),
            (false, "c/f"),
            (false, "c/g"),
            (false, "d"),
        ]
    );
}

#[test]
fn archive_contents_roundtrip() {
    let input = r#"{}"#;
    let mut initrd = Initrd::new();
    initrd.add("z", input.as_bytes().into());
    let bytes = initrd.to_bytes().unwrap();
    // xz magic
    assert_eq!(&bytes[0..6], b"\xfd7zXZ\x00");
    let entries = unpack(&bytes);
    assert_eq!(entries.len(), 1);
    assert_eq!(entries[0].1, "z");
    assert_eq!(entries[0].2, input.as_bytes());
}

#[test]
fn archive_members_modes() {
    let mut initrd = Initrd::new();
    initrd.add("x/y", b"data".to_vec());
    let members = initrd.archive_members();
    assert_eq!(members.len(), 2);
    assert_eq!(members[0].path, "x");
    assert_eq!(members[0].mode, DIR_MODE);
    assert!(members[0].contents.is_empty());
    assert_eq!(members[1].path, "x/y");
    assert_eq!(members[1].mode, FILE_MODE);
    assert_eq!(members[1].contents, b"data");
}

#[test]
fn add_get_remove() {
    let mut initrd = Initrd::new();
    assert!(initrd.is_empty());
    initrd.add("b", b"1".to_vec());
    initrd.add("a", b"2".to_vec());
    initrd.add("b", b"3".to_vec());
    assert!(!initrd.is_empty());
    assert_eq!(initrd.len(), 2);
    assert_eq!(initrd.get("b"), Some(&b"3"[..]));
    assert_eq!(initrd.get("a"), Some(&b"2"[..]));
    assert_eq!(initrd.get("c"), None);
    initrd.remove("b");
    initrd.remove("c");
    assert_eq!(initrd.get("b"), None);
    assert_eq!(initrd.len(), 1);
    initrd.remove("a");
    assert!(initrd.is_empty());
}

#[test]
fn matching() {
    let mut initrd = Initrd::new();
    for dir in ["uncompressed-1", "uncompressed-2", "gzip", "xz", "zstd"] {
        initrd.add(&format!("{}/hello", dir), b"HELLO\n".to_vec());
        initrd.add(&format!("{}/world", dir), b"WORLD\n".to_vec());
    }
    let matcher = |glob| GlobMatcher::new(&[glob]).unwrap();
    assert_eq!(initrd.find(&matcher("gzip/hello")).len(), 1);
    assert_eq!(initrd.find(&matcher("gzip/*")).len(), 2);
    assert_eq!(initrd.find(&matcher("*/hello")).len(), 5);
    assert_eq!(initrd.find(&matcher("*")).len(), 10);
    assert_eq!(initrd.find(&matcher("z")).len(), 0);
    // in path order
    let found = initrd.find(&matcher("*/world"));
    let paths: Vec<&str> = found.iter().map(|(p, _)| p.as_str()).collect();
    assert_eq!(
        paths,
        vec![
            "gzip/world",
            "uncompressed-1/world",
            "uncompressed-2/world",
            "xz/world",
            "zstd/world"
        ]
    );
    assert!(GlobMatcher::new(&["["]).is_err());

    // filtered reading
    let data = initrd.to_bytes().unwrap();
    let filtered = Initrd::from_reader_filtered(&*data, &matcher("z")).unwrap();
    assert_eq!(filtered.find(&matcher("*")).len(), 0);
    let filtered = Initrd::from_reader_filtered(&*data, &matcher("gzip/*")).unwrap();
    assert_eq!(filtered.find(&matcher("*")).len(), 2);
    let filtered = Initrd::from_reader_filtered(&*data, &matcher("uncompressed-*")).unwrap();
    assert_eq!(filtered.find(&matcher("*")).len(), 4);
}
