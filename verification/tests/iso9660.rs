use coreos_installer::iso9660::{
    get_next_directory_record, get_next_volume_descriptor, parse_iso9660_string, path_components,
    verify_descriptor_header, Address, DirectoryRecord, IsoError, IsoString, VolumeDescriptor,
};

#[test]
fn test_path_components() {
    // basic
    assert_eq!(path_components("z"), vec!["z"]);
    // absolute path with . and ..
    assert_eq!(path_components("/a/./../b"), vec!["b"]);
    // relative path, traversal past root
    assert_eq!(path_components("./a/../../b"), vec!["b"]);
    // just the root
    assert_eq!(path_components("/"), Vec::new() as Vec<&str>);
    // empty string
    assert_eq!(path_components(""), Vec::new() as Vec<&str>);
}

#[test]
fn more_path_components() {
    assert_eq!(path_components("a//b/"), vec!["a", "b"]);
    assert_eq!(path_components("a/b/../c"), vec!["a", "c"]);
    assert_eq!(path_components("IMAGES/IGNITION.IMG"), vec!["IMAGES", "IGNITION.IMG"]);
}

#[test]
fn iso_strings() {
    let b = b"FILE.TXT;1";
    assert_eq!(
        parse_iso9660_string(b, 0, b.len(), IsoString::File).unwrap(),
        "FILE.TXT"
    );
    let b = b"DIR.";
    assert_eq!(parse_iso9660_string(b, 0, b.len(), IsoString::File).unwrap(), "DIR");
    let b = b"A;B";
    assert_eq!(parse_iso9660_string(b, 0, b.len(), IsoString::File).unwrap(), "A.B");
    assert_eq!(parse_iso9660_string(b, 0, b.len(), IsoString::StrA).unwrap(), "A;B");
    assert_eq!(
        parse_iso9660_string(b, 0, b.len(), IsoString::StrD),
        Err(IsoError::InvalidString)
    );
    let b = b"volume-ID-string   \0\0\0";
    assert_eq!(
        parse_iso9660_string(b, 0, b.len(), IsoString::StrA).unwrap(),
        "volume-ID-string"
    );
    assert_eq!(
        parse_iso9660_string(b, 3, 30, IsoString::StrA),
        Err(IsoError::IncompleteString)
    );
    let b = b"abc\x7f";
    assert_eq!(
        parse_iso9660_string(b, 0, b.len(), IsoString::StrA),
        Err(IsoError::InvalidString)
    );
}

fn record(name: &[u8], sector: u32, length: u32, dir: bool) -> Vec<u8> {
    let mut len = 33 + name.len();
    if len % 2 == 1 {
        len += 1;
    }
    let mut r = vec![0u8; len];
    r[0] = len as u8;
    r[2..6].copy_from_slice(&sector.to_le_bytes());
    r[10..14].copy_from_slice(&length.to_le_bytes());
    r[25] = if dir { 2 } else { 0 };
    r[32] = name.len() as u8;
    r[33..33 + name.len()].copy_from_slice(name);
    r
}

#[test]
fn directory_records() {
    let mut dir = Vec::new();
    dir.extend(record(&[0], 20, 2048, true));
    dir.extend(record(&[1], 18, 2048, true));
    dir.extend(record(b"CONTENT", 25, 2048, true));
    dir.extend(record(b"FILE.TXT;1", 30, 4, false));
    dir.resize(2048, 0);
    dir.extend(record(b"LATE", 40, 10, false));
    dir.resize(4096, 0);
    let length = dir.len() as u32;

    let (r, next) = get_next_directory_record(&dir, 0, length, false)
        .unwrap()
        .unwrap();
    match r {
        DirectoryRecord::Directory(d) => {
            assert_eq!(d.name, "CONTENT");
            assert_eq!(d.address, Address(25));
            assert_eq!(d.address.as_offset(), 25 * 2048);
            assert_eq!(d.address.as_sector(), 25);
        }
        _ => panic!("expected a directory"),
    }
    let (r, next) = get_next_directory_record(&dir, next, length, false)
        .unwrap()
        .unwrap();
    let f = r.try_into_file().unwrap();
    assert_eq!(f.name, "FILE.TXT");
    assert_eq!(f.length, 4);
    // skips the padding to the next sector
    let (r, next) = get_next_directory_record(&dir, next, length, false)
        .unwrap()
        .unwrap();
    assert_eq!(r.clone().try_into_file().unwrap().name, "LATE");
    assert_eq!(
        r.try_into_dir(),
        Err(IsoError::NotADirectory("LATE".to_string()))
    );
    assert!(get_next_directory_record(&dir, next, length, false)
        .unwrap()
        .is_none());

    // the root's own record is named "."
    let (r, _) = get_next_directory_record(&dir, 0, 34, true).unwrap().unwrap();
    assert_eq!(r.try_into_dir().unwrap().name, ".");

    // a record longer than the directory
    let mut bad = record(b"X", 1, 1, false);
    bad[0] = 200;
    assert_eq!(
        get_next_directory_record(&bad, 0, bad.len() as u32, false),
        Err(IsoError::IncompleteRecord)
    );
    // a record too short for its own name
    let mut bad = record(b"XYZ", 1, 1, false);
    bad[0] = 34;
    assert_eq!(
        get_next_directory_record(&bad, 0, bad.len() as u32, false),
        Err(IsoError::Corrupt)
    );
}

#[test]
fn volume_descriptors() {
    let mut sector = vec![0u8; 2048];
    sector[0] = 1;
    sector[1..6].copy_from_slice(b"CD001");
    sector[6] = 1;
    let mut sys = b"system-ID-string".to_vec();
    sys.resize(32, b' ');
    sector[8..40].copy_from_slice(&sys);
    let mut vol = b"volume-ID-string".to_vec();
    vol.resize(32, b' ');
    sector[40..72].copy_from_slice(&vol);
    sector[80..84].copy_from_slice(&338u32.to_le_bytes());
    let root = record(&[0], 20, 2048, true);
    sector[156..156 + root.len()].copy_from_slice(&root);
    match get_next_volume_descriptor(&sector).unwrap().unwrap() {
        VolumeDescriptor::Primary(p) => {
            assert_eq!(p.system_id, "system-ID-string");
            assert_eq!(p.volume_id, "volume-ID-string");
            assert_eq!(p.volume_space_size, 338);
            assert_eq!(p.root.name, ".");
        }
        other => panic!("unexpected {:?}", other),
    }
    sector[6] = 2;
    assert_eq!(
        verify_descriptor_header(&sector, 1),
        Err(IsoError::UnknownDescriptorVersion(2))
    );
    sector[1] = b'X';
    assert_eq!(
        get_next_volume_descriptor(&sector),
        Err(IsoError::UnknownDescriptorId)
    );
    sector[0] = 255;
    assert_eq!(get_next_volume_descriptor(&sector), Ok(None));
    sector[0] = 2;
    assert_eq!(
        get_next_volume_descriptor(&sector),
        Ok(Some(VolumeDescriptor::Supplementary))
    );
    sector[0] = 7;
    assert_eq!(
        get_next_volume_descriptor(&sector),
        Ok(Some(VolumeDescriptor::Unknown { type_id: 7 }))
    );
}
