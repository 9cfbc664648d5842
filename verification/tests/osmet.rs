use coreos_installer::osmet::{verify_canonical, validate_osmet, CanonicalError, Osmet, OsmetError, OsmetPartition, checksum_to_object_path, checksum_to_string, object_path_to_checksum, ObjectPathError, Sha256Digest};

#[test]
fn test_checksum_to_object_path() {
    let mut chksum = Sha256Digest([0u8; 32]);
    let mut buf: Vec<u8> = Vec::new();

    // all zeros
    checksum_to_object_path(&chksum, &mut buf).unwrap();
    assert_eq!(
        std::str::from_utf8(buf.as_slice()).unwrap(),
        "00/00000000000000000000000000000000000000000000000000000000000000.file"
    );
    buf.truncate(0);

    // not all zeros
    chksum.0[0] = 0xff;
    chksum.0[1] = 0xfe;
    chksum.0[31] = 0xfd;
    checksum_to_object_path(&chksum, &mut buf).unwrap();
    assert_eq!(
        std::str::from_utf8(buf.as_slice()).unwrap(),
        "ff/fe0000000000000000000000000000000000000000000000000000000000fd.file"
    );
    buf.truncate(0);
}

#[test]
fn checksum_text() {
    let mut chksum = Sha256Digest::default();
    assert_eq!(checksum_to_string(&chksum), "0".repeat(64));
    chksum.0[0] = 0xab;
    chksum.0[31] = 0x0c;
    let s = checksum_to_string(&chksum);
    assert!(s.starts_with("ab00"));
    assert!(s.ends_with("000c"));
    assert_eq!(s.len(), 64);
}

#[test]
fn object_path_appends() {
    let chksum = Sha256Digest([0x11u8; 32]);
    let mut buf: Vec<u8> = b"objects/".to_vec();
    checksum_to_object_path(&chksum, &mut buf).unwrap();
    let expected = format!("objects/11/{}.file", "11".repeat(31));
    assert_eq!(std::str::from_utf8(&buf).unwrap(), expected);
}

use coreos_installer::osmet::{canonicalize, Extent, Mapping, RootScan};

fn mapping(logical: u64, physical: u64, length: u64) -> Mapping {
    Mapping {
        extent: Extent {
            logical,
            physical,
            length,
        },
        object: Sha256Digest::default(),
    }
}

#[test]
fn test_canonicalize() {
    let mut mappings: Vec<Mapping> = Vec::new();
    mappings.push(mapping(100, 100, 50));
    canonicalize(&mut mappings);
    assert_eq!(mappings.len(), 1);
    assert_eq!(
        mappings[0].extent,
        Extent {
            logical: 100,
            physical: 100,
            length: 50
        }
    );

    mappings.push(mapping(100, 100, 10));
    mappings.push(mapping(110, 110, 10));
    mappings.push(mapping(140, 140, 10));
    canonicalize(&mut mappings);
    assert_eq!(mappings.len(), 1);
    assert_eq!(
        mappings[0].extent,
        Extent {
            logical: 100,
            physical: 100,
            length: 50
        }
    );

    mappings.push(mapping(140, 140, 20));
    mappings.push(mapping(150, 150, 20));
    canonicalize(&mut mappings);
    assert_eq!(mappings.len(), 3);
    assert_eq!(
        mappings[0].extent,
        Extent {
            logical: 100,
            physical: 100,
            length: 50
        }
    );
    assert_eq!(
        mappings[1].extent,
        Extent {
            logical: 150,
            physical: 150,
            length: 10
        }
    );
    assert_eq!(
        mappings[2].extent,
        Extent {
            logical: 160,
            physical: 160,
            length: 10
        }
    );
}

#[test]
fn canonicalize_unsorted_and_empty() {
    let mut none: Vec<Mapping> = Vec::new();
    canonicalize(&mut none);
    assert!(none.is_empty());

    let mut ms = vec![mapping(0, 300, 10), mapping(5, 100, 10), mapping(7, 105, 20)];
    canonicalize(&mut ms);
    let got: Vec<(u64, u64, u64)> = ms
        .iter()
        .map(|m| (m.extent.logical, m.extent.physical, m.extent.length))
        .collect();
    assert_eq!(got, vec![(5, 100, 10), (12, 110, 15), (0, 300, 10)]);
}

use coreos_installer::osmet::{fiemap, fiemap_next_start, fiemap_take, FiemapError};

#[test]
fn fiemap_batches() {
    let mut m = fiemap::new();
    assert_eq!(m.fm_length, u64::MAX);
    assert_eq!(m.fm_extent_count, 32);
    let mut extents = Vec::new();
    assert_eq!(fiemap_next_start(&extents), 0);
    // nothing mapped: done
    assert_eq!(fiemap_take(&mut extents, &m), Ok(true));

    m.fm_mapped_extents = 2;
    m.fm_extents[0].fe_logical = 0;
    m.fm_extents[0].fe_physical = 4096;
    m.fm_extents[0].fe_length = 100;
    m.fm_extents[1].fe_logical = 100;
    m.fm_extents[1].fe_physical = 9000;
    m.fm_extents[1].fe_length = 50;
    assert_eq!(fiemap_take(&mut extents, &m), Ok(false));
    assert_eq!(extents.len(), 2);
    assert_eq!(extents[1], Extent { logical: 100, physical: 9000, length: 50 });
    assert_eq!(fiemap_next_start(&extents), 150);

    m.fm_mapped_extents = 1;
    m.fm_extents[0].fe_logical = 150;
    m.fm_extents[0].fe_flags = 0x1; // last
    assert_eq!(fiemap_take(&mut extents, &m), Ok(true));
    assert_eq!(extents.len(), 3);

    m.fm_extents[0].fe_flags = 0x1 | 0x800;
    assert_eq!(fiemap_take(&mut extents, &m), Err(FiemapError::Preallocated));
    m.fm_extents[0].fe_flags = 0x100 | 0x1000;
    assert_eq!(fiemap_take(&mut extents, &m), Err(FiemapError::NotAligned));
    m.fm_extents[0].fe_flags = 0x2;
    assert_eq!(fiemap_take(&mut extents, &m), Err(FiemapError::Inaccessible));
}

fn phys(physical: u64, length: u64) -> Mapping {
    Mapping {
        extent: Extent { logical: 0, physical, length },
        object: Sha256Digest::default(),
    }
}

#[test]
fn canonical_mappings() {
    assert_eq!(verify_canonical(&[]), Ok(0));
    assert_eq!(verify_canonical(&[phys(10, 5), phys(15, 5)]), Ok(20));
    assert_eq!(
        verify_canonical(&[phys(10, 5), phys(14, 5)]),
        Err(CanonicalError::PastMappingStart { cursor: 15, start: 14 })
    );
    assert_eq!(
        verify_canonical(&[phys(10, 5), phys(u64::MAX, 5)]),
        Err(CanonicalError::Overflow { index: 1 })
    );
    // whatever canonicalize leaves passes the check
    let mut ms = vec![phys(100, 50), phys(120, 100), phys(0, 10), phys(110, 5)];
    canonicalize(&mut ms);
    assert_eq!(verify_canonical(&ms), Ok(220));
}

#[test]
fn osmet_validation() {
    let part = |start: u64, end: u64, ms: Vec<Mapping>| OsmetPartition {
        start_offset: start,
        end_offset: end,
        mappings: ms,
    };
    let osmet = |ps: Vec<OsmetPartition>| Osmet {
        partitions: ps,
        checksum: Sha256Digest::default(),
        size: 0,
    };
    assert_eq!(validate_osmet(&osmet(vec![])), Err(OsmetError::NoPartitions));
    assert_eq!(
        validate_osmet(&osmet(vec![
            part(0, 100, vec![phys(10, 20)]),
            part(100, 200, vec![phys(0, 50)]),
        ])),
        Ok(())
    );
    assert_eq!(
        validate_osmet(&osmet(vec![part(0, 100, vec![]), part(50, 200, vec![])])),
        Err(OsmetError::PastPartitionStart { cursor: 100, start: 50 })
    );
    assert_eq!(
        validate_osmet(&osmet(vec![part(0, 100, vec![phys(90, 20)])])),
        Err(OsmetError::PastPartitionEnd { cursor: 110, end: 100 })
    );
    assert_eq!(
        validate_osmet(&osmet(vec![part(0, 100, vec![phys(20, 5), phys(10, 5)])])),
        Err(OsmetError::Partition {
            index: 0,
            cause: CanonicalError::PastMappingStart { cursor: 25, start: 10 }
        })
    );
}

#[test]
fn object_paths_read_back() {
    let mut chksum = Sha256Digest([0u8; 32]);
    chksum.0[0] = 0xab;
    chksum.0[1] = 0xcd;
    chksum.0[31] = 0x9f;
    let mut buf: Vec<u8> = b"/sysroot/ostree/repo/objects/".to_vec();
    checksum_to_object_path(&chksum, &mut buf).unwrap();
    let path = String::from_utf8(buf).unwrap();
    assert_eq!(object_path_to_checksum(&path), Ok(chksum));

    let upper = format!("objects/AB/CD{}9F.file", "00".repeat(29));
    let expected = object_path_to_checksum(&path).unwrap();
    assert_eq!(object_path_to_checksum(&upper), Ok(expected));
}

#[test]
fn object_paths_refused() {
    let stem = "0".repeat(62);
    // no directory at all
    let bare = format!("{}.file", stem);
    assert!(matches!(object_path_to_checksum(&bare), Err(ObjectPathError::Malformed { .. })));
    // a directory of three digits
    let long_dir = format!("abc/{}.file", stem);
    assert!(matches!(object_path_to_checksum(&long_dir), Err(ObjectPathError::Malformed { .. })));
    // a stem one digit short
    let short = format!("ab/{}.file", "0".repeat(61));
    assert!(matches!(object_path_to_checksum(&short), Err(ObjectPathError::Malformed { .. })));
    // digits that are not hexadecimal
    let bad_dir = format!("zz/{}.file", stem);
    assert_eq!(object_path_to_checksum(&bad_dir), Err(ObjectPathError::BadHex));
    let bad_stem = format!("ab/{}g0.file", "0".repeat(60));
    assert_eq!(object_path_to_checksum(&bad_stem), Err(ObjectPathError::BadHex));
}

#[test]
fn object_path_sign_quirk() {
    // `u8::from_str_radix` takes a leading `+`, so `+f` reads as 0x0f.
    let path = format!("+f/{}.file", "0".repeat(62));
    let mut expected = Sha256Digest([0u8; 32]);
    expected.0[0] = 0x0f;
    assert_eq!(object_path_to_checksum(&path), Ok(expected));
}

#[test]
fn root_scan_objects() {
    let mut boot_files = std::collections::HashMap::new();
    boot_files.insert(42u64, "/boot/vmlinuz".to_string());
    let mut scan = RootScan::new(boot_files);
    let stem = format!("{}.file", "0".repeat(62));
    // an empty object is only counted
    assert_eq!(scan.add_object(&format!("objects/ab/{}", stem), &vec![], 0), Ok(None));
    assert_eq!(scan.empty_count, 1);
    // an object is mapped extent by extent
    let extents = vec![
        Extent { logical: 0, physical: 4096, length: 10 },
        Extent { logical: 10, physical: 8192, length: 32 },
    ];
    let found = scan.add_object(&format!("objects/ab/{}", stem), &extents, 42).unwrap();
    let mut digest = Sha256Digest([0u8; 32]);
    digest.0[0] = 0xab;
    assert_eq!(found, Some(digest));
    assert_eq!(scan.mappings.len(), 2);
    assert_eq!(scan.mappings[1].extent.physical, 8192);
    assert_eq!(scan.mappings[1].object, digest);
    assert_eq!(scan.mapped_count, 1);
    scan.boot_file_matched(42, digest);
    assert!(scan.boot_files.is_empty());
    assert_eq!(scan.mapped_boot_files, vec![("/boot/vmlinuz".to_string(), digest)]);
    // once matched, no boot file waits at that length
    assert_eq!(scan.add_object(&format!("objects/ab/{}", stem), &extents, 42), Ok(None));
    // a malformed path is refused
    assert!(matches!(
        scan.add_object("objects/xyz.file", &extents, 1),
        Err(ObjectPathError::Malformed { .. })
    ));
}
