use coreos_installer::iso9660::{Address, File};
use coreos_installer::miniso::{Data, Header, MinisoError, Table, TableEntry, HEADER_MAGIC, HEADER_VERSION};

#[test]
fn header_validate() {
    let h = Header::new("0.1.0");
    assert_eq!(h.magic, *b"MINISO\0\0");
    assert_eq!(h.magic, HEADER_MAGIC);
    assert!(h.validate().is_ok());
    let mut bad = h.clone();
    bad.magic[0] = b'X';
    assert_eq!(bad.validate().unwrap_err(), MinisoError::NotMiniso);
    let mut bad = h.clone();
    bad.version = HEADER_VERSION + 1;
    assert_eq!(
        bad.validate().unwrap_err(),
        MinisoError::IncompatibleVersion { found: 2, created_by: "0.1.0".to_string() }
    );
}

fn entry(sector: u32, length: u32) -> TableEntry {
    TableEntry { minimal: Address(sector), full: Address(sector + 100), length }
}

#[test]
fn table_validate() {
    assert_eq!(
        Table { entries: vec![] }.validate().unwrap_err(),
        MinisoError::EmptyTable
    );
    assert!(Table { entries: vec![entry(1, 2048), entry(2, 10)] }.validate().is_ok());
    assert_eq!(
        Table { entries: vec![entry(1, 2049), entry(2, 10)] }.validate().unwrap_err(),
        MinisoError::Overlap { first: 2048, second: 4096 }
    );
}

fn file(name: &str, sector: u32, length: u32) -> (String, File) {
    (
        format!("/{}", name),
        File { name: name.to_string(), address: Address(sector), length },
    )
}

/// A minimal ISO of eight sectors, and a full ISO of twenty that holds
/// its files A (sector 2, 3000 bytes) and B (sector 5, 100 bytes) at
/// sectors 10 and 15.
fn isos() -> (Vec<u8>, Vec<u8>, Vec<(String, File)>, Vec<(String, File)>) {
    let miniso: Vec<u8> = (0..8 * 2048).map(|i| (i % 251) as u8).collect();
    let mut full = vec![0xaau8; 20 * 2048];
    full[10 * 2048..10 * 2048 + 3000].copy_from_slice(&miniso[2 * 2048..2 * 2048 + 3000]);
    full[15 * 2048..15 * 2048 + 100].copy_from_slice(&miniso[5 * 2048..5 * 2048 + 100]);
    let minimal_files = vec![
        file("B", 5, 100),
        file("A", 2, 3000),
        file("C", 6, 0),
        file("B2", 5, 100),
    ];
    let full_files = vec![
        file("A", 10, 3000),
        file("B", 15, 100),
        file("C", 16, 0),
        file("B2", 15, 100),
        file("D", 17, 5),
    ];
    (miniso, full, full_files, minimal_files)
}

#[test]
fn table_from_files() {
    let (_, _, full_files, minimal_files) = isos();
    let (table, extra) = Table::new(&full_files, &minimal_files).unwrap();
    assert_eq!(
        table.entries,
        vec![
            TableEntry { minimal: Address(2), full: Address(10), length: 3000 },
            TableEntry { minimal: Address(5), full: Address(15), length: 100 },
        ]
    );
    // the empty file and the hard link are left out
    assert_eq!(extra, 2);

    let missing = &full_files[..3];
    assert_eq!(
        Table::new(missing, &minimal_files).unwrap_err(),
        MinisoError::MissingFile { path: "/B2".to_string() }
    );
    let mut longer = full_files.clone();
    longer[0].1.length = 3001;
    assert_eq!(
        Table::new(&longer, &minimal_files).unwrap_err(),
        MinisoError::LengthMismatch { path: "/A".to_string() }
    );
    let empty_only = vec![file("C", 6, 0)];
    assert_eq!(
        Table::new(&full_files, &empty_only).unwrap_err(),
        MinisoError::EmptyTable
    );
}

#[test]
fn pack_and_extract() {
    let (miniso, full, full_files, minimal_files) = isos();
    let (data, matches, skipped, written, compressed) =
        Data::xzpack(&miniso, &full_files, &minimal_files).unwrap();
    assert_eq!(matches, 4);
    assert_eq!(skipped, 3100);
    assert_eq!(written, 8 * 2048 - 3100);
    assert_eq!(compressed, data.xzpacked.len() as u64);
    assert_eq!(data.table.entries.len(), 2);
    assert_eq!(data.unxzpack(&full).unwrap(), miniso);
}

#[test]
fn extract_refusals() {
    let (miniso, full, full_files, minimal_files) = isos();
    let (data, _, _, _, _) = Data::xzpack(&miniso, &full_files, &minimal_files).unwrap();

    let mut changed = full.clone();
    changed[10 * 2048] ^= 1;
    match data.unxzpack(&changed) {
        Err(MinisoError::WrongDigest { expected, found }) => {
            assert_eq!(expected, data.digest.0.to_vec());
            assert_ne!(expected, found);
            assert_eq!(found.len(), 32);
        }
        other => panic!("unexpected {:?}", other),
    }

    assert_eq!(
        data.unxzpack(&full[..15 * 2048 + 50]),
        Err(MinisoError::FullTooShort { offset: 15 * 2048 })
    );

    let mut garbled = data.clone();
    garbled.xzpacked = vec![1, 2, 3, 4];
    assert_eq!(garbled.unxzpack(&full), Err(MinisoError::Decompress));

    // a table whose last file lies past the packed bytes
    let mut past = data.clone();
    past.table.entries.push(TableEntry { minimal: Address(100), full: Address(0), length: 1 });
    assert_eq!(
        past.unxzpack(&full),
        Err(MinisoError::PackedTooShort { offset: 5 * 2048 + 100 })
    );
}

#[test]
fn pack_refuses_file_past_end() {
    let (miniso, _, full_files, minimal_files) = isos();
    assert_eq!(
        Data::xzpack(&miniso[..5 * 2048 + 50], &full_files, &minimal_files).unwrap_err(),
        MinisoError::PastEnd { offset: 5 * 2048 }
    );
}
