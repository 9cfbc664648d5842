use coreos_installer::saved::{
    detect_formatted_sector_size, matches_filters, PartitionEntry, PartitionFilter, SaveError,
    SavedPartitions,
};

fn entry(index: u32, name: &str, start: u64, end: u64) -> PartitionEntry {
    PartitionEntry {
        index,
        used: true,
        name: name.to_string(),
        starting_lba: start,
        ending_lba: end,
    }
}

fn unused(index: u32) -> PartitionEntry {
    PartitionEntry {
        index,
        used: false,
        name: String::new(),
        starting_lba: 0,
        ending_lba: 0,
    }
}

#[test]
fn partition_filters() {
    let p = entry(5, "bovik", 100, 200);
    assert!(matches_filters(5, &p, &[PartitionFilter::Index(Some(5), None)]));
    assert!(matches_filters(5, &p, &[PartitionFilter::Index(None, Some(5))]));
    assert!(!matches_filters(5, &p, &[PartitionFilter::Index(Some(6), None)]));
    assert!(!matches_filters(5, &p, &[PartitionFilter::Index(None, Some(4))]));
    assert!(matches_filters(5, &p, &[PartitionFilter::Label("bo*".into())]));
    assert!(!matches_filters(5, &p, &[PartitionFilter::Label("x*".into())]));
    assert!(matches_filters(
        5,
        &p,
        &[
            PartitionFilter::Label("x*".into()),
            PartitionFilter::Index(Some(1), Some(9))
        ]
    ));
    assert!(!matches_filters(5, &unused(5), &[PartitionFilter::Index(None, None)]));
    assert!(!matches_filters(5, &p, &[]));
}

#[test]
fn saving_and_merging() {
    let table = vec![
        entry(1, "boot", 2048, 4095),
        entry(2, "root", 4096, 9999),
        unused(3),
        entry(4, "data", 20000, 29999),
        entry(5, "bovik", 10000, 19999),
    ];
    let saved = SavedPartitions::new(512, &table, &[PartitionFilter::Index(Some(4), None)]);
    assert!(saved.is_saved());
    assert_eq!(
        saved.get_offset(),
        Ok(Some((10000 * 512, "partition 5 (\"bovik\")".to_string())))
    );

    // the image's partitions end before the first kept one
    let image = vec![entry(1, "boot", 2048, 4095), entry(2, "root", 4096, 8191), unused(3)];
    assert_eq!(saved.merge(&image), Ok(vec![4, 5]));
    let image = vec![entry(1, "boot", 2048, 4095), entry(6, "root", 4096, 8191)];
    assert_eq!(saved.merge(&image), Ok(vec![7, 8]));

    // one ends inside the first kept one
    let image = vec![entry(1, "boot", 2048, 4095), entry(2, "root", 4096, 10000)];
    assert_eq!(
        saved.merge(&image),
        Err(SaveError::Overlap {
            disk_index: 2,
            disk_name: "root".into(),
            saved_index: 5,
            saved_name: "bovik".into()
        })
    );

    let none = SavedPartitions::new(512, &table, &[]);
    assert!(!none.is_saved());
    assert_eq!(none.get_offset(), Ok(None));
    assert_eq!(none.merge(&image), Ok(vec![]));

    let huge = SavedPartitions::new(4096, &[entry(1, "x", u64::MAX / 2, u64::MAX)], &[
        PartitionFilter::Label("*".into()),
    ]);
    assert_eq!(huge.get_offset(), Err(SaveError::OffsetOverflow));
}

#[test]
fn formatted_sector_size() {
    let mut buf = vec![0u8; 8192];
    assert_eq!(detect_formatted_sector_size(&buf), None);
    buf[512..520].copy_from_slice(b"EFI PART");
    assert_eq!(detect_formatted_sector_size(&buf), Some(512));
    let mut buf = vec![0u8; 8192];
    buf[4096..4104].copy_from_slice(b"EFI PART");
    assert_eq!(detect_formatted_sector_size(&buf), Some(4096));
    assert_eq!(detect_formatted_sector_size(&buf[..4100]), None);
}
