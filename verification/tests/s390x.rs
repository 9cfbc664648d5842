use coreos_installer::s390x::{fdasd_config, TooManyPartitions};
use coreos_installer::s390x::{
    dasd_try_get_sector_size, dasd_type, extract_firstboot_kargs, prepare_dasd, DasdType,
};

#[test]
fn test_extract_firstboot_kargs() {
    assert_eq!(extract_firstboot_kargs("").unwrap(), None);
    assert_eq!(extract_firstboot_kargs("\n").unwrap(), None);
    assert_eq!(
        extract_firstboot_kargs("set ignition_network_kcmdline=\"\"").unwrap(),
        None
    );
    assert_eq!(
        extract_firstboot_kargs("set ignition_network_kcmdline=\"foobar\"").unwrap(),
        Some("foobar".into())
    );
    assert_eq!(
        extract_firstboot_kargs("\nset ignition_network_kcmdline=\"foobar\"\n\n").unwrap(),
        Some("foobar".into())
    );
    assert_eq!(
        extract_firstboot_kargs("set ignition_network_kcmdline=\"foo bar\"").unwrap(),
        Some("foo bar".into())
    );
    assert!(extract_firstboot_kargs("set ignition_network_kcmdline=\"\n\"").is_err());
    assert!(extract_firstboot_kargs(
        "set ignition_network_kcmdline=\"\"\nset ignition_network_kcmdline=\"\""
    )
    .is_err());
    assert!(extract_firstboot_kargs("stuff\nset ignition_network_kcmdline=\"\"").is_err());
    assert!(extract_firstboot_kargs("set ignition_network_kcmdline=\"\"\nstuff").is_err());
    assert!(extract_firstboot_kargs("set ignition_network_kcmdline=\"foo\nbar\"").is_err());
    assert!(extract_firstboot_kargs("foobar").is_err());
}

#[test]
fn dasd_kinds() {
    assert_eq!(dasd_type("vda", ""), DasdType::Virt);
    assert_eq!(dasd_type("dasda", "3390/0c\n"), DasdType::Eckd);
    assert_eq!(dasd_type("dasdb", "9336/10\n"), DasdType::Fba);
    assert!(prepare_dasd(DasdType::Eckd));
    assert!(!prepare_dasd(DasdType::Fba));
    assert!(!prepare_dasd(DasdType::Virt));
    assert_eq!(dasd_try_get_sector_size(DasdType::Eckd, false), Some(4096));
    assert_eq!(dasd_try_get_sector_size(DasdType::Eckd, true), None);
    assert_eq!(dasd_try_get_sector_size(DasdType::Fba, false), None);
}

use coreos_installer::s390x::eckd_partition_ranges;

#[test]
fn eckd_layout() {
    // 4096-byte blocks, 12 blocks per track
    let (ranges, entries) = eckd_partition_ranges(4096, 12, &[(2048, 4095), (4096, 4096), (8192, 9000)]);
    assert_eq!(ranges.len(), 3);
    assert_eq!(ranges[0].in_offset, 2048 * 4096);
    assert_eq!(ranges[0].out_offset, 2 * 12 * 4096);
    assert_eq!(ranges[0].length, 2048 * 4096);
    // 2048 blocks take 171 tracks: 2..=172
    assert_eq!(entries[0], "[2, 172, native]");
    assert_eq!(ranges[1].out_offset, 173 * 12 * 4096);
    assert_eq!(ranges[1].length, 4096);
    assert_eq!(entries[1], "[173, 173, native]");
    assert_eq!(ranges[2].out_offset, 174 * 12 * 4096);
    assert_eq!(entries[2], "[174, last, native]");
}

#[test]
fn fdasd_configs() {
    let entries: Vec<String> = vec!["[2, 10, native]".into(), "[11, last, native]".into()];
    assert_eq!(
        fdasd_config(&entries),
        Ok("[2, 10, native]\n[11, last, native]\n".to_string())
    );
    let four: Vec<String> = (0..4).map(|i| format!("[{}, last, native]", i)).collect();
    assert_eq!(fdasd_config(&four), Err(TooManyPartitions { count: 4 }));
}
