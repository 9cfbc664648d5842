use coreos_installer::blockdev::{
    field, lsblk, split_lsblk_line, BlockdevError, Disk, Mount, MountError, PartTableKind,
    PartTableKpartx, Partition,
};
use std::collections::HashMap;

fn fields(line: &str) -> HashMap<String, String> {
    split_lsblk_line(line).into_iter().collect()
}

fn map(pairs: &[(&str, &str)]) -> HashMap<String, String> {
    pairs
        .iter()
        .map(|(k, v)| (k.to_string(), v.to_string()))
        .collect()
}

#[test]
fn lsblk_split() {
    assert_eq!(fields(r#"NAME="sda" LABEL="" FSTYPE="""#), map(&[("NAME", "sda")]));
    assert_eq!(
        fields(r#"NAME="sda1" LABEL="" FSTYPE="vfat""#),
        map(&[("NAME", "sda1"), ("FSTYPE", "vfat")])
    );
    assert_eq!(
        fields(r#"NAME="sda2" LABEL="boot" FSTYPE="ext4""#),
        map(&[("NAME", "sda2"), ("LABEL", "boot"), ("FSTYPE", "ext4")])
    );
    assert_eq!(
        fields(r#"NAME="sda3" LABEL="foo=\x22bar\x22 baz" FSTYPE="ext4""#),
        map(&[
            ("NAME", "sda3"),
            // for now, we don't care about resolving lsblk's hex escapes,
            // so we just pass them through
            ("LABEL", r#"foo=\x22bar\x22 baz"#),
            ("FSTYPE", "ext4"),
        ])
    );
}

#[test]
fn lsblk_pairs_in_order() {
    let pairs = split_lsblk_line(r#"NAME="/dev/vda" MOUNTPOINT="/" X="1" X="2""#);
    assert_eq!(
        pairs,
        vec![
            ("NAME".to_string(), "/dev/vda".to_string()),
            ("MOUNTPOINT".to_string(), "/".to_string()),
            ("X".to_string(), "1".to_string()),
            ("X".to_string(), "2".to_string()),
        ]
    );
    assert_eq!(fields(r#"X="1" X="2""#), map(&[("X", "2")]));
    assert!(split_lsblk_line("no pairs here").is_empty());
    assert!(split_lsblk_line(r#"NAME="unterminated"#).is_empty());
}

const LSBLK: &str = "NAME=\"/dev/sda\" LABEL=\"\" FSTYPE=\"\" TYPE=\"disk\" MOUNTPOINT=\"\" UUID=\"\"\nNAME=\"/dev/sda1\" LABEL=\"EFI-SYSTEM\" FSTYPE=\"vfat\" TYPE=\"part\" MOUNTPOINT=\"/boot/efi\" UUID=\"AB12\"\nNAME=\"/dev/sda2\" LABEL=\"boot\" FSTYPE=\"ext4\" TYPE=\"part\" MOUNTPOINT=\"\" UUID=\"1-2\"\nNAME=\"/dev/sda3\" LABEL=\"\" FSTYPE=\"swap\" TYPE=\"part\" MOUNTPOINT=\"[SWAP]\" UUID=\"3-4\"\nNAME=\"/dev/mapper/root\" LABEL=\"root\" FSTYPE=\"xfs\" TYPE=\"crypt\" MOUNTPOINT=\"/\" UUID=\"5-6\"\nTYPE=\"part\"\n";

fn part(path: &str, label: Option<&str>, fstype: Option<&str>, mountpoint: Option<&str>, swap: bool) -> Partition {
    Partition {
        path: path.to_string(),
        label: label.map(|s| s.to_string()),
        fstype: fstype.map(|s| s.to_string()),
        parent: "/dev/sda".to_string(),
        mountpoint: mountpoint.map(|s| s.to_string()),
        swap,
    }
}

#[test]
fn disk_partitions() {
    let devices = lsblk(LSBLK);
    assert_eq!(devices.len(), 6);
    let disk = Disk::new("/dev/sda");
    let parts = disk.partitions(&devices, false);
    assert_eq!(
        parts,
        vec![
            part("/dev/sda1", Some("EFI-SYSTEM"), Some("vfat"), Some("/boot/efi"), false),
            part("/dev/sda2", Some("boot"), Some("ext4"), None, false),
            part("/dev/sda3", None, Some("swap"), None, true),
        ]
    );
    // with holders, the LUKS device that holds a partition counts too
    let with_holders = disk.partitions(&devices, true);
    assert_eq!(with_holders.len(), 4);
    assert_eq!(
        with_holders[3],
        part("/dev/mapper/root", Some("root"), Some("xfs"), Some("/"), false)
    );
    // busy: mounted, swap, or held
    assert!(parts[0].is_busy(&vec![]));
    assert!(!parts[1].is_busy(&vec![]));
    assert!(parts[1].is_busy(&vec!["/dev/dm-0".to_string()]));
    assert!(parts[2].is_busy(&vec![]));
}

#[test]
fn partitions_by_label() {
    let disk = Disk::new("/dev/sda");
    let parts = disk.partitions(&lsblk(LSBLK), true);
    assert_eq!(
        disk.partition_by_label(&parts, "boot"),
        Ok(("/dev/sda2".to_string(), "ext4".to_string()))
    );
    assert_eq!(
        disk.partition_by_label(&parts, "root"),
        Ok(("/dev/mapper/root".to_string(), "xfs".to_string()))
    );
    // the partition without a label has the empty one
    assert_eq!(
        disk.partition_by_label(&parts, ""),
        Ok(("/dev/sda3".to_string(), "swap".to_string()))
    );
    assert_eq!(
        disk.partition_by_label(&parts, "data"),
        Err(BlockdevError::NoLabel { label: "data".to_string(), disk: "/dev/sda".to_string() })
    );
    let mut twice = parts.clone();
    twice.push(part("/dev/sda4", Some("boot"), Some("ext4"), None, false));
    assert_eq!(
        disk.partition_by_label(&twice, "boot"),
        Err(BlockdevError::MultipleLabels { label: "boot".to_string(), disk: "/dev/sda".to_string() })
    );
    let untyped = vec![part("/dev/sda1", Some("boot"), None, None, false)];
    assert_eq!(
        disk.partition_by_label(&untyped, "boot"),
        Err(BlockdevError::NoFsType { label: "boot".to_string(), disk: "/dev/sda".to_string() })
    );
    assert_eq!(
        disk.partition_by_label(&vec![], "boot"),
        Err(BlockdevError::NoPartitions { disk: "/dev/sda".to_string() })
    );
}

#[test]
fn partition_offsets() {
    assert_eq!(Partition::offsets(2048, 1024), Ok((1048576, 1572864)));
    assert_eq!(Partition::offsets(0, 0), Ok((0, 0)));
    assert_eq!(Partition::offsets(u64::MAX / 256, 1), Err(BlockdevError::StartOffsetOverflow));
    assert_eq!(Partition::offsets(1, u64::MAX / 256), Err(BlockdevError::SizeOverflow));
    assert_eq!(
        Partition::offsets(u64::MAX / 1000, u64::MAX / 1000),
        Err(BlockdevError::EndOffsetOverflow)
    );
}

#[test]
fn lsblk_fields() {
    let pairs = split_lsblk_line(r#"NAME="a" TYPE="part" NAME="b""#);
    assert_eq!(field(&pairs, "NAME"), Some("b".to_string()));
    assert_eq!(field(&pairs, "TYPE"), Some("part".to_string()));
    assert_eq!(field(&pairs, "LABEL"), None);
    assert!(Disk::new("/dev/mapper/x").is_dm_device());
    assert!(Disk::new("/dev/dm-3").is_dm_device());
    assert!(!Disk::new("/dev/sda").is_dm_device());
}

const MOUNTS: &str = "sysfs /sys sysfs rw,nosuid,nodev,noexec,relatime 0 0\n\
/dev/sda4 /sysroot xfs ro,relatime,prjquota 0 0\n\
/dev/sda3 /boot ext4 ro,relatime 0 0\n";

#[test]
fn existing_mounts() {
    let boot = Mount::from_existing(MOUNTS, "/boot").unwrap();
    assert_eq!(boot.device(), "/dev/sda3");
    assert_eq!(boot.mountpoint(), "/boot");
    assert!(!boot.owned());
    assert_eq!(
        Mount::from_existing(MOUNTS, "/var").unwrap_err(),
        MountError::NotFound { path: "/var".to_string() }
    );
    let bad = "sysfs /sys sysfs rw 0\n/dev/sda3 /boot ext4 ro 0 0\n";
    assert_eq!(
        Mount::from_existing(bad, "/boot").unwrap_err(),
        MountError::InvalidLine { line: "sysfs /sys sysfs rw 0".to_string() }
    );
    // lines after the match are not looked at
    let tail = "/dev/sda3 /boot ext4 ro 0 0\ngarbage\n";
    assert_eq!(Mount::from_existing(tail, "/boot").unwrap().device(), "/dev/sda3");

    let m = Mount::mounted("/dev/sda2", "/tmp/coreos-installer-x");
    assert!(m.owned());
    assert_eq!(m.get_partition_offsets(2048, 2048), Ok((1048576, 2097152)));
    let info = split_lsblk_line(r#"NAME="/dev/sda2" UUID="96d15588-3596-4b3c-adca-a2ff7279ea63""#);
    assert_eq!(
        m.get_filesystem_uuid(&info),
        Ok("96d15588-3596-4b3c-adca-a2ff7279ea63".to_string())
    );
    let no_uuid = split_lsblk_line(r#"NAME="/dev/sda2""#);
    assert_eq!(
        m.get_filesystem_uuid(&no_uuid),
        Err(MountError::NoUuid { device: "/dev/sda2".to_string() })
    );
}

#[test]
fn kpartx_devices() {
    let entries: Vec<String> = vec!["control".into(), "loop0p".into(), "loop1p2x".into()];
    assert_eq!(PartTableKpartx::already_set_up("/dev/loop0", &entries), Ok(false));
    assert_eq!(PartTableKpartx::already_set_up("/dev/loop1", &entries), Ok(false));
    let entries: Vec<String> = vec!["control".into(), "loop0p1".into()];
    assert_eq!(PartTableKpartx::already_set_up("/dev/loop0", &entries), Ok(true));
    assert_eq!(PartTableKpartx::already_set_up("/dev/loop", &entries), Ok(false));
    assert_eq!(
        PartTableKpartx::already_set_up("/", &entries),
        Err(MountError::NoFileName { path: "/".to_string() })
    );
    let table = PartTableKpartx::new("/dev/loop0", &entries).unwrap();
    assert!(!table.need_teardown);
    let table = PartTableKpartx::new("/dev/loop7", &entries).unwrap();
    assert!(table.need_teardown);
    assert_eq!(table.path, "/dev/loop7");
}

#[test]
fn partition_table_kinds() {
    assert_eq!(Disk::new("/dev/sda").get_partition_table(), PartTableKind::Kernel);
    assert_eq!(Disk::new("/dev/mapper/mpatha").get_partition_table(), PartTableKind::Kpartx);
}
