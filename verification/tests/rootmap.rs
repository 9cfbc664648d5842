use coreos_installer::rootmap::{
    check_root_binding, crypttab_device_has_netdev, device_kind, grub_bootuuid_dropin,
    luks_kargs, md_uuid, needs_boot_karg, push_root_kargs, raid_kargs, split_mdadm_line,
    DeviceKind, RootmapError,
};

#[test]
fn mdadm_lines() {
    assert_eq!(
        split_mdadm_line("MD_LEVEL=raid1=x"),
        Ok(("MD_LEVEL".to_string(), "raid1=x".to_string()))
    );
    assert_eq!(
        split_mdadm_line("garbage"),
        Err(RootmapError::InvalidMdadmLine { line: "garbage".to_string() })
    );
    let out = "MD_LEVEL=raid1\nMD_DEVICES=2\nMD_UUID=abcd:ef01\n";
    assert_eq!(md_uuid(out), Ok("abcd:ef01".to_string()));
    assert_eq!(
        raid_kargs(out),
        Ok(vec!["rd.md.uuid=abcd:ef01".to_string()])
    );
    // the last value wins, and a line without `=` fails the whole report
    assert_eq!(md_uuid("MD_UUID=a\nMD_UUID=b"), Ok("b".to_string()));
    assert_eq!(md_uuid("MD_LEVEL=raid1\n"), Err(RootmapError::MissingMdUuid));
    assert_eq!(
        md_uuid("MD_UUID=a\nbad\n"),
        Err(RootmapError::InvalidMdadmLine { line: "bad".to_string() })
    );
}

#[test]
fn crypttab_netdev() {
    let tab = "# comment\n\n  luks-root UUID=1234 none luks,_netdev,discard\nluks-data /dev/sdb none\n";
    assert_eq!(crypttab_device_has_netdev(tab, "luks-root"), Ok(true));
    assert_eq!(crypttab_device_has_netdev(tab, "luks-data"), Ok(false));
    assert_eq!(
        crypttab_device_has_netdev(tab, "luks-other"),
        Err(RootmapError::NotInCrypttab { name: "luks-other".to_string() })
    );
    assert_eq!(
        crypttab_device_has_netdev("lonely\nluks-root x none _netdev\n", "luks-root"),
        Err(RootmapError::CrypttabLine { line: "lonely".to_string() })
    );
    assert_eq!(
        crypttab_device_has_netdev("luks-root x none _netdevx\n", "luks-root"),
        Ok(false)
    );
}

#[test]
fn luks_and_root_kargs() {
    assert_eq!(
        luks_kargs("u-1", "root", false),
        vec!["rd.luks.name=u-1=root".to_string()]
    );
    assert_eq!(
        luks_kargs("u-1", "root", true),
        vec![
            "rd.luks.name=u-1=root".to_string(),
            "rd.neednet=1".to_string(),
            "rd.luks.options=_netdev".to_string()
        ]
    );
    let mut kargs = vec!["rd.md.uuid=x".to_string()];
    push_root_kargs(&mut kargs, "abc", "  prjquota \n");
    assert_eq!(
        kargs,
        vec!["rd.md.uuid=x", "root=UUID=abc", "rw", "rootflags=prjquota"]
    );
    let mut kargs = Vec::new();
    push_root_kargs(&mut kargs, "abc", " \n");
    assert_eq!(kargs, vec!["root=UUID=abc", "rw"]);
}

#[test]
fn device_kinds() {
    assert_eq!(device_kind("raid1"), Ok(DeviceKind::Raid));
    assert_eq!(device_kind("linear"), Ok(DeviceKind::Raid));
    assert_eq!(device_kind("crypt"), Ok(DeviceKind::Crypt));
    assert_eq!(device_kind("part"), Ok(DeviceKind::Plain));
    assert_eq!(device_kind("mpath"), Ok(DeviceKind::Plain));
    assert_eq!(
        device_kind("lvm"),
        Err(RootmapError::UnknownDeviceType { kind: "lvm".to_string() })
    );
}

#[test]
fn boot_binding() {
    assert!(needs_boot_karg("root=UUID=x rw"));
    assert!(!needs_boot_karg("boot=UUID=y root=UUID=x"));
    assert!(!needs_boot_karg("root=UUID=x boot=UUID=y"));
    assert!(needs_boot_karg("root=UUID=x reboot=cold"));
    assert_eq!(check_root_binding("abc\n", "abc"), Ok(()));
    assert_eq!(
        check_root_binding(" def\n", "abc"),
        Err(RootmapError::BootAlreadyBound { uuid: "def".to_string() })
    );
    assert_eq!(grub_bootuuid_dropin("u"), "set BOOT_UUID=\"u\"\n");
}
