use coreos_installer::cmdline::CommonCustomizeConfig;
use coreos_installer::customize::{
    make_resource, CustomizeFiles, DestConfig, Ignition, LiveInitrd, OsFeatures,
};
use coreos_installer::live::LiveError;
use std::io::Read;

fn unpack_resource(source: &str) -> Vec<u8> {
    let b64 = source.strip_prefix("data:;base64,").unwrap();
    let gz = base64::Engine::decode(&base64::engine::general_purpose::STANDARD, b64).unwrap();
    let mut out = Vec::new();
    flate2::read::GzDecoder::new(&gz[..])
        .read_to_end(&mut out)
        .unwrap();
    out
}

#[test]
fn duplicate_path() {
    let mut ignition = Ignition::default();
    ignition.add_file("/a/b".into(), &[], 0o755).unwrap();
    ignition.add_file("/a/b".into(), &[], 0o755).unwrap_err();
}

#[test]
fn resources_and_units() {
    let r = make_resource(b"hello world").unwrap();
    assert_eq!(r.compression, "gzip");
    assert_eq!(unpack_resource(&r.source), b"hello world");

    let mut ign = Ignition::new();
    assert!(!ign.have_path("/etc/x"));
    ign.add_file("/etc/x".into(), b"x", 0o644).unwrap();
    assert!(ign.have_path("/etc/x"));
    assert_eq!(
        ign.add_file("/etc/x".into(), b"y", 0o644),
        Err(LiveError::DuplicatePath { path: "/etc/x".into() })
    );
    ign.add_unit("a.service".into(), "[Unit]".into(), true).unwrap();
    assert_eq!(
        ign.add_unit("a.service".into(), "[Unit]".into(), false),
        Err(LiveError::DuplicateUnit { name: "a.service".into() })
    );
    ign.add_ca(b"CA").unwrap();
    ign.merge_config(b"{}").unwrap();
    assert_eq!(ign.files.len(), 1);
    assert_eq!(ign.files[0].mode, 0o644);
    assert_eq!(unpack_resource(&ign.files[0].contents.source), b"x");
    assert_eq!(ign.units.len(), 1);
    assert_eq!(unpack_resource(&ign.cas[0].source), b"CA");
    assert_eq!(unpack_resource(&ign.merges[0].source), b"{}");
}

fn common() -> CommonCustomizeConfig {
    CommonCustomizeConfig {
        dest_ignition: vec![],
        dest_device: None,
        dest_console: vec![],
        dest_karg_append: vec![],
        dest_karg_delete: vec![],
        network_keyfile: vec![],
        network_nmstate: vec![],
        ignition_ca: vec![],
        pre_install: vec![],
        post_install: vec![],
        installer_config: vec![],
        live_ignition: vec![],
    }
}

fn files() -> CustomizeFiles {
    CustomizeFiles {
        dest_ignition: vec![],
        network_keyfile: vec![],
        ignition_ca: vec![],
        pre_install: vec![],
        post_install: vec![],
        installer_config: vec![],
        live_ignition: vec![],
    }
}

fn all_features() -> OsFeatures {
    OsFeatures { installer_config: true, live_initrd_network: true }
}

#[test]
fn customize_features_refused() {
    let mut f = files();
    f.network_keyfile.push(("/tmp/eth0.nmconnection".into(), b"[c]".to_vec()));
    assert_eq!(
        LiveInitrd::from_common(&common(), OsFeatures::default(), &f).err(),
        Some(LiveError::NetworkUnsupported)
    );
    let mut f = files();
    f.installer_config.push(("/tmp/a.yaml".into(), b"x: y".to_vec()));
    assert_eq!(
        LiveInitrd::from_common(&common(), OsFeatures::default(), &f).err(),
        Some(LiveError::InstallerConfigUnsupported)
    );
    let mut f = files();
    f.network_keyfile.push(("/a/eth0".into(), b"1".to_vec()));
    f.network_keyfile.push(("/b/eth0".into(), b"2".to_vec()));
    assert_eq!(
        LiveInitrd::from_common(&common(), all_features(), &f).err(),
        Some(LiveError::DuplicateKeyfile { name: "eth0".into() })
    );
}

#[test]
fn customize_hooks_and_installer() {
    let mut c = common();
    c.dest_device = Some("/dev/sda".into());
    c.dest_karg_append = vec!["a=1".into()];
    let mut f = files();
    f.pre_install.push(("/tmp/hook.sh".into(), b"#!/bin/sh\n".to_vec()));
    f.installer_config.push(("/tmp/x.yaml".into(), b"k: v\n".to_vec()));
    f.installer_config.push(("/tmp/y.yaml".into(), b"k: w\n".to_vec()));
    f.network_keyfile.push(("/tmp/eth0.nmconnection".into(), b"[c]".to_vec()));
    let mut live = LiveInitrd::from_common(&c, all_features(), &f).unwrap();

    let ign = live.live();
    let paths: Vec<&str> = ign.files.iter().map(|f| f.path.as_str()).collect();
    assert_eq!(
        paths,
        vec![
            "/usr/local/bin/pre-install-hook.sh",
            "/etc/coreos/installer.d/0000-x.yaml",
            "/etc/coreos/installer.d/0001-y.yaml",
        ]
    );
    assert_eq!(ign.files[0].mode, 0o700);
    assert_eq!(ign.units[0].name, "pre-install-hook.sh.service");
    assert!(ign.units[0].contents.contains("Description=Pre-Install Script (hook.sh)"));
    assert!(ign.units[0].contents.contains("ExecStart=/usr/local/bin/pre-install-hook.sh"));
    assert!(ign.units[0].contents.ends_with("RequiredBy=coreos-installer.service"));

    assert!(matches!(live.prepare_dest(), Ok(DestConfig::NoDest)));
    assert!(live.installer_runs());
    assert_eq!(live.installer_device().map(|s| s.as_str()), Some("/dev/sda"));
    let settings = live.take_installer().unwrap();
    assert_eq!(settings.dest_device.as_deref(), Some("/dev/sda"));
    assert_eq!(settings.append_karg, vec!["a=1".to_string()]);
    assert!(settings.copy_network);
    live.installer_config_bytes("customize.yaml", b"dest-device: /dev/sda\n")
        .unwrap();
    assert_eq!(
        live.live().files[3].path,
        "/etc/coreos/installer.d/0002-customize.yaml"
    );
    let initrd = live.into_initrd(b"{}".to_vec());
    assert_eq!(initrd.get("config.ign"), Some(&b"{}\n"[..]));
    assert_eq!(
        initrd.get("etc/coreos-firstboot-network/eth0.nmconnection"),
        Some(&b"[c]"[..])
    );
}

#[test]
fn customize_dest_configs() {
    // one user config passes through as it is
    let mut f = files();
    f.dest_ignition.push(br#"{"ignition":{"version":"3.3.0"}}"#.to_vec());
    let mut live = LiveInitrd::from_common(&common(), all_features(), &f).unwrap();
    match live.prepare_dest().unwrap() {
        DestConfig::Ready(b) => assert_eq!(b, b"{\"ignition\":{\"version\":\"3.3.0\"}}\n".to_vec()),
        _ => panic!("expected the user's config"),
    }
    live.embed_dest(b"{}\n").unwrap();
    assert_eq!(live.live().files[0].path, "/etc/coreos/dest.ign");
    let settings = live.take_installer().unwrap();
    assert_eq!(settings.ignition_file.as_deref(), Some("/etc/coreos/dest.ign"));

    // a CA makes a config of our own, which merges the user's
    let mut f = files();
    f.dest_ignition.push(b"{\"a\":1}".to_vec());
    f.ignition_ca.push(b"CA".to_vec());
    let mut live = LiveInitrd::from_common(&common(), all_features(), &f).unwrap();
    assert_eq!(live.live().cas.len(), 1);
    match live.prepare_dest().unwrap() {
        DestConfig::Config(d) => {
            assert_eq!(d.cas.len(), 1);
            assert_eq!(unpack_resource(&d.cas[0].source), b"CA");
            assert_eq!(d.merges.len(), 1);
            assert_eq!(unpack_resource(&d.merges[0].source), b"{\"a\":1}");
        }
        _ => panic!("expected a merged config"),
    }
}
