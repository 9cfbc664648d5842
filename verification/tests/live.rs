use coreos_installer::cmdline::{
    IsoIgnitionEmbedConfig, IsoIgnitionRemoveConfig, IsoKargsModifyConfig, IsoKargsResetConfig,
    IsoNetworkEmbedConfig, IsoNetworkRemoveConfig, IsoResetConfig, PxeNetworkWrapConfig,
};
use coreos_installer::embed::{EmbedError, InitrdEmbedArea, IsoConfig, KargEmbedAreas, Region};
use coreos_installer::initrd::Initrd;
use coreos_installer::live::{
    check_unmodified, filename, initrd_network_embed, initrd_network_extract, iso_ignition_embed,
    iso_ignition_remove, iso_kargs_modify, iso_kargs_reset, iso_network_embed, iso_network_remove,
    iso_reset, modify_miniso_kargs, pxe_customize, pxe_ignition_unwrap, pxe_ignition_wrap,
    pxe_network_wrap, LiveError,
};

fn area(text: &str, length: usize) -> Vec<u8> {
    let mut v = text.as_bytes().to_vec();
    v.resize(length, b'#');
    v
}

fn iso_with_kargs(default: &str) -> IsoConfig {
    let regions = vec![
        Region::new(1000, 200, area(&format!("{}\n", default), 200)),
        Region::new(5000, 200, area(&format!("{}\n", default), 200)),
    ];
    let kargs = KargEmbedAreas::build(200, default.to_string(), regions).unwrap();
    IsoConfig::new(
        InitrdEmbedArea::new(Region::new(0, 65536, vec![0; 65536]), Initrd::new()),
        Some(kargs),
    )
}

fn modify(append: &[&str], replace: &[&str], delete: &[&str]) -> IsoKargsModifyConfig {
    IsoKargsModifyConfig {
        append: append.iter().map(|s| s.to_string()).collect(),
        delete: delete.iter().map(|s| s.to_string()).collect(),
        replace: replace.iter().map(|s| s.to_string()).collect(),
        output: None,
        input: "x.iso".into(),
    }
}

#[test]
fn kargs_modify_and_reset() {
    let mut iso = iso_with_kargs("a b=1 c");
    iso_kargs_modify(&mut iso, &modify(&["d"], &["b=1=2"], &["c"])).unwrap();
    assert_eq!(iso.kargs().unwrap(), "a b=2 d");
    assert_eq!(iso.kargs_default().unwrap(), "a b=1 c");
    assert_eq!(
        iso_kargs_modify(&mut iso, &modify(&[], &["bad"], &[])).unwrap_err(),
        LiveError::Kargs(coreos_installer::bls::KargsError::WrongReplaceFormat)
    );
    iso_kargs_reset(&mut iso, &IsoKargsResetConfig { output: None, input: "x".into() }).unwrap();
    assert_eq!(iso.kargs().unwrap(), "a b=1 c");

    let long = "x".repeat(300);
    assert!(matches!(
        iso_kargs_modify(&mut iso, &modify(&[&long], &[], &[])).unwrap_err(),
        LiveError::Embed(EmbedError::KargsTooLarge { .. })
    ));
}

#[test]
fn kargs_unsupported() {
    let mut iso = IsoConfig::new(
        InitrdEmbedArea::new(Region::new(0, 4096, vec![0; 4096]), Initrd::new()),
        None,
    );
    assert_eq!(
        iso_kargs_modify(&mut iso, &modify(&["a"], &[], &[])).unwrap_err(),
        LiveError::Embed(EmbedError::KargsUnsupported)
    );
    assert_eq!(
        iso_kargs_reset(&mut iso, &IsoKargsResetConfig { output: None, input: "x".into() })
            .unwrap_err(),
        LiveError::Embed(EmbedError::KargsUnsupported)
    );
    iso_reset(&mut iso, &IsoResetConfig { output: None, input: "x".into() }).unwrap();
}

#[test]
fn ignition_embed_remove() {
    let mut iso = iso_with_kargs("a");
    let cfg = |force| IsoIgnitionEmbedConfig {
        force,
        ignition_file: None,
        output: None,
        input: "x".into(),
    };
    iso_ignition_embed(&mut iso, &cfg(false), b"{1}".to_vec()).unwrap();
    assert_eq!(
        iso_ignition_embed(&mut iso, &cfg(false), b"{2}".to_vec()).unwrap_err(),
        LiveError::IgnitionPresent
    );
    assert_eq!(iso.ignition(), Some(&b"{1}"[..]));
    iso_ignition_embed(&mut iso, &cfg(true), b"{2}".to_vec()).unwrap();
    assert_eq!(iso.ignition(), Some(&b"{2}"[..]));
    iso_ignition_remove(&mut iso, &IsoIgnitionRemoveConfig { output: None, input: "x".into() });
    assert!(!iso.have_ignition());
}

fn keyfiles(paths: &[&str]) -> Vec<(String, Vec<u8>)> {
    paths
        .iter()
        .map(|p| (p.to_string(), p.as_bytes().to_vec()))
        .collect()
}

#[test]
fn network_embed_extract_remove() {
    let mut iso = iso_with_kargs("a");
    let cfg = |force| IsoNetworkEmbedConfig {
        keyfile: vec![],
        force,
        output: None,
        input: "x".into(),
    };
    assert_eq!(
        iso_network_embed(&mut iso, &cfg(false), false, &keyfiles(&["/tmp/a.nmconnection"]))
            .unwrap_err(),
        LiveError::NetworkUnsupported
    );
    iso_network_embed(
        &mut iso,
        &cfg(false),
        true,
        &keyfiles(&["/tmp/a.nmconnection", "dir/b.nmconnection"]),
    )
    .unwrap();
    assert!(iso.have_network());
    assert_eq!(
        iso.initrd().get("etc/coreos-firstboot-network/b.nmconnection"),
        Some(&b"dir/b.nmconnection"[..])
    );
    assert_eq!(
        iso_network_embed(&mut iso, &cfg(false), true, &keyfiles(&["c"])).unwrap_err(),
        LiveError::NetworkPresent
    );
    // forced: the old settings go away
    iso_network_embed(&mut iso, &cfg(true), true, &keyfiles(&["c"])).unwrap();
    let files = initrd_network_extract(iso.initrd()).unwrap();
    assert_eq!(files, vec![("c".to_string(), b"c".to_vec())]);

    iso_network_remove(&mut iso, &IsoNetworkRemoveConfig { output: None, input: "x".into() });
    assert!(!iso.have_network());
    assert_eq!(
        initrd_network_extract(iso.initrd()).unwrap_err(),
        LiveError::NoNetworkSettings
    );
}

#[test]
fn network_embed_errors() {
    let mut initrd = Initrd::new();
    match initrd_network_embed(&mut initrd, &keyfiles(&["a/x", "b/x"])).unwrap_err() {
        LiveError::DuplicateName { name } => assert_eq!(name, "x"),
        e => panic!("unexpected {:?}", e),
    }
    let mut initrd = Initrd::new();
    match initrd_network_embed(&mut initrd, &keyfiles(&["a/.."])).unwrap_err() {
        LiveError::MissingFilename { path } => assert_eq!(path, "a/.."),
        e => panic!("unexpected {:?}", e),
    }
    assert_eq!(filename("/a/b.c").unwrap(), "b.c");
    assert!(filename("/").is_err());
}

#[test]
fn reset() {
    let mut iso = iso_with_kargs("a b");
    iso_kargs_modify(&mut iso, &modify(&["c"], &[], &[])).unwrap();
    iso.set_ignition(b"{}".to_vec());
    iso_reset(&mut iso, &IsoResetConfig { output: None, input: "x".into() }).unwrap();
    assert!(!iso.have_ignition());
    assert!(iso.initrd().is_empty());
    assert_eq!(iso.kargs().unwrap(), "a b");
}

#[test]
fn pxe_wrap() {
    let bytes = pxe_network_wrap(
        &PxeNetworkWrapConfig { keyfile: vec![], output: None },
        &keyfiles(&["k.nmconnection"]),
    )
    .unwrap();
    assert_eq!(&bytes[0..6], b"\xfd7zXZ\x00");
}

use coreos_installer::cmdline::{CommonCustomizeConfig, IsoCustomizeConfig};
use coreos_installer::live::iso_customize;

fn customize(force: bool, append: &[&str]) -> IsoCustomizeConfig {
    IsoCustomizeConfig {
        common: CommonCustomizeConfig {
            dest_ignition: vec![],
            dest_device: None,
            dest_console: vec![],
            dest_karg_append: vec![],
            dest_karg_delete: vec![],
            network_keyfile: vec![],
            network_nmstate: vec![],
            ignition_ca: vec![],
            pre_install: vec![],
            post_install: vec![],
            installer_config: vec![],
            live_ignition: vec![],
        },
        live_karg_append: append.iter().map(|s| s.to_string()).collect(),
        live_karg_delete: vec![],
        live_karg_replace: vec![],
        force,
        output: None,
        input: "x".into(),
    }
}

#[test]
fn customize_image() {
    let mut iso = iso_with_kargs("a");
    let mut live = Initrd::new();
    live.add("config.ign", b"{}".to_vec());
    iso_customize(&mut iso, &customize(false, &["b"]), live).unwrap();
    assert!(iso.have_ignition());
    assert_eq!(iso.kargs().unwrap(), "a b");

    // already customized
    assert_eq!(
        iso_customize(&mut iso, &customize(false, &[]), Initrd::new()).unwrap_err(),
        LiveError::AlreadyCustomized
    );
    // unless forced; the kargs edit starts from the defaults
    iso_customize(&mut iso, &customize(true, &["c"]), Initrd::new()).unwrap();
    assert!(!iso.have_ignition());
    assert_eq!(iso.kargs().unwrap(), "a c");

    let mut old = IsoConfig::new(
        InitrdEmbedArea::new(Region::new(0, 4096, vec![0; 4096]), Initrd::new()),
        None,
    );
    assert_eq!(
        iso_customize(&mut old, &customize(false, &["b"]), Initrd::new()).unwrap_err(),
        LiveError::LiveKargsUnsupported
    );
}

#[test]
fn pxe_base_checks() {
    let mut base = Initrd::new();
    base.add("etc/hello", b"x".to_vec());
    assert_eq!(pxe_customize(&base), Err(LiveError::NotLiveInitrd));
    base.add("etc/coreos-live-initramfs", b"".to_vec());
    assert_eq!(pxe_customize(&base), Ok(None));
    base.add("etc/coreos/features.json", b"{}".to_vec());
    assert_eq!(pxe_customize(&base), Ok(Some(b"{}".to_vec())));
    base.add("etc/coreos-firstboot-network/eth0.nmconnection", b"[c]".to_vec());
    assert_eq!(pxe_customize(&base), Err(LiveError::AlreadyCustomized));
    base.remove("etc/coreos-firstboot-network/eth0.nmconnection");
    assert_eq!(pxe_customize(&base), Ok(Some(b"{}".to_vec())));
    base.add("config.ign", b"{}".to_vec());
    assert_eq!(pxe_customize(&base), Err(LiveError::AlreadyCustomized));
}

#[test]
fn miniso_kargs() {
    let mut iso = iso_with_kargs("a coreos.liveiso=fedora-coreos-36 b");
    assert_eq!(modify_miniso_kargs(&mut iso, None), Ok("a b".to_string()));
    assert_eq!(iso.kargs().unwrap(), "a b");

    let mut iso = iso_with_kargs("a coreos.liveiso=x b");
    assert_eq!(
        modify_miniso_kargs(&mut iso, Some("http://host/rootfs.img")),
        Ok("a b".to_string())
    );
    assert_eq!(
        iso.kargs().unwrap(),
        "a b coreos.live.rootfs_url=http://host/rootfs.img"
    );

    let mut iso = iso_with_kargs("a coreos.liveiso=x b");
    assert_eq!(
        modify_miniso_kargs(&mut iso, Some("http://a b")),
        Err(LiveError::ForbiddenWhitespace { url: "http://a b".to_string() })
    );

    let mut iso = iso_with_kargs("a b");
    assert_eq!(modify_miniso_kargs(&mut iso, None), Err(LiveError::NoLiveisoKarg));
}

#[test]
fn pxe_ignition_roundtrip() {
    let config = br#"{"ignition": {"version": "3.3.0"}}"#.to_vec();
    let archive = pxe_ignition_wrap(config.clone()).unwrap();
    let initrd = Initrd::from_reader(&*archive).unwrap();
    assert_eq!(pxe_ignition_unwrap(&initrd), Some(&config[..]));
    assert_eq!(pxe_ignition_unwrap(&Initrd::new()), None);
}

#[test]
fn unmodified_images() {
    let mut iso = iso_with_kargs("a b");
    assert_eq!(check_unmodified(&iso), Ok(()));
    iso_kargs_modify(&mut iso, &modify(&["c"], &[], &[])).unwrap();
    assert_eq!(check_unmodified(&iso), Err(LiveError::AlreadyCustomized));
    iso_kargs_reset(&mut iso, &IsoKargsResetConfig { output: None, input: "x".into() }).unwrap();
    assert_eq!(check_unmodified(&iso), Ok(()));
    iso.initrd_mut().add("config.ign", b"{}".to_vec());
    assert_eq!(check_unmodified(&iso), Err(LiveError::AlreadyCustomized));
    let bare = IsoConfig::new(
        InitrdEmbedArea::new(Region::new(0, 4096, vec![0; 4096]), Initrd::new()),
        None,
    );
    assert_eq!(check_unmodified(&bare), Err(LiveError::Embed(EmbedError::KargsUnsupported)));
}
