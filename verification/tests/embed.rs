use coreos_installer::embed::{
    check_karg_info, pad_karg_info, parse_karg_header, EmbedError, InitrdEmbedArea, IsoConfig, KargEmbedAreas,
    Region,
};
use coreos_installer::initrd::Initrd;

fn header(length: u64, default: u64, offsets: &[u64]) -> Vec<u8> {
    let mut h = b"coreKarg".to_vec();
    h.extend_from_slice(&length.to_le_bytes());
    h.extend_from_slice(&default.to_le_bytes());
    for i in 0..6 {
        let o = offsets.get(i).copied().unwrap_or(0);
        h.extend_from_slice(&o.to_le_bytes());
    }
    h
}

fn area(text: &str, length: usize) -> Vec<u8> {
    let mut v = text.as_bytes().to_vec();
    v.resize(length, b'#');
    v
}

#[test]
fn karg_header() {
    let h = header(1139, 4096, &[98126, 371658]);
    let k = parse_karg_header(&h).unwrap().unwrap();
    assert_eq!(k.length, 1139);
    assert_eq!(k.default_offset, 4096);
    assert_eq!(k.offsets, vec![98126, 371658]);

    // all six slots
    let h = header(100, 1, &[1, 2, 3, 4, 5, 6]);
    assert_eq!(parse_karg_header(&h).unwrap().unwrap().offsets, vec![1, 2, 3, 4, 5, 6]);

    // no magic
    let mut h = header(100, 1, &[1]);
    h[0] = 0;
    assert_eq!(parse_karg_header(&h).unwrap(), None);

    // too large
    let h = header(2049, 1, &[1]);
    assert_eq!(
        parse_karg_header(&h).unwrap_err(),
        EmbedError::KargAreaTooLarge { found: 2049 }
    );
}

#[test]
fn karg_info_limits() {
    assert!(check_karg_info(2048, 10).is_ok());
    assert_eq!(
        check_karg_info(2049, 10).unwrap_err(),
        EmbedError::KargAreaTooLarge { found: 2049 }
    );
    assert_eq!(
        check_karg_info(10, 11).unwrap_err(),
        EmbedError::DefaultKargsTooLarge { default: 11, size: 10 }
    );
}

#[test]
fn region_validate() {
    let r = Region::new(10, 4, vec![1, 2, 3, 4]);
    assert!(r.validate().is_ok());
    assert!(!r.modified);
    let r = Region::new(10, 5, vec![1, 2, 3, 4]);
    assert_eq!(
        r.validate().unwrap_err(),
        EmbedError::RegionLength { expected: 5, found: 4 }
    );
}

#[test]
fn karg_areas_build_and_set() {
    let default = "mitigations=auto,nosmt coreos.liveiso=x ignition.firstboot ignition.platform.id=metal";
    let regions = vec![
        Region::new(98126, 1139, area(&format!("{}\n", default), 1139)),
        Region::new(371658, 1139, area(&format!("{}\n", default), 1139)),
    ];
    let mut areas = KargEmbedAreas::build(1139, default.to_string(), regions).unwrap();
    assert_eq!(areas.kargs(), default);
    assert_eq!(areas.kargs_default(), default);

    areas.set_kargs("  foo bar=baz \n").unwrap();
    assert_eq!(areas.kargs(), "foo bar=baz");
    assert_eq!(areas.kargs_default(), default);

    // what was written reads back
    let r = Region::new(0, 1139, area("foo bar=baz\n", 1139));
    assert_eq!(KargEmbedAreas::parse(&r).unwrap(), "foo bar=baz");

    // too large
    let mut small = KargEmbedAreas::build(
        8,
        String::new(),
        vec![Region::new(0, 8, area("a\n", 8))],
    )
    .unwrap();
    assert_eq!(
        small.set_kargs("abcdefgh").unwrap_err(),
        EmbedError::KargsTooLarge { needed: 9, length: 8 }
    );
    assert_eq!(small.kargs(), "a");
    small.set_kargs("abcdefg").unwrap();
    assert_eq!(small.kargs(), "abcdefg");
}

#[test]
fn karg_areas_errors() {
    assert_eq!(
        KargEmbedAreas::build(10, String::new(), vec![]).err().unwrap(),
        EmbedError::NoKargAreas
    );
    let regions = vec![
        Region::new(1, 10, area("a\n", 10)),
        Region::new(2, 10, area("b\n", 10)),
    ];
    assert_eq!(
        KargEmbedAreas::build(10, String::new(), regions).err().unwrap(),
        EmbedError::KargsMismatch { offset: 2 }
    );
    let regions = vec![Region::new(5, 3, vec![0xff, 0xfe, b'#'])];
    assert_eq!(
        KargEmbedAreas::build(3, String::new(), regions).err().unwrap(),
        EmbedError::InvalidUtf8 { offset: 5 }
    );
}

#[test]
fn initrd_area_region() {
    let area = InitrdEmbedArea::new(Region::new(102400, 64, vec![0; 64]), Initrd::new());
    let r = area.region().unwrap();
    assert_eq!(r.offset, 102400);
    assert_eq!(r.contents, vec![0u8; 64]);

    let mut area = InitrdEmbedArea::new(Region::new(0, 4096, vec![0; 4096]), Initrd::new());
    area.initrd_mut().add("config.ign", b"{}".to_vec());
    let r = area.region().unwrap();
    assert!(r.modified);
    assert_eq!(r.contents.len(), 4096);
    assert_eq!(&r.contents[0..6], b"\xfd7zXZ\x00");
    assert_eq!(*r.contents.last().unwrap(), 0);

    let mut area = InitrdEmbedArea::new(Region::new(0, 16, vec![0; 16]), Initrd::new());
    area.initrd_mut().add("config.ign", b"{}".to_vec());
    match area.region().unwrap_err() {
        EmbedError::InitrdTooLarge { capacity, size } => {
            assert_eq!(capacity, 16);
            assert!(size > 16);
        }
        e => panic!("unexpected {:?}", e),
    }
}

fn iso(kargs: Option<KargEmbedAreas>) -> IsoConfig {
    IsoConfig::new(
        InitrdEmbedArea::new(Region::new(0, 65536, vec![0; 65536]), Initrd::new()),
        kargs,
    )
}

#[test]
fn iso_config() {
    let mut iso = iso(None);
    assert!(!iso.have_ignition());
    assert!(!iso.have_network());
    assert!(!iso.kargs_supported());
    assert_eq!(iso.kargs().unwrap_err(), EmbedError::KargsUnsupported);
    assert_eq!(iso.kargs_default().unwrap_err(), EmbedError::KargsUnsupported);
    assert_eq!(iso.set_kargs("x").unwrap_err(), EmbedError::KargsUnsupported);

    iso.set_ignition(b"{}".to_vec());
    assert!(iso.have_ignition());
    assert_eq!(iso.ignition(), Some(&b"{}"[..]));

    iso.initrd_mut().add("etc/coreos-firstboot-network/a.nmconnection", b"a".to_vec());
    iso.initrd_mut().add("etc/coreos-firstboot-network/b.nmconnection", b"b".to_vec());
    iso.initrd_mut().add("etc/other", b"c".to_vec());
    assert!(iso.have_network());
    iso.remove_network();
    assert!(!iso.have_network());
    assert_eq!(iso.initrd().get("etc/other"), Some(&b"c"[..]));
    assert!(iso.have_ignition());
}

use coreos_installer::embed::stream_plan;

fn modified(offset: u64, len: usize) -> Region {
    let mut r = Region::new(offset, len, vec![0; len]);
    r.modified = true;
    r
}

#[test]
fn plan_for_streaming() {
    let regions = vec![
        modified(500, 10),
        Region::new(0, 1000, vec![]),
        modified(100, 50),
        modified(150, 10),
    ];
    assert_eq!(stream_plan(&regions).unwrap(), vec![2, 3, 0]);

    let overlapping = vec![modified(100, 50), modified(149, 10)];
    assert_eq!(
        stream_plan(&overlapping).unwrap_err(),
        EmbedError::RegionOverlap { offset: 149, cursor: 150 }
    );

    let mut bad = modified(0, 4);
    bad.contents.pop();
    assert_eq!(
        stream_plan(&[bad]).unwrap_err(),
        EmbedError::RegionLength { expected: 4, found: 3 }
    );
    assert_eq!(stream_plan(&[]).unwrap(), Vec::<usize>::new());
}

#[test]
fn initrd_area_from_region() {
    let a = InitrdEmbedArea::from_region(Region::new(100, 8, vec![0; 8])).unwrap();
    assert!(a.initrd().is_empty());

    let mut initrd = Initrd::new();
    initrd.add("config.ign", b"{}".to_vec());
    let mut bytes = initrd.to_bytes().unwrap();
    bytes.resize(8192, 0);
    let a = InitrdEmbedArea::from_region(Region::new(100, 8192, bytes)).unwrap();
    assert_eq!(a.initrd().get("config.ign"), Some(&b"{}"[..]));
    // the region is written back with the same archive
    let r = a.region().unwrap();
    assert_eq!(r.offset, 100);
    assert_eq!(r.contents.len(), 8192);

    assert!(InitrdEmbedArea::from_region(Region::new(0, 4, vec![1, 2, 3, 4])).is_err());
}

#[test]
fn karg_info_padding() {
    assert_eq!(pad_karg_info(b"{}", 5), Ok(b"{}   ".to_vec()));
    assert_eq!(pad_karg_info(b"{}", 2), Ok(b"{}".to_vec()));
    assert_eq!(
        pad_karg_info(b"{\"a\":1}", 3),
        Err(EmbedError::InfoTooLarge { needed: 7, length: 3 })
    );
}
