use coreos_installer::source::{FileLocation, OsmetLocation};

#[test]
fn file_location() {
    let l = FileLocation::new("/tmp/image.raw.xz");
    assert_eq!(l.image_path, "/tmp/image.raw.xz");
    assert_eq!(l.sig_path, "/tmp/image.raw.xz.sig");
    assert_eq!(
        l.describe(),
        "Copying image from /tmp/image.raw.xz\nReading signature from /tmp/image.raw.xz.sig"
    );
}

#[test]
fn osmet_location() {
    assert!(OsmetLocation::new("x86_64", 512, None).is_none());
    let l = OsmetLocation::new(
        "x86_64",
        4096,
        Some(("/run/x.osmet".to_string(), "Fedora CoreOS 36".to_string())),
    )
    .unwrap();
    assert_eq!(l.describe(), "Installing Fedora CoreOS 36 x86_64 (4096-byte sectors)");
}
