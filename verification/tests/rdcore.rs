use coreos_installer::cmdline::KargsConfig;
use coreos_installer::rdcore::{kargs_source, modify_options, should_create_stamp, KargsSource, MissingSource};

fn config() -> KargsConfig {
    KargsConfig {
        boot_device: None,
        boot_mount: None,
        current: false,
        override_options: None,
        create_if_changed: None,
        append: vec![],
        append_if_missing: vec![],
        delete: vec![],
    }
}

#[test]
fn source_choice() {
    assert_eq!(kargs_source(&config()).unwrap_err(), MissingSource);
    let mut c = config();
    c.boot_mount = Some("/boot".into());
    assert_eq!(kargs_source(&c).unwrap(), KargsSource::BootEntry);
    c.current = true;
    assert_eq!(kargs_source(&c).unwrap(), KargsSource::Current);
    c.override_options = Some("  a b \n".into());
    assert_eq!(kargs_source(&c).unwrap(), KargsSource::Override("a b".into()));
}

#[test]
fn modify() {
    let mut c = config();
    assert_eq!(modify_options(&c, "a b").unwrap(), None);
    c.delete = vec!["a".into()];
    c.append = vec!["c".into()];
    c.append_if_missing = vec!["b".into(), "d".into()];
    let n = modify_options(&c, "a b").unwrap();
    assert_eq!(n.as_deref(), Some("b c d"));
    assert!(!should_create_stamp(&c, &n, "a b"));
    c.create_if_changed = Some("/run/stamp".into());
    assert!(should_create_stamp(&c, &n, "a b"));
    assert!(!should_create_stamp(&c, &Some("a b".into()), "a b"));
    assert!(!should_create_stamp(&c, &None, "a b"));
}
