use coreos_installer::cmdline::{
    ArgSerializer, Architecture, DefaultString, DefaultedString, FetchRetries, InvalidRetries,
    NetworkDir,
};
use std::str::FromStr;

#[test]
fn fetch_retries_parse() {
    assert_eq!(FetchRetries::from_str("infinite").unwrap(), FetchRetries::Infinite);
    assert_eq!(FetchRetries::from_str("0").unwrap(), FetchRetries::NoRetries);
    assert_eq!(FetchRetries::from_str("5").unwrap(), FetchRetries::Finite(5));
    assert_eq!(FetchRetries::from_str("+7").unwrap(), FetchRetries::Finite(7));
    assert_eq!(
        FetchRetries::from_str("4294967295").unwrap(),
        FetchRetries::Finite(4294967295)
    );
    for bad in ["", "+", "-1", "4294967296", "five", "Infinite", " 1"] {
        assert_eq!(FetchRetries::from_str(bad).unwrap_err(), InvalidRetries, "{}", bad);
    }
}

#[test]
fn fetch_retries_roundtrip() {
    for r in [
        FetchRetries::Infinite,
        FetchRetries::NoRetries,
        FetchRetries::Finite(1),
        FetchRetries::Finite(120),
    ] {
        assert_eq!(FetchRetries::parse(&r.to_string()).unwrap(), r);
    }
    assert_eq!(FetchRetries::Finite(42).to_string(), "42");
    assert_eq!(FetchRetries::NoRetries.to_string(), "0");
    assert_eq!(FetchRetries::Infinite.to_string(), "infinite");
    assert!(FetchRetries::default().is_default());
    assert!(!FetchRetries::Infinite.is_default());
}

#[test]
fn defaulted_strings() {
    let d: DefaultedString<NetworkDir> = DefaultedString::default_value();
    assert_eq!(d.as_str(), "/etc/NetworkManager/system-connections/");
    assert_eq!(
        <NetworkDir as DefaultString>::default(),
        "/etc/NetworkManager/system-connections/"
    );
    let s: DefaultedString<Architecture> = DefaultedString::from_str("s390x").unwrap();
    assert_eq!(s.as_str(), "s390x");
    assert!(!<Architecture as DefaultString>::default().is_empty());
}

#[test]
fn arg_serializer() {
    let help = "Usage: x [OPTIONS] <DEV>\n  --force\n  --name <N>\n";
    let mut s = ArgSerializer::new(help);
    // a positional field
    s.push_field("device");
    s.serialize_str("/dev/sda");
    s.pop_field();
    // a flag that is set
    s.push_field("force");
    s.serialize_bool(true);
    s.pop_field();
    // a flag that is not
    s.push_field("force");
    s.serialize_bool(false);
    s.pop_field();
    // an option with a value
    s.push_field("name");
    s.serialize_str("abc");
    s.serialize_u64(12);
    s.pop_field();
    // an unknown option is positional
    s.push_field("nam");
    s.serialize_u64(3);
    s.pop_field();
    assert_eq!(
        s.into_output(),
        vec!["/dev/sda", "--force", "--name", "abc", "--name", "12", "3"]
    );
}
