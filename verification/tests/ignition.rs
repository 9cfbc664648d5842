use coreos_installer::ignition::{HashError, IgnitionHash};

#[test]
fn test_ignition_hash_cli_parse() {
    let err_cases = vec!["", "foo-bar", "-bar", "sha512", "sha512-", "sha512-00"];
    for arg in err_cases {
        assert!(IgnitionHash::try_parse(arg).is_err(), "input: {}", arg);
    }

    let null_digest = "sha512-cf83e1357eefb8bdf1542850d66d8007d620e4050b5715dc83f4a921d36ce9ce47d0d13c5d85f2b0ff8318d2877eec2f63b931bd47417a81a538327af927da3e";
    IgnitionHash::try_parse(null_digest).unwrap();
}

#[test]
fn test_ignition_hash_validate() {
    let input = vec![b'a', b'b', b'c'];
    let hash_args = [
        (true, "sha256-ba7816bf8f01cfea414140de5dae2223b00361a396177a9cb410ff61f20015ad"),
        (true, "sha512-ddaf35a193617abacc417349ae20413112e6fa4e89a97ea20a9eeee64b55d39a2192992a274fc1a836ba3c23a3feebbd454d4423643ce80e2a9ac94fa54ca49f"),
        (false, "sha256-aa7816bf8f01cfea414140de5dae2223b00361a396177a9cb410ff61f20015ad"),
        (false, "sha512-cdaf35a193617abacc417349ae20413112e6fa4e89a97ea20a9eeee64b55d39a2192992a274fc1a836ba3c23a3feebbd454d4423643ce80e2a9ac94fa54ca49f"),
    ];
    for (valid, hash_arg) in &hash_args {
        let hasher = IgnitionHash::try_parse(hash_arg).unwrap();
        let mut rd = std::io::Cursor::new(&input);
        assert!(hasher.validate(&mut rd).is_ok() == *valid);
    }
}

#[test]
fn ignition_hash_errors() {
    assert_eq!(IgnitionHash::try_parse("sha256").unwrap_err(), HashError::MissingSeparator);
    assert_eq!(IgnitionHash::try_parse("md5-00").unwrap_err(), HashError::UnknownType);
    assert_eq!(IgnitionHash::try_parse("sha256-0g").unwrap_err(), HashError::BadHex);
    assert_eq!(IgnitionHash::try_parse("sha256-abc").unwrap_err(), HashError::BadHex);
    assert_eq!(
        IgnitionHash::try_parse("sha512-00").unwrap_err(),
        HashError::WrongLength { bits: 8 }
    );
    // upper case digits are accepted, and the digest is decoded
    let h = IgnitionHash::try_parse(
        "sha256-BA7816BF8F01CFEA414140DE5DAE2223B00361A396177A9CB410FF61F20015AD",
    )
    .unwrap();
    match &h {
        IgnitionHash::Sha256(d) => {
            assert_eq!(d.len(), 32);
            assert_eq!(d[0], 0xba);
            assert_eq!(d[31], 0xad);
        }
        IgnitionHash::Sha512(_) => panic!("wrong kind"),
    }
    assert_eq!(h.check(b"abc"), Ok(()));
    assert_eq!(h.check(b"abd"), Err(HashError::Mismatch));
}
