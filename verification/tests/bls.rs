use coreos_installer::bls::{
    add_whitespaces, bls_entry_delete_and_append_kargs, bls_entry_write_platform, bls_options,
    replace_bls_options, KargsEditor, KargsError,
};

#[test]
fn test_apply_to() {
    let orig_kargs = "foo bar foobar";

    let delete_kargs = vec!["foo".into()];
    let new_kargs = KargsEditor::new()
        .delete(&delete_kargs)
        .apply_to(orig_kargs)
        .unwrap();
    assert_eq!(new_kargs, "bar foobar");

    let delete_kargs = vec!["bar".into()];
    let new_kargs = KargsEditor::new()
        .delete(&delete_kargs)
        .apply_to(orig_kargs)
        .unwrap();
    assert_eq!(new_kargs, "foo foobar");

    let delete_kargs = vec!["foobar".into()];
    let new_kargs = KargsEditor::new()
        .delete(&delete_kargs)
        .apply_to(orig_kargs)
        .unwrap();
    assert_eq!(new_kargs, "foo bar");

    let delete_kargs = vec!["foo bar".into()];
    let new_kargs = KargsEditor::new()
        .delete(&delete_kargs)
        .apply_to(orig_kargs)
        .unwrap();
    assert_eq!(new_kargs, "foobar");

    let delete_kargs = vec!["bar".into(), "foo".into()];
    let new_kargs = KargsEditor::new()
        .delete(&delete_kargs)
        .apply_to(orig_kargs)
        .unwrap();
    assert_eq!(new_kargs, "foobar");

    let orig_kargs = "foo=val bar baz=val";

    let delete_kargs = vec!["   foo=val".into()];
    let new_kargs = KargsEditor::new()
        .delete(&delete_kargs)
        .apply_to(orig_kargs)
        .unwrap();
    assert_eq!(new_kargs, "bar baz=val");

    let delete_kargs = vec!["baz=val  ".into()];
    let new_kargs = KargsEditor::new()
        .delete(&delete_kargs)
        .apply_to(orig_kargs)
        .unwrap();
    assert_eq!(new_kargs, "foo=val bar");

    let orig_kargs = "foo mitigations=auto,nosmt console=tty0 bar console=ttyS0,115200n8 baz";

    let delete_kargs = vec![
        "mitigations=auto,nosmt".into(),
        "console=ttyS0,115200n8".into(),
    ];
    let append_kargs = vec!["console=ttyS1,115200n8  ".into()];
    let append_kargs_if_missing = vec!["bar".into(), "console=ttyS1,115200n8".into(), "boo".into()];
    let new_kargs = KargsEditor::new()
        .delete(&delete_kargs)
        .append(&append_kargs)
        .append_if_missing(&append_kargs_if_missing)
        .apply_to(orig_kargs)
        .unwrap();
    assert_eq!(
        new_kargs,
        "foo console=tty0 bar baz console=ttyS1,115200n8 boo"
    );

    let orig_kargs = "foo mitigations=auto,nosmt console=tty0 bar console=ttyS0,115200n8 baz";

    let append_kargs = vec!["console=ttyS1,115200n8".into()];
    let replace_kargs = vec!["mitigations=auto,nosmt=auto".into()];
    let delete_kargs = vec!["console=ttyS0,115200n8".into()];
    let new_kargs = KargsEditor::new()
        .append(&append_kargs)
        .replace(&replace_kargs)
        .delete(&delete_kargs)
        .apply_to(&orig_kargs)
        .unwrap();
    assert_eq!(
        new_kargs,
        "foo mitigations=auto console=tty0 bar baz console=ttyS1,115200n8"
    );
}

#[test]
fn test_maybe_apply_to() {
    // no arguments
    assert!(KargsEditor::new()
        .maybe_apply_to("foo bar foobar")
        .unwrap()
        .is_none());

    // empty arguments
    assert!(KargsEditor::new()
        .append(&[])
        .delete(&[])
        .maybe_apply_to("foo bar foobar")
        .unwrap()
        .is_none());

    // arguments that aren't relevant
    let new_kargs = KargsEditor::new()
        .delete(&["baz".into()])
        .maybe_apply_to("foo bar foobar")
        .unwrap()
        .unwrap();
    assert_eq!(new_kargs, "foo bar foobar");
}

#[test]
fn apply_to_bad_replace() {
    for bad in ["a=b", "a=b=c=d", "=b=c", "a==c", "a=b=", "abc"] {
        let r = KargsEditor::new()
            .replace(&[bad.to_string()])
            .apply_to("a=b");
        assert_eq!(r, Err(KargsError::WrongReplaceFormat), "{}", bad);
    }
    // adjacent duplicates: the scan is left to right without overlap
    let r = KargsEditor::new()
        .delete(&["a".to_string()])
        .apply_to("a a a b")
        .unwrap();
    assert_eq!(r, "a b");
}

#[test]
fn test_platform_id() {
    let orig_content = "options ignition.platform.id=metal foo bar";
    let new_content = bls_entry_write_platform(orig_content, "openstack").unwrap();
    assert_eq!(
        new_content,
        "options ignition.platform.id=openstack foo bar"
    );

    let orig_content = "options foo ignition.platform.id=metal bar";
    let new_content = bls_entry_write_platform(orig_content, "openstack").unwrap();
    assert_eq!(
        new_content,
        "options foo ignition.platform.id=openstack bar"
    );

    let orig_content = "options foo bar ignition.platform.id=metal";
    let new_content = bls_entry_write_platform(orig_content, "openstack").unwrap();
    assert_eq!(
        new_content,
        "options foo bar ignition.platform.id=openstack"
    );

    assert_eq!(
        bls_entry_write_platform("options foo", "openstack"),
        Err(KargsError::MissingPlatformId)
    );
}

#[test]
fn test_options_edit() {
    let orig_content = "options foo bar foobar";

    let delete_kargs = vec!["foo".into()];
    let new_content =
        bls_entry_delete_and_append_kargs(orig_content, Some(&delete_kargs), None).unwrap();
    assert_eq!(new_content, "options bar foobar\n");

    let delete_kargs = vec!["bar".into()];
    let new_content =
        bls_entry_delete_and_append_kargs(orig_content, Some(&delete_kargs), None).unwrap();
    assert_eq!(new_content, "options foo foobar\n");

    let delete_kargs = vec!["foobar".into()];
    let new_content =
        bls_entry_delete_and_append_kargs(orig_content, Some(&delete_kargs), None).unwrap();
    assert_eq!(new_content, "options foo bar\n");

    let delete_kargs = vec!["bar".into(), "foo".into()];
    let new_content =
        bls_entry_delete_and_append_kargs(orig_content, Some(&delete_kargs), None).unwrap();
    assert_eq!(new_content, "options foobar\n");

    let orig_content = "options foo=val bar baz=val";

    let delete_kargs = vec!["foo=val".into()];
    let new_content =
        bls_entry_delete_and_append_kargs(orig_content, Some(&delete_kargs), None).unwrap();
    assert_eq!(new_content, "options bar baz=val\n");

    let delete_kargs = vec!["baz=val".into()];
    let new_content =
        bls_entry_delete_and_append_kargs(orig_content, Some(&delete_kargs), None).unwrap();
    assert_eq!(new_content, "options foo=val bar\n");

    let orig_content =
        "options foo mitigations=auto,nosmt console=tty0 bar console=ttyS0,115200n8 baz";

    let delete_kargs = vec![
        "mitigations=auto,nosmt".into(),
        "console=ttyS0,115200n8".into(),
    ];
    let append_kargs = vec!["console=ttyS1,115200n8".into()];
    let new_content = bls_entry_delete_and_append_kargs(
        orig_content,
        Some(&delete_kargs),
        Some(&append_kargs),
    )
    .unwrap();
    assert_eq!(
        new_content,
        "options foo console=tty0 bar baz console=ttyS1,115200n8\n"
    );
}

#[test]
fn options_edit_errors_and_other_lines() {
    let content = "title Fedora  \r\noptions a b\nlinux /vmlinuz  ";
    let r = bls_entry_delete_and_append_kargs(content, None, Some(&vec!["c".into()])).unwrap();
    assert_eq!(r, "title Fedora\noptions a b c\nlinux /vmlinuz\n");
    assert_eq!(
        bls_entry_delete_and_append_kargs("title x\n", None, None),
        Err(KargsError::MissingOptions)
    );
    assert_eq!(
        bls_entry_delete_and_append_kargs("options a\noptions b\n", None, None),
        Err(KargsError::MultipleOptions)
    );
}

#[test]
fn options_line_visit() {
    let content = "title x\noptions  foo bar \nlinux y";
    let (opts, n) = bls_options(content).unwrap();
    assert_eq!(opts, "foo bar");
    assert_eq!(n, 1);
    assert_eq!(
        replace_bls_options(content, " baz "),
        "title x\noptions baz\nlinux y\n"
    );
    assert!(bls_options("title x\n").is_none());
    assert_eq!(bls_options("options a\noptions b").unwrap().1, 2);
    assert_eq!(add_whitespaces("x"), " x ");
}
