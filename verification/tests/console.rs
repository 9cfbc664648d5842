use coreos_installer::console::Console;
use std::str::FromStr;

#[test]
fn valid_console_args() {
    let cases = vec![
        ("tty0", "console=tty0", "console", None),
        ("hvc0", "console=hvc0", "console", None),
        ("ttysclp0", "console=ttysclp0", "console", None),
        (
            "ttyS1",
            "console=ttyS1,9600n8",
            "serial",
            Some("serial --unit=1 --speed=9600 --word=8 --parity=no"),
        ),
        (
            "ttyAMA1",
            "console=ttyAMA1,9600n8",
            "serial",
            Some("serial --unit=1 --speed=9600 --word=8 --parity=no"),
        ),
        (
            "ttyS1,1234567e5",
            "console=ttyS1,1234567e5",
            "serial",
            Some("serial --unit=1 --speed=1234567 --word=5 --parity=even"),
        ),
        (
            "ttyS2,5o",
            "console=ttyS2,5o8",
            "serial",
            Some("serial --unit=2 --speed=5 --word=8 --parity=odd"),
        ),
        (
            "ttyS3,17",
            "console=ttyS3,17n8",
            "serial",
            Some("serial --unit=3 --speed=17 --word=8 --parity=no"),
        ),
    ];
    for (input, karg, grub_terminal, grub_command) in cases {
        let console = Console::from_str(input).unwrap();
        assert_eq!(
            console.grub_terminal(),
            grub_terminal,
            "GRUB terminal for {}",
            input
        );
        assert_eq!(
            console.grub_command().as_deref(),
            grub_command,
            "GRUB command for {}",
            input
        );
        assert_eq!(console.karg(), karg, "karg for {}", input);
    }
}

#[test]
fn invalid_console_args() {
    let cases = vec![
        "foo",
        "/dev/tty0",
        "/dev/ttyS0",
        "console=tty0",
        "console=ttyS0",
        "ztty0",
        "zttyS0",
        "tty0z",
        "ttyS0z",
        "tty1",
        "hvc1",
        "ttysclp1",
        "ttyS0,",
        "ttyS0,z",
        "ttyS0,115200p8",
        "ttyS0,115200n4",
        "ttyS0,115200n8r",
        "ttyB0",
        "ttyS9999999999999999999",
        "ttyS0,999999999999999999999",
    ];
    for input in cases {
        Console::from_str(input).unwrap_err();
    }
}

#[test]
fn console_text_roundtrip() {
    for input in ["ttyS007,0115200", "ttyAMA3,5e", "hvc0", "ttyS255,4294967295o7"] {
        let c = Console::from_str(input).unwrap();
        let again = Console::from_str(&c.to_string()).unwrap();
        assert_eq!(c, again);
    }
    assert_eq!(
        Console::from_str("ttyS007,0115200").unwrap().to_string(),
        "ttyS7,115200n8"
    );
    assert!(Console::from_str("ttyS256").is_err());
    assert!(Console::from_str("ttyS0,4294967296").is_err());
}
