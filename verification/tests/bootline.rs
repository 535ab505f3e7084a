use ulmake::serial::{first_line, serial_from_boot_line};

#[test]
fn test_first_line() {
    assert_eq!(
        first_line("BOOT2 = cdrom0:\\SLXS_123.45;1\nVER = 1.00\n"),
        "BOOT2 = cdrom0:\\SLXS_123.45;1"
    );
    assert_eq!(first_line("single"), "single");
    assert_eq!(first_line(""), "");
    assert_eq!(first_line("crlf line\r\nrest"), "crlf line");
}

#[test]
fn test_serial_from_boot_line() {
    let line = "BOOT2 = cdrom0:\\SLXS_123.45;1";
    assert_eq!(serial_from_boot_line(line), Some(String::from("SLXS_123.45")));
}

#[test]
fn test_isochunk_get_serial() {
    // the boot descriptor of a disc image names its serial
    let descriptor = "BOOT2 = cdrom0:\\SLXS_123.45;1\nVER = 1.00\n";
    let serial = serial_from_boot_line(&first_line(descriptor)).unwrap();
    assert_eq!(serial, String::from("SLXS_123.45"));
}

#[test]
fn test_isochunk_get_serial_file_not_found() {
    // a descriptor without a boot path yields no serial
    let serial = serial_from_boot_line(&first_line(""));
    assert!(serial.is_none());
}

#[test]
fn test_serial_without_revision_marker() {
    let line = "BOOT2 = cdrom0:\\SLXS_123.45";
    assert_eq!(serial_from_boot_line(line), Some(String::from("SLXS_123.45")));
}

#[test]
fn test_serial_with_stray_colon() {
    assert_eq!(serial_from_boot_line("ab:;1"), Some(String::from("ab")));
}

#[test]
fn test_serial_no_match() {
    assert_eq!(serial_from_boot_line("abc:"), None);
    assert_eq!(serial_from_boot_line(""), None);
}

#[test]
fn test_serial_marker_only() {
    assert_eq!(serial_from_boot_line(";1"), Some(String::from("1")));
}
