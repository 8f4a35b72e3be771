use stegsolve_rs::presentation::hex::{format_binary, format_hex_ascii, format_hex_compact};

#[test]
fn test_format_hex_ascii() {
    let data = b"Hello, World!";
    let formatted = format_hex_ascii(data, 100);
    assert!(formatted.contains("48 65 6c 6c 6f")); // Hex for "Hello"
    assert!(formatted.contains("Hello, World!")); // ASCII part
}

#[test]
fn test_format_hex_compact() {
    let data = vec![0xDE, 0xAD, 0xBE, 0xEF];
    assert_eq!(format_hex_compact(&data, 4), "deadbeef");
}

#[test]
fn test_format_binary() {
    let data = vec![0b10101010];
    assert_eq!(format_binary(&data, 1), "10101010");
}

#[test]
fn test_max_bytes_limit() {
    let data = vec![0; 100];
    let formatted = format_hex_compact(&data, 10);
    assert!(formatted.contains("... (100 bytes total)"));
}

#[test]
fn hex_ascii_dump_layout() {
    let data: Vec<u8> = (0u8..20).map(|i| i + 0x40).collect();
    let out = format_hex_ascii(&data, 100);
    let expected = "00000000  40 41 42 43 44 45 46 47 48 49 4a 4b 4c 4d 4e 4f  @ABCDEFGHIJKLMNO\n\
                    00000010  50 51 52 53                                      PQRS\n";
    assert_eq!(out, expected);
    assert_eq!(format_hex_ascii(&[], 100), "");
}

#[test]
fn hex_ascii_dump_truncates_and_marks_unprintable() {
    let data = vec![0x00, 0x20, 0x7e, 0x7f, 0xff];
    let out = format_hex_ascii(&data, 3);
    let expected = format!("00000000  00 20 7e {} . ~\n... (5 bytes total)\n", "   ".repeat(13));
    assert_eq!(out, expected);
    let out = format_hex_ascii(&data, 5);
    assert!(out.ends_with(" . ~..\n"));
}

#[test]
fn compact_and_binary_truncation() {
    assert_eq!(format_hex_compact(&[1, 2, 3], 2), "0102... (3 bytes total)");
    assert_eq!(format_hex_compact(&[], 0), "");
    assert_eq!(format_binary(&[1, 128, 255], 2), "00000001 10000000 ... (3 bytes total)");
    assert_eq!(format_binary(&[1, 2], 5), "00000001 00000010");
    assert_eq!(format_binary(&[7], 0), " ... (1 bytes total)");
}
