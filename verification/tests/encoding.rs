use war_analyzer::encoding::decode_windows_1252;

#[test]
fn decodes_windows_1252_bytes() {
    assert_eq!(decode_windows_1252(b"Kavala"), "Kavala");
    assert_eq!(decode_windows_1252(&[0x4D, 0xFC, 0x6E, 0x63, 0x68, 0x65, 0x6E]), "München");
    assert_eq!(decode_windows_1252(&[0x80, 0x8A, 0x9F]), "\u{20AC}\u{0160}\u{0178}");
    assert_eq!(decode_windows_1252(&[0x81, 0x8D, 0xA0, 0xFF]), "\u{81}\u{8D}\u{A0}\u{FF}");
    assert_eq!(decode_windows_1252(&[]), "");
}
