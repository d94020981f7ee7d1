//! Decoding of shell output.

use zeroclaw_log::shell_output::{decode_shell_output, settle_text};

#[test]
fn preserves_valid_utf8() {
    let input = "shell 输出\n";
    assert_eq!(decode_shell_output(input.as_bytes()), input);
}

#[test]
fn decodes_non_utf8_text() {
    // GBK for "中文输出". Repeating the sample gives the detector enough
    // context to distinguish it from other East Asian encodings.
    let sample = [0xd6, 0xd0, 0xce, 0xc4, 0xca, 0xe4, 0xb3, 0xf6, 0x20];
    let bytes = sample.repeat(8);
    let text = decode_shell_output(&bytes);
    assert!(text.contains("中文输出"), "decoded text: {text:?}");
}

#[test]
fn malformed_bytes_never_panic() {
    let text = decode_shell_output(&[0xff, 0xfe, 0xfd, 0x80]);
    assert!(!text.is_empty());
}

#[test]
fn truncated_utf8_is_safe() {
    let decoded = decode_shell_output(&[b'p', 0xe2, 0x82]);
    assert!(decoded.starts_with('p'));
}

#[test]
fn every_byte_value_can_be_decoded() {
    for first in 0u8..=255 {
        for second in [0u8, 0x41, 0x80, 0xff] {
            let bare_mark = first == 0xfe && second == 0xff;
            assert_eq!(decode_shell_output(&[first, second]).is_empty(), bare_mark);
        }
    }
    assert_eq!(decode_shell_output(&[]), "");
}

#[test]
fn a_byte_order_mark_decides_and_is_dropped() {
    assert_eq!(decode_shell_output(&[0xff, 0xfe, 0x68, 0x00, 0x69, 0x00]), "hi");
    assert_eq!(decode_shell_output(&[0xfe, 0xff, 0x00, 0x68, 0x00, 0x69]), "hi");
}

#[test]
fn bytes_in_a_western_encoding_are_decoded() {
    // "café déjà" in windows-1252.
    let bytes = [0x63, 0x61, 0x66, 0xe9, 0x20, 0x64, 0xe9, 0x6a, 0xe0];
    assert_eq!(decode_shell_output(&bytes), "café déjà");
}

#[test]
fn malformed_utf8_is_settled_by_a_lossy_conversion() {
    let bytes = [b'a', 0xff, b'b'];
    assert_eq!(settle_text("UTF-8", "decoded".to_string(), true, &bytes), "a\u{fffd}b");
    assert_eq!(settle_text("UTF-8", "decoded".to_string(), false, &bytes), "decoded");
    assert_eq!(settle_text("GBK", "decoded".to_string(), true, &bytes), "decoded");
}
