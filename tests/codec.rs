use sskr_bytewords::bytewords::{
    byteword_string, byteword_string_no_checksum, byteword_string_to_bytes, BytewordsError,
};
use std::collections::HashSet;

#[test]
fn encodes_known_vector_full() {
    let s = byteword_string(&[0, 1, 2, 128, 255], &false);
    assert_eq!(s, "able acid also lava zoom jade need echo taxi");
}

#[test]
fn encodes_known_vector_minimal() {
    let s = byteword_string(&[0, 1, 2, 128, 255], &true);
    assert_eq!(s, "aeadaolazmjendeoti");
}

#[test]
fn encodes_single_byte() {
    assert_eq!(byteword_string(&[0x42], &false), "flew game taxi task each");
    assert_eq!(byteword_string(&[0x42], &true), "fwgetitkeh");
}

#[test]
fn encodes_empty_payload_as_checksum_only() {
    assert_eq!(byteword_string(&[], &false), "able able able able");
}

#[test]
fn encodes_without_checksum() {
    assert_eq!(byteword_string_no_checksum(&[0, 255], &false), "able zoom");
    assert_eq!(byteword_string_no_checksum(&[0, 255], &true), "aezm");
    assert_eq!(byteword_string_no_checksum(&[], &false), "");
}

#[test]
fn output_length_is_fixed_by_input_length() {
    let data: Vec<u8> = (0..37u8).collect();
    assert_eq!(byteword_string(&data, &false).split(' ').count(), 41);
    assert_eq!(byteword_string(&data, &true).len(), 82);
}

#[test]
fn decodes_known_vector() {
    let full = byteword_string_to_bytes("able acid also lava zoom jade need echo taxi", &false);
    assert_eq!(full.unwrap(), vec![0, 1, 2, 128, 255]);
    let minimal = byteword_string_to_bytes("aeadaolazmjendeoti", &true);
    assert_eq!(minimal.unwrap(), vec![0, 1, 2, 128, 255]);
}

#[test]
fn round_trips_in_both_forms() {
    let samples: Vec<Vec<u8>> = vec![
        vec![7],
        (0..=255u8).collect(),
        vec![0xd9, 0x01, 0x35, 0x58, 0x15, 0xff, 0x00],
    ];
    for data in samples {
        for minimal in [false, true] {
            let text = byteword_string(&data, &minimal);
            assert_eq!(byteword_string_to_bytes(&text, &minimal).unwrap(), data);
        }
    }
}

#[test]
fn rejects_unknown_word_and_names_it() {
    let r = byteword_string_to_bytes("able acid qqqq lava zoom jade need echo taxi", &false);
    assert!(matches!(r, Err(BytewordsError::UnknownWord(ref w)) if w == "qqqq"));
    let r = byteword_string_to_bytes("aeadqqlazmjendeoti", &true);
    assert!(matches!(r, Err(BytewordsError::UnknownWord(ref w)) if w == "qq"));
}

#[test]
fn rejects_double_space_and_odd_length() {
    let r = byteword_string_to_bytes("able  acid also lava zoom", &false);
    assert!(matches!(r, Err(BytewordsError::UnknownWord(ref w)) if w.is_empty()));
    let r = byteword_string_to_bytes("aeadaolazmjendeot", &true);
    assert!(matches!(r, Err(BytewordsError::UnknownWord(ref w)) if w == "t"));
}

#[test]
fn rejects_too_short() {
    assert!(matches!(
        byteword_string_to_bytes("able able able able", &false),
        Err(BytewordsError::TooShort)
    ));
    assert!(matches!(byteword_string_to_bytes("", &true), Err(BytewordsError::TooShort)));
}

#[test]
fn rejects_bad_checksum() {
    let r = byteword_string_to_bytes("able acid also lava zoom jade need echo tomb", &false);
    assert!(matches!(r, Err(BytewordsError::ChecksumMismatch)));
}

#[test]
fn flipping_any_bit_is_detected() {
    let data: Vec<u8> = vec![0xd9, 0x01, 0x35, 0x58, 0x15, 0x12, 0x34, 0x56, 0x78];
    let text = byteword_string(&data, &false);
    let mut bytes = data.clone();
    bytes.extend_from_slice(&crc32_be(&data));
    for i in 0..bytes.len() {
        for bit in 0..8 {
            let mut flipped = bytes.clone();
            flipped[i] ^= 1 << bit;
            let altered = byteword_string_no_checksum(&flipped, &false);
            assert_ne!(altered, text);
            let r = byteword_string_to_bytes(&altered, &false);
            assert!(matches!(
                r,
                Err(BytewordsError::ChecksumMismatch) | Err(BytewordsError::UnknownWord(_))
            ));
        }
    }
}

fn crc32_be(data: &[u8]) -> [u8; 4] {
    crc::Crc::<u32>::new(&crc::CRC_32_ISO_HDLC).checksum(data).to_be_bytes()
}

#[test]
fn minimal_forms_are_pairwise_distinct() {
    let forms: HashSet<String> =
        (0..=255u8).map(|b| byteword_string_no_checksum(&[b], &true)).collect();
    assert_eq!(forms.len(), 256);
    let words: HashSet<String> =
        (0..=255u8).map(|b| byteword_string_no_checksum(&[b], &false)).collect();
    assert_eq!(words.len(), 256);
}
