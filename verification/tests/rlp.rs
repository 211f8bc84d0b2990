//! Tests of the RLP codec: canonical encodings, the strict decoder and its
//! rejection of every non-canonical form, and the key encodings.

use merkle_trie::rlp::decode::{append_uint64, count_values, split_list, split_string};
use merkle_trie::trie::encoding::{compact_to_hex, has_term, hex_to_compact, keybytes_to_hex};

#[test]
fn uint_encodings() {
    assert_eq!(append_uint64(Vec::new(), 0), vec![0x80]);
    assert_eq!(append_uint64(Vec::new(), 1), vec![0x01]);
    assert_eq!(append_uint64(Vec::new(), 127), vec![0x7F]);
    assert_eq!(append_uint64(Vec::new(), 128), vec![0x81, 0x80]);
    assert_eq!(append_uint64(Vec::new(), 256), vec![0x82, 0x01, 0x00]);
    assert_eq!(append_uint64(Vec::new(), 0xFFFFFF), vec![0x83, 0xFF, 0xFF, 0xFF]);
    assert_eq!(
        append_uint64(Vec::new(), u64::MAX),
        vec![0x88, 0xFF, 0xFF, 0xFF, 0xFF, 0xFF, 0xFF, 0xFF, 0xFF]
    );
    // appending keeps what is already there
    assert_eq!(append_uint64(vec![0xAA], 5), vec![0xAA, 0x05]);
}

#[test]
fn split_string_accepts_canonical_forms() {
    // implicit single byte
    let (c, rest) = split_string(&[0x42]).unwrap();
    assert_eq!(c, &[0x42]);
    assert!(rest.is_empty());
    // empty string
    let (c, rest) = split_string(&[0x80, 0x99]).unwrap();
    assert!(c.is_empty());
    assert_eq!(rest, &[0x99]);
    // short string
    let (c, rest) = split_string(&[0x83, 1, 2, 3]).unwrap();
    assert_eq!(c, &[1, 2, 3]);
    assert!(rest.is_empty());
    // long string of 56 bytes
    let mut buf = vec![0xB8, 56];
    buf.extend(std::iter::repeat(7u8).take(56));
    let (c, rest) = split_string(&buf).unwrap();
    assert_eq!(c.len(), 56);
    assert!(c.iter().all(|&b| b == 7));
    assert!(rest.is_empty());
}

#[test]
fn split_list_accepts_canonical_forms() {
    let (c, rest) = split_list(&[0xC3, 1, 2, 3, 9]).unwrap();
    assert_eq!(c, &[1, 2, 3]);
    assert_eq!(rest, &[9]);
    // a string is not a list
    assert!(split_list(&[0x83, 1, 2, 3]).is_err());
    // a list is not a string
    assert!(split_string(&[0xC3, 1, 2, 3]).is_err());
}

#[test]
fn decoder_rejects_non_canonical_single_byte() {
    // a one-byte string below 0x80 should have used the implicit form
    assert!(split_string(&[0x81, 0x00]).is_err());
    assert!(split_string(&[0x81, 0x7F]).is_err());
    // 0x80 and above is fine in the explicit form
    assert!(split_string(&[0x81, 0x80]).is_ok());
}

#[test]
fn decoder_rejects_long_form_for_short_lengths() {
    // long form declaring length 55 must use the short form
    let mut buf = vec![0xB8, 0x37];
    buf.extend(std::iter::repeat(0u8).take(55));
    assert!(split_string(&buf).is_err());
    assert!(split_string(&[0xB8, 0x00]).is_err());
}

#[test]
fn decoder_rejects_leading_zero_length_bytes() {
    let mut buf = vec![0xB9, 0x00, 0x80];
    buf.extend(std::iter::repeat(0u8).take(128));
    assert!(split_string(&buf).is_err());
}

#[test]
fn decoder_rejects_truncated_input() {
    assert!(split_string(&[0x83, 1, 2]).is_err());
    assert!(split_list(&[0xC3, 1]).is_err());
    assert!(split_string(&[]).is_err());
}

#[test]
fn count_values_counts_each_encoded_item() {
    assert_eq!(count_values(&[]).unwrap(), 0);
    assert_eq!(count_values(&[0x01]).unwrap(), 1);
    assert_eq!(count_values(&[0x01, 0x82, 5, 6]).unwrap(), 2);
    assert_eq!(count_values(&[0x80, 0x80, 0x80]).unwrap(), 3);
    assert!(count_values(&[0x82, 5]).is_err());
}

#[test]
fn keybytes_expand_to_nibbles_with_terminator() {
    assert_eq!(keybytes_to_hex(b"do"), vec![6, 4, 6, 15, 16]);
    assert_eq!(keybytes_to_hex(b"dog"), vec![6, 4, 6, 15, 6, 7, 16]);
    assert_eq!(keybytes_to_hex(b""), vec![16]);
}

#[test]
fn compact_encoding_matches_known_vectors() {
    // even length, no terminator
    assert_eq!(hex_to_compact(&[0, 1, 2, 3, 4, 5]), vec![0x00, 0x01, 0x23, 0x45]);
    // odd length, no terminator
    assert_eq!(hex_to_compact(&[1, 2, 3, 4, 5]), vec![0x11, 0x23, 0x45]);
    // even length, terminator
    assert_eq!(hex_to_compact(&[0, 15, 1, 12, 11, 8, 16]), vec![0x20, 0x0F, 0x1C, 0xB8]);
    // odd length, terminator
    assert_eq!(hex_to_compact(&[15, 1, 12, 11, 8, 16]), vec![0x3F, 0x1C, 0xB8]);
    // empty
    assert_eq!(hex_to_compact(&[]), vec![0x00]);
    // terminator only
    assert_eq!(hex_to_compact(&[16]), vec![0x20]);
}

#[test]
fn compact_round_trips_back_to_hex() {
    let cases: Vec<Vec<u8>> = vec![
        vec![],
        vec![16],
        vec![1, 2, 3, 4, 5],
        vec![0, 1, 2, 3, 4, 5],
        vec![15, 1, 12, 11, 8, 16],
        vec![0, 15, 1, 12, 11, 8, 16],
        vec![6, 4, 6, 15, 16],
    ];
    for h in cases {
        let compact = hex_to_compact(&h);
        assert_eq!(compact_to_hex(&compact), h);
    }
}

#[test]
fn has_term_checks_the_last_nibble() {
    assert!(has_term(&[6, 4, 16]));
    assert!(!has_term(&[6, 4]));
    assert!(!has_term(&[]));
}
