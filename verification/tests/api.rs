use sol_gate::common::SHA256Checksum;
use sol_gate::files::api::{checksum_from_parts, FileError};
use sol_gate::files::util::split_hash;
use sol_gate::fsnebula::structs::{checksum_hex, parse_checksum};

#[test]
fn parts_of_a_path_name_a_digest() {
    let rest = "00".repeat(29) + "ff";
    let sum = checksum_from_parts(Some("0a"), Some("B0"), Some(&rest)).unwrap();
    let mut expected = vec![0u8; 32];
    expected[0] = 0x0a;
    expected[1] = 0xb0;
    expected[31] = 0xff;
    assert_eq!(sum, SHA256Checksum(expected));
}

#[test]
fn stored_path_names_the_digest_it_was_made_from() {
    let sum = SHA256Checksum((0u8..32).map(|i| i.wrapping_mul(37)).collect());
    let path = split_hash(&sum);
    let parts: Vec<&str> = path.split('/').collect();
    assert_eq!(parts.len(), 3);
    assert_eq!(checksum_from_parts(Some(parts[0]), Some(parts[1]), Some(parts[2])).unwrap(), sum);
}

#[test]
fn missing_part_is_not_specified() {
    let rest = "00".repeat(30);
    assert!(matches!(checksum_from_parts(None, Some("00"), Some(&rest)), Err(FileError::PathNotSpecified)));
    assert!(matches!(checksum_from_parts(Some("00"), None, Some(&rest)), Err(FileError::PathNotSpecified)));
    assert!(matches!(checksum_from_parts(Some("00"), Some("00"), None), Err(FileError::PathNotSpecified)));
    assert!(matches!(checksum_from_parts(Some("zz"), None, None), Err(FileError::PathNotSpecified)));
}

#[test]
fn part_that_is_not_hexadecimal_is_refused() {
    let rest = "00".repeat(30);
    assert!(matches!(checksum_from_parts(Some("0g"), Some("00"), Some(&rest)), Err(FileError::HexDecodeError)));
    assert!(matches!(checksum_from_parts(Some("00"), Some("0"), Some(&rest)), Err(FileError::HexDecodeError)));
    assert!(matches!(checksum_from_parts(Some("00"), Some("00"), Some("xy")), Err(FileError::HexDecodeError)));
    assert!(matches!(checksum_from_parts(Some("0000"), Some("00"), Some("xy")), Err(FileError::HexDecodeError)));
}

#[test]
fn part_of_the_wrong_length_is_refused() {
    let rest = "00".repeat(30);
    assert!(matches!(
        checksum_from_parts(Some("0000"), Some("00"), Some(&rest)),
        Err(FileError::HexLengthError((2, 1)))
    ));
    assert!(matches!(
        checksum_from_parts(Some("00"), Some(""), Some(&rest)),
        Err(FileError::HexLengthError((0, 1)))
    ));
    assert!(matches!(
        checksum_from_parts(Some("00"), Some("00"), Some("0000")),
        Err(FileError::HexLengthError((2, 30)))
    ));
    assert!(matches!(
        checksum_from_parts(Some("0000"), Some("000000"), Some("0000")),
        Err(FileError::HexLengthError((2, 1)))
    ));
}

#[test]
fn checksum_written_in_hexadecimal_reads_back() {
    let sum = SHA256Checksum((0u8..32).map(|i| 255 - i * 3).collect());
    let text = checksum_hex(&sum);
    assert_eq!(text.len(), 64);
    assert!(text.starts_with("fffcf9"));
    assert_eq!(parse_checksum("sha256", &text).unwrap(), sum);
    assert_eq!(checksum_hex(&SHA256Checksum(vec![])), "");
}
