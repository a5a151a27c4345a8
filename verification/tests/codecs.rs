use bitcoins::base58::{decode_base58, encode_base58};
use bitcoins::bech32::{decode_bech32, encode_bech32};
use bitcoins::errors::EncodingError;
use bitcoins::hashes::{blake2b256_digest, hash160, hash256, Hash256Digest, MarkedDigestOutput};
use bitcoins::hex::{decode_hex, encode_hex};

#[test]
fn hex_encodes_and_decodes_exactly() {
    let bytes = decode_hex("00ff10ab").unwrap();
    assert_eq!(bytes, vec![0x00u8, 0xff, 0x10, 0xab]);
    assert_eq!(encode_hex(&bytes), "00ff10ab");
    assert_eq!(encode_hex(&[]), "");
    assert!(decode_hex("0").is_none());
    assert!(decode_hex("zz").is_none());
    assert_eq!(decode_hex("DEADbeef").unwrap(), vec![0xdeu8, 0xad, 0xbe, 0xef]);
}

#[test]
fn base58check_is_exact_on_a_known_vector() {
    // the script-hash payload of a known mainnet address
    let payload = decode_hex("e88869b88866281ab166541ad8aafba8f8aba47a").unwrap();
    let text = encode_base58(0x05, &payload);
    assert_eq!(text, "3NtY7BrF3xrcb31JXXaYCKVcz1cH3Azo5y");
    let back = decode_base58(0x05, &text).unwrap();
    assert_eq!(back, payload);
}

#[test]
fn base58check_reports_each_failure() {
    match decode_base58(0x00, "hell0o") {
        Err(EncodingError::InvalidBase58Char) => {},
        other => panic!("expected err InvalidBase58Char, got {:?}", other),
    }
    match decode_base58(0x00, "1") {
        Err(EncodingError::TooShortBase58) => {},
        other => panic!("expected err TooShortBase58, got {:?}", other),
    }
    match decode_base58(0x6f, "3NtY7BrF3xrcb31JXXaYCKVcz1cH3Azo5y") {
        Err(EncodingError::WrongVersion) => {},
        other => panic!("expected err WrongVersion, got {:?}", other),
    }
    match decode_base58(0x05, "3NtY7BrF3xrcb31JXXaYCKVcz1cH3Azo5z") {
        Err(EncodingError::BadBase58Checksum) => {},
        other => panic!("expected err BadBase58Checksum, got {:?}", other),
    }
}

#[test]
fn bech32_is_exact_on_a_known_vector() {
    let witness_script =
        decode_hex("00141bf8a1831db5443b42a44f30a121d1b616d011ab").unwrap();
    let text = encode_bech32("bc", &witness_script).unwrap();
    assert_eq!(text, "bc1qr0u2rqcak4zrks4yfuc2zgw3kctdqydt3wy5yh");
    let back = decode_bech32("bc", &text).unwrap();
    assert_eq!(back, witness_script);
}

#[test]
fn bech32_reports_each_failure() {
    match decode_bech32("bc", "bcqqqqqqqq") {
        Err(EncodingError::MissingSeparator) => {},
        other => panic!("expected err MissingSeparator, got {:?}", other),
    }
    match decode_bech32("tb", "bc1qr0u2rqcak4zrks4yfuc2zgw3kctdqydt3wy5yh") {
        Err(EncodingError::WrongHrp) => {},
        other => panic!("expected err WrongHrp, got {:?}", other),
    }
    match decode_bech32("bc", "bc1qqq") {
        Err(EncodingError::InvalidLength) => {},
        other => panic!("expected err InvalidLength, got {:?}", other),
    }
    match decode_bech32("bc", "bc1bbbbbbb") {
        Err(EncodingError::InvalidBech32Char) => {},
        other => panic!("expected err InvalidBech32Char, got {:?}", other),
    }
    match decode_bech32("bc", "bc1qqqqqqq") {
        Err(EncodingError::BadBech32Checksum) => {},
        other => panic!("expected err BadBech32Checksum, got {:?}", other),
    }
    match encode_bech32("bc", &[0x00]) {
        Err(EncodingError::InvalidLength) => {},
        other => panic!("expected err InvalidLength, got {:?}", other),
    }
    match encode_bech32("bc", &[0x20, 0x02, 0xab, 0xcd]) {
        Err(EncodingError::InvalidWitnessVersion) => {},
        other => panic!("expected err InvalidWitnessVersion, got {:?}", other),
    }
}

#[test]
fn marked_digests_have_their_fixed_widths() {
    let data = decode_hex("deadbeef").unwrap();
    let h256 = hash256(&data);
    let h160 = hash160(&data);
    let b256 = blake2b256_digest(&data);
    assert_eq!(h256.size(), 32);
    assert_eq!(h160.size(), 20);
    assert_eq!(b256.size(), 32);
    // double-SHA256 of an empty input is a published constant
    let empty256 = hash256(&[]);
    assert_eq!(
        encode_hex(empty256.as_slice()),
        "5df6e0e2761359d30a8275058e299fcc0381534545f55cf43e41983f5d4c9456"
    );
}

#[test]
fn be_hex_conversions_are_inverses() {
    let be = "5df6e0e2761359d30a8275058e299fcc0381534545f55cf43e41983f5d4c9456";
    let d = Hash256Digest::from_be_hex(be).unwrap();
    assert_eq!(d.to_be_hex(), be);
    let r = d.reversed();
    assert_eq!(encode_hex(r.as_slice()), be);
    assert!(Hash256Digest::from_be_hex("00ff").is_none());
    assert!(Hash256Digest::from_be_hex("xyz").is_none());
}
