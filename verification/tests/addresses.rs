use bitcoins::enc::{Address, BitcoinEncoder, Main, Test};
use bitcoins::errors::EncodingError;
use bitcoins::hex::decode_hex;
use bitcoins::script::ScriptPubkey;

fn mainnet() -> BitcoinEncoder {
    BitcoinEncoder::new(Main::params())
}

fn script(hex: &str) -> ScriptPubkey {
    ScriptPubkey::new(decode_hex(hex).unwrap())
}

#[test]
fn it_wraps_address_strings() {
    let enc = mainnet();
    let cases = [
        (
            "bc1qza7dfgl2q83cf68fqkkdd754qx546h4u9vd9tg".to_owned(),
            Address::Wpkh("bc1qza7dfgl2q83cf68fqkkdd754qx546h4u9vd9tg".to_owned()),
        ),
        (
            "bc1qwqdg6squsna38e46795at95yu9atm8azzmyvckulcc7kytlcckxswvvzej".to_owned(),
            Address::Wsh(
                "bc1qwqdg6squsna38e46795at95yu9atm8azzmyvckulcc7kytlcckxswvvzej".to_owned(),
            ),
        ),
        (
            "1AqE7oGF1EUoJviX1uuYrwpRBdEBTuGhES".to_owned(),
            Address::Pkh("1AqE7oGF1EUoJviX1uuYrwpRBdEBTuGhES".to_owned()),
        ),
        (
            "3HXNFmJpxjgTVFN35Y9f6Waje5YFsLEQZ2".to_owned(),
            Address::Sh("3HXNFmJpxjgTVFN35Y9f6Waje5YFsLEQZ2".to_owned()),
        ),
    ];
    for case in cases.iter() {
        assert_eq!(enc.string_to_address(&case.0).unwrap(), case.1);
    }

    let errors = [
        "hello",
        "this isn't a real address",
        "bc10pu8s7rc0pu8s7rc0putt44am", // valid bech32, bad length
    ];
    for case in errors.iter() {
        match enc.string_to_address(case) {
            Err(EncodingError::UnknownScriptType) => {},
            _ => panic!("expected err UnknownScriptType"),
        }
    }
}

#[test]
fn it_encodes_addresses() {
    let enc = mainnet();
    let cases = [
        (
            script("a914e88869b88866281ab166541ad8aafba8f8aba47a87"),
            Address::Sh("3NtY7BrF3xrcb31JXXaYCKVcz1cH3Azo5y".to_owned()),
        ),
        (
            script("76a9140e5c3c8d420c7f11e88d76f7b860d471e6517a4488ac"),
            Address::Pkh("12JvxPk4mT4PKMVHuHc1aQGBZpotQWQwF6".to_owned()),
        ),
        (
            script("00201bf8a1831db5443b42a44f30a121d1b616d011ab15df62b588722a845864cc99"),
            Address::Wsh(
                "bc1qr0u2rqcak4zrks4yfuc2zgw3kctdqydtzh0k9dvgwg4ggkryejvsy49jvz".to_owned(),
            ),
        ),
        (
            script("00141bf8a1831db5443b42a44f30a121d1b616d011ab"),
            Address::Wpkh("bc1qr0u2rqcak4zrks4yfuc2zgw3kctdqydt3wy5yh".to_owned()),
        ),
    ];
    for case in cases.iter() {
        assert_eq!(enc.encode_address(&case.0).unwrap(), case.1);
    }
    let errors = [
        // wrong witness program version
        script("01201bf8a1831db5443b42a44f30a121d1b616d011ab15df62b588722a845864cc99"),
        // wrong last byte
        script("a914e88869b88866281ab166541ad8aafba8f8aba47a89"),
        // wrong first byte
        script("aa14e88869b88866281ab166541ad8aafba8f8aba47a87"),
        // wrong last byte
        script("76a9140e5c3c8d420c7f11e88d76f7b860d471e6517a4488ad"),
        // wrong first byte
        script("77a9140e5c3c8d420c7f11e88d76f7b860d471e6517a4488ac"),
        // wrong witness program version
        script("01141bf8a1831db5443b42a44f30a121d1b616d011ab"),
        // junk
        script("0011223344"),
        // junk
        script("deadbeefdeadbeefdeadbeefdeadbeef"),
        // raw msig
        script("02031bf8a1831db5443b42a44f30a121d1b616d011ab15df62b588722a845864cc99041bf8a1831db5443b42a44f30a121d1b616d011ab15df62b588722a845864cc9902af"),
    ];
    for case in errors.iter() {
        match enc.encode_address(case) {
            Err(EncodingError::UnknownScriptType) => {},
            _ => panic!("expected err UnknownScriptType"),
        }
    }
}

#[test]
fn it_allows_you_to_unwrap_strings_from_addresses() {
    let cases = [
        (
            "3NtY7BrF3xrcb31JXXaYCKVcz1cH3Azo5y".to_owned(),
            Address::Sh("3NtY7BrF3xrcb31JXXaYCKVcz1cH3Azo5y".to_owned()),
        ),
        (
            "12JvxPk4mT4PKMVHuHc1aQGBZpotQWQwF6".to_owned(),
            Address::Pkh("12JvxPk4mT4PKMVHuHc1aQGBZpotQWQwF6".to_owned()),
        ),
        (
            "bc1qr0u2rqcak4zrks4yfuc2zgw3kctdqydtzh0k9dvgwg4ggkryejvsy49jvz".to_owned(),
            Address::Wsh(
                "bc1qr0u2rqcak4zrks4yfuc2zgw3kctdqydtzh0k9dvgwg4ggkryejvsy49jvz".to_owned(),
            ),
        ),
        (
            "bc1qr0u2rqcak4zrks4yfuc2zgw3kctdqydt3wy5yh".to_owned(),
            Address::Wpkh("bc1qr0u2rqcak4zrks4yfuc2zgw3kctdqydt3wy5yh".to_owned()),
        ),
    ];
    for case in cases.iter() {
        assert_eq!(case.1.as_string(), case.0);
    }
}

#[test]
fn round_trips_reproduce_template_bytes() {
    let enc = mainnet();
    let scripts = [
        "76a9140e5c3c8d420c7f11e88d76f7b860d471e6517a4488ac",
        "a914e88869b88866281ab166541ad8aafba8f8aba47a87",
        "00201bf8a1831db5443b42a44f30a121d1b616d011ab15df62b588722a845864cc99",
        "00141bf8a1831db5443b42a44f30a121d1b616d011ab",
    ];
    for hex in scripts.iter() {
        let s = script(hex);
        let addr = enc.encode_address(&s).unwrap();
        let back = enc.decode_address(&addr).unwrap();
        assert_eq!(back.items(), s.items());
    }
}

#[test]
fn op_return_scripts_have_no_address() {
    let enc = mainnet();
    let carriers = [
        "6a0b68656c6c6f20776f726c64",
        "6a",
        "6adeadbeef",
    ];
    for hex in carriers.iter() {
        match enc.encode_address(&script(hex)) {
            Err(EncodingError::NullDataScript) => {},
            _ => panic!("expected err NullDataScript"),
        }
    }
}

#[test]
fn mutated_addresses_fail_the_checksum() {
    let enc = mainnet();
    // the last character of a valid script-hash address, changed
    let mutated = "3HXNFmJpxjgTVFN35Y9f6Waje5YFsLEQZ3";
    match enc.string_to_address(mutated) {
        Err(EncodingError::UnknownScriptType) => {},
        _ => panic!("expected err UnknownScriptType"),
    }
    match enc.decode_address(&Address::Sh(mutated.to_owned())) {
        Err(EncodingError::BadBase58Checksum) => {},
        other => panic!("expected a checksum failure, got {:?}", other),
    }
    // one character of a valid witness address, changed
    let mutated_w = "bc1qr0u2rqcak4zrks4yfuc2zgw3kctdqydt3wy5yy";
    match enc.decode_address(&Address::Wpkh(mutated_w.to_owned())) {
        Err(EncodingError::BadBech32Checksum) => {},
        other => panic!("expected a checksum failure, got {:?}", other),
    }
}

#[test]
fn addresses_do_not_cross_networks() {
    let main_enc = mainnet();
    let test_enc = BitcoinEncoder::new(Test::params());
    let legacy = script("76a9140e5c3c8d420c7f11e88d76f7b860d471e6517a4488ac");
    let witness = script("00141bf8a1831db5443b42a44f30a121d1b616d011ab");
    let pkh = main_enc.encode_address(&legacy).unwrap();
    let wpkh = main_enc.encode_address(&witness).unwrap();
    match test_enc.decode_address(&pkh) {
        Err(EncodingError::WrongVersion) => {},
        other => panic!("expected err WrongVersion, got {:?}", other),
    }
    match test_enc.decode_address(&wpkh) {
        Err(EncodingError::WrongHrp) => {},
        other => panic!("expected err WrongHrp, got {:?}", other),
    }
    assert!(test_enc.string_to_address(&pkh.as_string()).is_err());
}

#[test]
fn descriptors_wrap_the_address_string() {
    let a = Address::Pkh("12JvxPk4mT4PKMVHuHc1aQGBZpotQWQwF6".to_owned());
    assert_eq!(a.to_descriptor(), "addr(12JvxPk4mT4PKMVHuHc1aQGBZpotQWQwF6)");
}

#[test]
fn testnet_and_signet_share_nothing_with_mainnet() {
    let main_p = Main::params();
    let test_p = Test::params();
    let sig_p = bitcoins::enc::Sig::params();
    assert_ne!(main_p.pkh_version, test_p.pkh_version);
    assert_ne!(main_p.sh_version, test_p.sh_version);
    assert_ne!(main_p.hrp, test_p.hrp);
    assert_ne!(test_p.pkh_version, sig_p.pkh_version);
    assert_ne!(test_p.sh_version, sig_p.sh_version);
    assert_ne!(test_p.hrp, sig_p.hrp);
    assert_ne!(main_p.pkh_version, sig_p.pkh_version);
    assert_ne!(main_p.sh_version, sig_p.sh_version);
    assert_ne!(main_p.hrp, sig_p.hrp);
}
