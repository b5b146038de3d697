use ledger_node::error::CryptoError;
use ledger_node::utils::Utils;

const PRIVATE_A: &str = "MIGEAgEAMBAGByqGSM49AgEGBSuBBAAKBG0wawIBAQQgYp6GnxdjxLvnucsaaTZ+J+FqtCdjbEaQsEqxk3KHJ3yhRANCAAR6X+Ws+hYmkOMIZTq/HMVBRbMcT1lADpd4z5c3MG6LzyuMDBMGOZ4C3gceN6I0/kzgQ/DWEZcNY4s6/WgLxUD1";
const PUBLIC_A: &str = "MFYwEAYHKoZIzj0CAQYFK4EEAAoDQgAEel/lrPoWJpDjCGU6vxzFQUWzHE9ZQA6XeM+XNzBui88rjAwTBjmeAt4HHjeiNP5M4EPw1hGXDWOLOv1oC8VA9Q==";
const PUBLIC_B: &str = "MFYwEAYHKoZIzj0CAQYFK4EEAAoDQgAEUp7KSQXihfU61eVpg07CV2/8LYoWeGMl0ZhgEjCG83WLlvgeb4dQf3Ub2deTXvHoVEP8R9Nt31cdUkyc5EnqEg==";

#[test]
fn lib_test() {
    let signing_key = Utils::get_signing_key(PRIVATE_A).unwrap();
    let verifying_key = Utils::get_verifying_key(PUBLIC_A).unwrap();
    let data = "Hello, world!";
    let signature = Utils::sign_data(data, &signing_key);
    assert!(Utils::verify_signature(data, &signature, &verifying_key));

    let encoded_signature = Utils::encode_signature(&signature);
    let decoded_signature = Utils::decode_signature(&encoded_signature).unwrap();
    assert_eq!(signature, decoded_signature);
}

#[test]
fn hash_of_known_texts() {
    assert_eq!(
        Utils::hash_data(""),
        "e3b0c44298fc1c149afbf4c8996fb92427ae41e4649b934ca495991b7852b855"
    );
    assert_eq!(
        Utils::hash_data("abc"),
        "ba7816bf8f01cfea414140de5dae2223b00361a396177a9cb410ff61f20015ad"
    );
}

#[test]
fn signature_under_other_key_fails() {
    let signing_key = Utils::get_signing_key(PRIVATE_A).unwrap();
    let other = Utils::get_verifying_key(PUBLIC_B).unwrap();
    let signature = Utils::sign_data("data", &signing_key);
    assert!(!Utils::verify_signature("data", &signature, &other));
    let mine = Utils::get_verifying_key(PUBLIC_A).unwrap();
    assert!(!Utils::verify_signature("other data", &signature, &mine));
}

#[test]
fn encoded_signature_is_lowercase_hex_of_der() {
    let signing_key = Utils::get_signing_key(PRIVATE_A).unwrap();
    let signature = Utils::sign_data("data", &signing_key);
    let encoded = Utils::encode_signature(&signature);
    assert!(encoded.len() % 2 == 0 && encoded.len() > 0);
    assert!(encoded.chars().all(|c| c.is_ascii_digit() || ('a'..='f').contains(&c)));
    // a DER signature is a SEQUENCE
    assert!(encoded.starts_with("30"));
    let upper = Utils::decode_signature(&encoded.to_uppercase()).unwrap();
    assert_eq!(upper, signature);
    assert!(Utils::verify_text("data", &encoded, PUBLIC_A));
    assert!(!Utils::verify_text("data", &encoded, PUBLIC_B));
}

#[test]
fn bad_encodings_are_refused() {
    assert_eq!(Utils::get_verifying_key("not base64!").err(), Some(CryptoError::BadEncoding));
    assert_eq!(Utils::get_verifying_key("aGVsbG8=").err(), Some(CryptoError::BadEncoding));
    assert_eq!(Utils::get_signing_key(PUBLIC_A).err(), Some(CryptoError::BadEncoding));
    assert_eq!(Utils::get_verifying_key(PRIVATE_A).err(), Some(CryptoError::BadEncoding));
    assert_eq!(Utils::decode_signature("abc").err(), Some(CryptoError::BadEncoding));
    assert_eq!(Utils::decode_signature("zz").err(), Some(CryptoError::BadEncoding));
    assert_eq!(Utils::decode_signature("0102").err(), Some(CryptoError::BadEncoding));
    assert!(!Utils::verify_text("data", "zz", PUBLIC_A));
}

#[test]
fn public_key_of_private_key_verifies_its_signatures() {
    let signing_key = Utils::get_signing_key(PRIVATE_A).unwrap();
    let derived = Utils::verifying_key_of(&signing_key).unwrap();
    let signature = Utils::sign_data("text", &signing_key);
    assert!(Utils::verify_signature("text", &signature, &derived));
    let other = Utils::get_verifying_key(PUBLIC_B).unwrap();
    assert!(!Utils::verify_signature("text", &signature, &other));
}
