use ledger_node::envelope::{authenticate, handle_request, EnvelopeError, PeerDirectory, Request};
use ledger_node::utils::Utils;

const PRIVATE_A: &str = "MIGEAgEAMBAGByqGSM49AgEGBSuBBAAKBG0wawIBAQQgYp6GnxdjxLvnucsaaTZ+J+FqtCdjbEaQsEqxk3KHJ3yhRANCAAR6X+Ws+hYmkOMIZTq/HMVBRbMcT1lADpd4z5c3MG6LzyuMDBMGOZ4C3gceN6I0/kzgQ/DWEZcNY4s6/WgLxUD1";
const PUBLIC_A: &str = "MFYwEAYHKoZIzj0CAQYFK4EEAAoDQgAEel/lrPoWJpDjCGU6vxzFQUWzHE9ZQA6XeM+XNzBui88rjAwTBjmeAt4HHjeiNP5M4EPw1hGXDWOLOv1oC8VA9Q==";
const PRIVATE_B: &str = "MIGEAgEAMBAGByqGSM49AgEGBSuBBAAKBG0wawIBAQQgGYFjSRDEGRmqvaJreuMY22pZz3TojuOm2dEmxhtbPTyhRANCAARSnspJBeKF9TrV5WmDTsJXb/wtihZ4YyXRmGASMIbzdYuW+B5vh1B/dRvZ15Ne8ehUQ/xH023fVx1STJzkSeoS";
const PUBLIC_B: &str = "MFYwEAYHKoZIzj0CAQYFK4EEAAoDQgAEUp7KSQXihfU61eVpg07CV2/8LYoWeGMl0ZhgEjCG83WLlvgeb4dQf3Ub2deTXvHoVEP8R9Nt31cdUkyc5EnqEg==";

fn signature_of(text: &str, private: &str) -> String {
    let key = Utils::get_signing_key(private).unwrap();
    Utils::encode_signature(&Utils::sign_data(text, &key))
}

fn directory() -> PeerDirectory {
    let mut peers = PeerDirectory::new();
    peers.insert(PUBLIC_A, "10.0.0.1:8080");
    peers
}

fn request(from: &str, signature: String) -> Request {
    Request {
        to: PUBLIC_B.to_string(),
        from: from.to_string(),
        signature,
        message: "{\"type\":\"Transaction\"}".to_string(),
    }
}

#[test]
fn authentic_envelope_is_forwarded() {
    let req = request(PUBLIC_A, signature_of(PUBLIC_A, PRIVATE_A));
    assert_eq!(authenticate(&req, PUBLIC_B, &directory()), Ok(()));
    let (response, forwarded) = handle_request(&req, PUBLIC_B, &directory());
    assert_eq!(response.status, 200);
    assert_eq!(response.message, "OK");
    assert_eq!(response.from, PUBLIC_B);
    assert_eq!(forwarded, Some(req.message.clone()));
}

#[test]
fn envelope_spoof_is_refused() {
    let req = request(PUBLIC_A, signature_of(PUBLIC_A, PRIVATE_B));
    let (response, forwarded) = handle_request(&req, PUBLIC_B, &directory());
    assert_eq!(response.status, 500);
    assert_eq!(response.message, "Invalid signature");
    assert_eq!(forwarded, None);
}

#[test]
fn unknown_sender_is_refused() {
    let req = request(PUBLIC_B, signature_of(PUBLIC_B, PRIVATE_B));
    let (response, forwarded) = handle_request(&req, PUBLIC_B, &directory());
    assert_eq!(response.status, 500);
    assert_eq!(response.message, "Unknown sender");
    assert_eq!(forwarded, None);
}

#[test]
fn unknown_recipient_is_refused() {
    let req = request(PUBLIC_A, signature_of(PUBLIC_A, PRIVATE_A));
    assert_eq!(authenticate(&req, PUBLIC_A, &directory()), Err(EnvelopeError::UnknownRecipient));
    let (response, _) = handle_request(&req, PUBLIC_A, &directory());
    assert_eq!(response.status, 500);
    assert_eq!(response.message, "Unknown recipient");
}

#[test]
fn undecodable_signature_is_refused() {
    let req = request(PUBLIC_A, "not hex".to_string());
    assert_eq!(authenticate(&req, PUBLIC_B, &directory()), Err(EnvelopeError::BadEncoding));
    let (response, _) = handle_request(&req, PUBLIC_B, &directory());
    assert_eq!(response.message, "Bad encoding");
}

#[test]
fn peer_directory_lookup() {
    let peers = directory();
    assert!(peers.contains(PUBLIC_A));
    assert!(!peers.contains(PUBLIC_B));
    assert_eq!(peers.len(), 1);
    assert_eq!(peers.get(0), (PUBLIC_A.to_string(), "10.0.0.1:8080".to_string()));
}
