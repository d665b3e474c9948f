use libp2p::identity::{self, Keypair};
use nexus_core::auth::{
    generate_nonce, paired_device, pairing_sync_key, AuthChallenge, AuthResult, AuthorizerWorkflow,
    DeviceAuthManager, NewDeviceWorkflow,
};
use uuid::Uuid;

const T0: i64 = 1_700_000_000_000_000;

fn new_id() -> u128 {
    Uuid::new_v4().as_u128()
}

fn challenge_at(manager: &mut DeviceAuthManager, keypair: &Keypair, user_id: u128, minutes: i64, now: i64) -> AuthChallenge {
    manager
        .create_challenge_at(
            user_id,
            new_id(),
            keypair.public().to_peer_id().to_string(),
            keypair.public().encode_protobuf(),
            "/ip4/192.168.1.100/tcp/4001".to_string(),
            minutes,
            new_id(),
            generate_nonce(),
            now,
        )
        .unwrap()
}

#[test]
fn test_generate_nonce() {
    let nonce = generate_nonce();
    assert_eq!(nonce.len(), 64);
}

#[test]
fn test_create_and_encode_challenge() {
    let mut manager = DeviceAuthManager::new();
    let keypair = identity::Keypair::generate_ed25519();
    let user_id = Uuid::new_v4().as_u128();
    let device_id = Uuid::new_v4().as_u128();

    let challenge = manager
        .create_challenge(user_id, device_id, &keypair, "/ip4/192.168.1.100/tcp/4001".to_string(), 5)
        .unwrap();

    let encoded = DeviceAuthManager::encode_challenge_to_qr(&challenge).unwrap();
    let decoded = DeviceAuthManager::decode_challenge_from_qr(&encoded).unwrap();

    assert_eq!(challenge.challenge_id, decoded.challenge_id);
    assert_eq!(challenge.user_id, decoded.user_id);
}

#[test]
fn test_auth_workflow() {
    let authorizer_keypair = identity::Keypair::generate_ed25519();
    let requester_keypair = identity::Keypair::generate_ed25519();

    let mut workflow = AuthorizerWorkflow::new();
    let user_id = Uuid::new_v4().as_u128();
    let device_id = Uuid::new_v4().as_u128();

    let qr_data = workflow
        .generate_qr_code(user_id, device_id, &authorizer_keypair, "/ip4/127.0.0.1/tcp/4001".to_string())
        .unwrap();

    let challenge = NewDeviceWorkflow::scan_qr_code(&qr_data).unwrap();

    let response = NewDeviceWorkflow::create_pairing_request(
        &challenge,
        "phone".to_string(),
        "My Phone".to_string(),
        &requester_keypair,
    )
    .unwrap();

    assert_eq!(response.challenge_id, challenge.challenge_id);
    assert_eq!(response.device_type, "phone");
}

#[test]
fn test_session_cleanup() {
    let mut manager = DeviceAuthManager::new();
    let keypair = identity::Keypair::generate_ed25519();

    let _challenge = manager
        .create_challenge(Uuid::new_v4().as_u128(), Uuid::new_v4().as_u128(), &keypair, "/ip4/127.0.0.1/tcp/4001".to_string(), -1)
        .unwrap();

    assert_eq!(manager.active_session_count(), 1);

    manager.cleanup_expired();

    assert_eq!(manager.active_session_count(), 0);
}

#[test]
fn qr_text_round_trips_every_field() {
    let mut manager = DeviceAuthManager::new();
    let keypair = identity::Keypair::generate_ed25519();
    let c = challenge_at(&mut manager, &keypair, 42, 5, T0);
    let text = DeviceAuthManager::encode_challenge_to_qr(&c).unwrap();
    assert!(text.chars().all(|ch| ch.is_ascii_hexdigit()));
    let d = NewDeviceWorkflow::scan_qr_code(&text).unwrap();
    assert_eq!(d.challenge_id, c.challenge_id);
    assert_eq!(d.user_id, 42);
    assert_eq!(d.authorizer_device_id, c.authorizer_device_id);
    assert_eq!(d.authorizer_peer_id, c.authorizer_peer_id);
    assert_eq!(d.authorizer_address, "/ip4/192.168.1.100/tcp/4001");
    assert_eq!(d.nonce, c.nonce);
    assert_eq!(d.public_key, c.public_key);
    assert_eq!(d.created_at, T0);
    assert_eq!(d.expires_at, T0 + 5 * 60_000_000);
}

#[test]
fn malformed_qr_text_is_refused() {
    assert!(DeviceAuthManager::decode_challenge_from_qr("zz").is_err());
    assert!(DeviceAuthManager::decode_challenge_from_qr("abc").is_err());
    // A well-formed field list holding only a challenge id.
    let mut bytes = vec![1u8, 0, 0, 0, 16];
    bytes.extend_from_slice(&[7; 16]);
    assert!(DeviceAuthManager::decode_challenge_from_qr(&hex::encode(bytes)).is_err());
}

#[test]
fn connect_address_appends_peer_id() {
    let mut manager = DeviceAuthManager::new();
    let keypair = identity::Keypair::generate_ed25519();
    let c = challenge_at(&mut manager, &keypair, 1, 5, T0);
    let addr = NewDeviceWorkflow::connect_to_authorizer(&c).unwrap();
    assert_eq!(addr, format!("/ip4/192.168.1.100/tcp/4001/p2p/{}", c.authorizer_peer_id));
}

#[test]
fn pair_happy_path() {
    let authorizer = identity::Keypair::generate_ed25519();
    let newcomer = identity::Keypair::generate_ed25519();
    let mut manager = DeviceAuthManager::new();
    let user_id = new_id();
    let c = challenge_at(&mut manager, &authorizer, user_id, 5, T0);
    let qr = DeviceAuthManager::encode_challenge_to_qr(&c).unwrap();
    let scanned = NewDeviceWorkflow::scan_qr_code(&qr).unwrap();
    let response =
        NewDeviceWorkflow::create_pairing_request(&scanned, "phone".to_string(), "My Phone".to_string(), &newcomer).unwrap();
    let result = manager.validate_response_at(&response, T0 + 30_000_000, &authorizer).unwrap();
    match result {
        AuthResult::Success { device_id, user_id: uid, sync_key } => {
            assert_eq!(device_id, response.requesting_device_id);
            assert_eq!(uid, user_id);
            assert_eq!(sync_key.len(), 32);
            let theirs = pairing_sync_key(&scanned, &newcomer).unwrap();
            assert_eq!(theirs, sync_key);
            let device = paired_device(&response, uid, T0 + 30_000_000);
            assert_eq!(device.device_id, response.requesting_device_id);
            assert_eq!(device.user_id, user_id);
            assert_eq!(device.device_type, "phone");
        }
        other => panic!("unexpected {:?}", other),
    }
    assert_eq!(manager.active_session_count(), 1);
}

#[test]
fn pair_expired_challenge() {
    let authorizer = identity::Keypair::generate_ed25519();
    let newcomer = identity::Keypair::generate_ed25519();
    let mut manager = DeviceAuthManager::new();
    let c = challenge_at(&mut manager, &authorizer, 5, -1, T0);
    let qr = DeviceAuthManager::encode_challenge_to_qr(&c).unwrap();
    let scanned = NewDeviceWorkflow::scan_qr_code(&qr).unwrap();
    let response =
        NewDeviceWorkflow::create_pairing_request(&scanned, "tablet".to_string(), "Tab".to_string(), &newcomer).unwrap();
    let result = manager.validate_response_at(&response, T0, &authorizer).unwrap();
    assert!(matches!(result, AuthResult::Expired));
}

#[test]
fn pair_replay_is_refused() {
    let authorizer = identity::Keypair::generate_ed25519();
    let newcomer = identity::Keypair::generate_ed25519();
    let mut manager = DeviceAuthManager::new();
    let c = challenge_at(&mut manager, &authorizer, 5, 5, T0);
    let response = NewDeviceWorkflow::create_pairing_request(&c, "phone".to_string(), "P".to_string(), &newcomer).unwrap();
    let first = manager.validate_response_at(&response, T0 + 30_000_000, &authorizer).unwrap();
    assert!(matches!(first, AuthResult::Success { .. }));
    let second = manager.validate_response_at(&response, T0 + 31_000_000, &authorizer).unwrap();
    match second {
        AuthResult::Failed { reason } => assert_eq!(reason, "Challenge already used"),
        other => panic!("unexpected {:?}", other),
    }
}

#[test]
fn pair_tampered_signature() {
    let authorizer = identity::Keypair::generate_ed25519();
    let newcomer = identity::Keypair::generate_ed25519();
    let mut manager = DeviceAuthManager::new();
    let c = challenge_at(&mut manager, &authorizer, 5, 5, T0);
    let mut response = NewDeviceWorkflow::create_pairing_request(&c, "phone".to_string(), "P".to_string(), &newcomer).unwrap();
    response.signed_nonce[0] ^= 0x01;
    let result = manager.validate_response_at(&response, T0 + 30_000_000, &authorizer).unwrap();
    assert!(matches!(result, AuthResult::InvalidSignature));
    // The session was not consumed: the genuine response still succeeds.
    response.signed_nonce[0] ^= 0x01;
    let retry = manager.validate_response_at(&response, T0 + 40_000_000, &authorizer).unwrap();
    assert!(matches!(retry, AuthResult::Success { .. }));
}

#[test]
fn unknown_challenge_is_an_error() {
    let authorizer = identity::Keypair::generate_ed25519();
    let newcomer = identity::Keypair::generate_ed25519();
    let mut manager = DeviceAuthManager::new();
    let c = challenge_at(&mut manager, &authorizer, 5, 5, T0);
    assert!(manager.cancel_challenge(c.challenge_id));
    assert!(!manager.cancel_challenge(c.challenge_id));
    let response = NewDeviceWorkflow::create_pairing_request(&c, "phone".to_string(), "P".to_string(), &newcomer).unwrap();
    assert_eq!(manager.validate_response_at(&response, T0, &authorizer).unwrap_err(), "Challenge not found");
}

#[test]
fn decide_response_follows_the_checks_in_order() {
    let authorizer = identity::Keypair::generate_ed25519();
    let newcomer = identity::Keypair::generate_ed25519();
    let mut manager = DeviceAuthManager::new();
    let c = challenge_at(&mut manager, &authorizer, 9, 5, T0);
    let response = NewDeviceWorkflow::create_pairing_request(&c, "watch".to_string(), "W".to_string(), &newcomer).unwrap();
    let late = manager.decide_response(&response, c.expires_at + 1, true, Some(vec![1; 32])).unwrap();
    assert!(matches!(late, AuthResult::Expired));
    let bad = manager.decide_response(&response, T0, false, Some(vec![1; 32])).unwrap();
    assert!(matches!(bad, AuthResult::InvalidSignature));
    match manager.decide_response(&response, T0, true, None).unwrap() {
        AuthResult::Failed { reason } => assert_eq!(reason, "Key agreement failed"),
        other => panic!("unexpected {:?}", other),
    }
    match manager.decide_response(&response, c.expires_at, true, Some(vec![3; 32])).unwrap() {
        AuthResult::Success { device_id, user_id, sync_key } => {
            assert_eq!(device_id, response.requesting_device_id);
            assert_eq!(user_id, 9);
            assert_eq!(sync_key, vec![3; 32]);
        }
        other => panic!("unexpected {:?}", other),
    }
}

#[test]
fn cleanup_keeps_live_sessions() {
    let keypair = identity::Keypair::generate_ed25519();
    let mut manager = DeviceAuthManager::new();
    let old = challenge_at(&mut manager, &keypair, 1, 1, T0);
    let fresh = challenge_at(&mut manager, &keypair, 1, 10, T0);
    manager.cleanup_expired_at(T0 + 2 * 60_000_000);
    assert_eq!(manager.active_session_count(), 1);
    assert!(!manager.cancel_challenge(old.challenge_id));
    assert!(manager.cancel_challenge(fresh.challenge_id));
}

#[test]
fn validity_out_of_range_is_refused() {
    let keypair = identity::Keypair::generate_ed25519();
    let mut manager = DeviceAuthManager::new();
    let r = manager.create_challenge_at(
        1,
        2,
        "p".to_string(),
        keypair.public().encode_protobuf(),
        "/ip4/1.2.3.4/tcp/1".to_string(),
        i64::MAX,
        3,
        generate_nonce(),
        T0,
    );
    assert!(r.is_err());
    assert_eq!(manager.active_session_count(), 0);
}

#[test]
fn default_managers_start_empty() {
    assert_eq!(DeviceAuthManager::default().active_session_count(), 0);
    assert_eq!(AuthorizerWorkflow::default().active_session_count(), 0);
}

#[test]
fn checking_a_response_does_not_consume_it() {
    let authorizer = identity::Keypair::generate_ed25519();
    let newcomer = identity::Keypair::generate_ed25519();
    let mut workflow = AuthorizerWorkflow::new();
    let qr = workflow.generate_qr_code(3, 4, &authorizer, "/ip4/127.0.0.1/tcp/4001".to_string()).unwrap();
    let c = NewDeviceWorkflow::scan_qr_code(&qr).unwrap();
    assert_eq!(c.expires_at, c.created_at + 5 * 60_000_000);
    assert_eq!(c.authorizer_address, "/ip4/127.0.0.1/tcp/4001");
    let response = NewDeviceWorkflow::create_pairing_request(&c, "phone".to_string(), "P".to_string(), &newcomer).unwrap();
    let now = c.created_at + 1_000_000;
    let first = workflow.check_device_at(&response, now, &authorizer).unwrap();
    let again = workflow.check_device_at(&response, now, &authorizer).unwrap();
    match (first, again) {
        (AuthResult::Success { sync_key: a, .. }, AuthResult::Success { sync_key: b, .. }) => assert_eq!(a, b),
        other => panic!("unexpected {:?}", other),
    }
    assert!(matches!(workflow.authorize_device_at(&response, now, &authorizer).unwrap(), AuthResult::Success { .. }));
    assert!(matches!(workflow.check_device_at(&response, now, &authorizer).unwrap(), AuthResult::Failed { .. }));
}

#[test]
fn nonce_is_lowercase_hex() {
    let nonce = generate_nonce();
    assert!(nonce.chars().all(|c| c.is_ascii_digit() || ('a'..='f').contains(&c)));
    assert_eq!(hex::decode(&nonce).unwrap().len(), 32);
}

#[test]
fn zero_validity_challenge_is_created() {
    let keypair = identity::Keypair::generate_ed25519();
    let mut manager = DeviceAuthManager::new();
    let c = manager.create_challenge(1, 2, &keypair, "/ip4/1.2.3.4/tcp/5".to_string(), 0).unwrap();
    assert_eq!(c.expires_at, c.created_at);
    assert_eq!(c.public_key, keypair.public().encode_protobuf());
    assert_eq!(c.authorizer_peer_id, keypair.public().to_peer_id().to_string());
}
