use nexus_core::accounts::{finish_login, login_identifier, mail_key, new_device, normalize_registration, register_checked};
use nexus_core::error::NexusError;
use nexus_core::schema::{current_version, pending_migrations, Migration};

#[test]
fn registration_is_normalized() {
    let reg = normalize_registration("  TestUser  ", "USER@Example.COM", "SecretPass123!").unwrap();
    assert_eq!(reg.user_name, "TestUser");
    assert_eq!(reg.user_mail, "user@example.com");
}

#[test]
fn registration_rejects_empty_fields() {
    assert_eq!(normalize_registration("   ", "a@b.c", "pw").unwrap_err(), "Username cannot be empty");
    assert_eq!(normalize_registration("n", "  ", "pw").unwrap_err(), "Email cannot be empty");
    assert_eq!(normalize_registration("n", "a@b.c", "   ").unwrap_err(), "Password cannot be empty");
}

#[test]
fn duplicates_are_refused_and_password_is_hashed() {
    let reg = normalize_registration("testuser", "user@example.com", "SecretPass123!").unwrap();
    assert_eq!(register_checked(reg.clone(), "SecretPass123!", true, false, 1, 2).unwrap_err(), "Username already exists");
    assert_eq!(register_checked(reg.clone(), "SecretPass123!", false, true, 1, 2).unwrap_err(), "Email already registered");
    let user = register_checked(reg, "SecretPass123!", false, false, 1, 2).unwrap();
    assert_eq!(user.user_id, 1);
    assert_eq!(user.created_at, 2);
    assert!(user.user_password_hash.starts_with("$argon2"));
    assert_ne!(user.user_password_hash, "SecretPass123!");
    let logged = finish_login(Some(user.clone()), "SecretPass123!").unwrap();
    assert_eq!(logged.user_id, 1);
    assert_eq!(finish_login(Some(user), "wrong").unwrap_err(), "Invalid credentials");
}

#[test]
fn login_errors_are_uniform() {
    assert_eq!(finish_login(None, "password").unwrap_err(), "Invalid credentials");
    assert_eq!(login_identifier("  ", "x").unwrap_err(), "Identifier cannot be empty");
    assert_eq!(login_identifier("bob", "").unwrap_err(), "Password cannot be empty");
    assert_eq!(login_identifier("  Bob ", "x").unwrap(), "Bob");
    assert_eq!(mail_key("Bob@Example.com"), "bob@example.com");
}

#[test]
fn corrupt_stored_hash_is_reported() {
    let reg = normalize_registration("a", "a@b.c", "pw").unwrap();
    let mut user = register_checked(reg, "pw", false, false, 1, 2).unwrap();
    user.user_password_hash = "not a hash".to_string();
    assert_eq!(finish_login(Some(user), "pw").unwrap_err(), "Stored password hash is invalid");
}

#[test]
fn device_registration_trims_fields() {
    let d = new_device(true, 5, "  mobile  ", Some("  token123  ".to_string()), 6, 7).unwrap();
    assert_eq!(d.device_type, "mobile");
    assert_eq!(d.push_token.as_deref(), Some("token123"));
    assert_eq!(d.last_seen, Some(7));
    let blank = new_device(true, 5, "desk", Some("   ".to_string()), 6, 7).unwrap();
    assert!(blank.push_token.is_none());
    assert_eq!(new_device(true, 5, "   ", None, 6, 7).unwrap_err(), "Device type cannot be empty");
    assert_eq!(new_device(false, 5, "mobile", None, 6, 7).unwrap_err(), "User not found");
}

#[test]
fn error_messages_carry_their_kind() {
    assert_eq!(NexusError::Validation("x".to_string()).message(), "Validation error: x");
    assert_eq!(NexusError::NotFound("peer".to_string()).message(), "Not found: peer");
    assert_eq!(NexusError::Other("plain".to_string()).message(), "plain");
}

#[test]
fn migrations_newer_than_current_are_pending() {
    let ms = [
        Migration { version: 1, description: "one", sql: "" },
        Migration { version: 2, description: "two", sql: "" },
        Migration { version: 3, description: "three", sql: "" },
    ];
    assert_eq!(pending_migrations(&ms, 0), vec![0, 1, 2]);
    assert_eq!(pending_migrations(&ms, 2), vec![2]);
    assert!(pending_migrations(&ms, 3).is_empty());
    assert_eq!(current_version(&[]), 0);
    assert_eq!(current_version(&[1, 3, 2]), 3);
}
