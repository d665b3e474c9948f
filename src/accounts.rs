//! Account rules: registration and login checks, device registration.
//!
//! Lookups and writes of the store of users and devices are done by the
//! caller, which hands their results in.
use vstd::prelude::*;
use argon2::{PasswordHasher, PasswordVerifier};
use vstd::utf8::encode_utf8;
use crate::models::{Device, User};
use crate::text::{lower_of, lowercase, trim_str, trimmed_of};

verus! {

/// Whether `password` matches the PHC-format hash `hash`; `None` when the hash
/// does not parse.
pub uninterp spec fn password_check_of(hash: Seq<char>, password: Seq<char>) -> Option<bool>;

/// Relies on `argon2::PasswordHasher::hash_password` with a salt drawn by
/// `SaltString::generate` from the operating system generator; `None` where
/// hashing fails, which happens only for a password longer than
/// `u32::MAX` bytes. The salt makes the result differ from call to call.
#[verifier::external_body]
fn hash_password(password: &str) -> (r: Option<String>)
    ensures
        encode_utf8(password@).len() <= u32::MAX ==> r is Some,
{
    let salt = argon2::password_hash::SaltString::generate(&mut argon2::password_hash::rand_core::OsRng);
    match argon2::Argon2::default().hash_password(password.as_bytes(), &salt) {
        Ok(h) => Some(h.to_string()),
        Err(_) => None,
    }
}

/// Relies on `argon2::PasswordHash::new` and
/// `argon2::PasswordVerifier::verify_password` with the default parameters.
#[verifier::external_body]
fn check_password(hash: &str, password: &str) -> (r: Option<bool>)
    ensures
        r == password_check_of(hash@, password@),
{
    match argon2::PasswordHash::new(hash) {
        Ok(parsed) => Some(argon2::Argon2::default().verify_password(password.as_bytes(), &parsed).is_ok()),
        Err(_) => None,
    }
}

/// `r` is the error `msg`.
pub open spec fn fails_with<T>(r: Result<T, String>, msg: Seq<char>) -> bool {
    r matches Err(e) && e@ == msg
}

/// Normalized registration input.
#[derive(Debug, Clone)]
pub struct Registration {
    /// The trimmed user name.
    pub user_name: String,
    /// The trimmed, lowercased mail address.
    pub user_mail: String,
}

/// Checks and normalizes registration input: the name is trimmed, the mail
/// trimmed and lowercased, and none of them, nor the trimmed password, may be
/// empty.
pub fn normalize_registration(user_name: &str, user_mail: &str, password: &str) -> (r: Result<Registration, String>)
    ensures
        trimmed_of(user_name@).len() == 0 ==> fails_with(r, "Username cannot be empty"@),
        trimmed_of(user_name@).len() > 0 && lower_of(trimmed_of(user_mail@)).len() == 0 ==> fails_with(r, "Email cannot be empty"@),
        trimmed_of(user_name@).len() > 0 && lower_of(trimmed_of(user_mail@)).len() > 0 && trimmed_of(password@).len() == 0
            ==> fails_with(r, "Password cannot be empty"@),
        trimmed_of(user_name@).len() > 0 && lower_of(trimmed_of(user_mail@)).len() > 0 && trimmed_of(password@).len() > 0
            ==> (r matches Ok(reg) && reg.user_name@ == trimmed_of(user_name@) && reg.user_mail@ == lower_of(
            trimmed_of(user_mail@),
        )),
{
    let name = trim_str(user_name);
    if name.as_str().is_empty() {
        return Err("Username cannot be empty".to_string());
    }
    let mail_trimmed = trim_str(user_mail);
    let mail = lowercase(mail_trimmed.as_str());
    if mail.as_str().is_empty() {
        return Err("Email cannot be empty".to_string());
    }
    let pw = trim_str(password);
    if pw.as_str().is_empty() {
        return Err("Password cannot be empty".to_string());
    }
    Ok(Registration { user_name: name, user_mail: mail })
}

/// Completes a registration once the caller has looked up whether the name
/// and the mail are taken: a taken name, then a taken mail, is refused;
/// otherwise the password is hashed and the user record built.
pub fn register_checked(
    reg: Registration,
    password: &str,
    name_taken: bool,
    mail_taken: bool,
    user_id: u128,
    now: i64,
) -> (r: Result<User, String>)
    ensures
        name_taken ==> fails_with(r, "Username already exists"@),
        !name_taken && mail_taken ==> fails_with(r, "Email already registered"@),
        !name_taken && !mail_taken ==> r is Ok || fails_with(r, "Password hashing failed"@),
        !name_taken && !mail_taken && encode_utf8(password@).len() <= u32::MAX ==> r is Ok,
        r matches Ok(u) ==> !name_taken && !mail_taken && u.user_id == user_id && u.user_name@
            == reg.user_name@ && u.user_mail@ == reg.user_mail@ && u.created_at == now,
{
    if name_taken {
        return Err("Username already exists".to_string());
    }
    if mail_taken {
        return Err("Email already registered".to_string());
    }
    match hash_password(password) {
        None => Err("Password hashing failed".to_string()),
        Some(user_password_hash) => Ok(
            User {
                user_id,
                user_name: reg.user_name,
                user_password_hash,
                user_mail: reg.user_mail,
                created_at: now,
            },
        ),
    }
}

/// Checks login input; returns the trimmed identifier to look up by name,
/// and then (lowercased) by mail.
pub fn login_identifier(identifier: &str, password: &str) -> (r: Result<String, String>)
    ensures
        trimmed_of(identifier@).len() == 0 ==> fails_with(r, "Identifier cannot be empty"@),
        trimmed_of(identifier@).len() > 0 && password@.len() == 0 ==> fails_with(r, "Password cannot be empty"@),
        trimmed_of(identifier@).len() > 0 && password@.len() > 0 ==> (r matches Ok(id) && id@ == trimmed_of(identifier@)),
{
    let id = trim_str(identifier);
    if id.as_str().is_empty() {
        return Err("Identifier cannot be empty".to_string());
    }
    if password.is_empty() {
        return Err("Password cannot be empty".to_string());
    }
    Ok(id)
}

/// The mail form of a login identifier.
pub fn mail_key(identifier: &str) -> (r: String)
    ensures
        r@ == lower_of(identifier@),
{
    lowercase(identifier)
}

/// Completes a login once the caller has looked the user up. An unknown user
/// and a wrong password give the same error; for an unknown user a hash is
/// still computed so that both take comparable time.
pub fn finish_login(user: Option<User>, password: &str) -> (r: Result<User, String>)
    ensures
        user is None ==> fails_with(r, "Invalid credentials"@),
        user matches Some(u) ==> match password_check_of(u.user_password_hash@, password@) {
            None => fails_with(r, "Stored password hash is invalid"@),
            Some(false) => fails_with(r, "Invalid credentials"@),
            Some(true) => (r matches Ok(v) && v.user_id == u.user_id && v.user_name@ == u.user_name@),
        },
{
    match user {
        None => {
            let _ = hash_password(password);
            Err("Invalid credentials".to_string())
        },
        Some(u) => match check_password(u.user_password_hash.as_str(), password) {
            None => Err("Stored password hash is invalid".to_string()),
            Some(false) => Err("Invalid credentials".to_string()),
            Some(true) => Ok(u),
        },
    }
}

/// Builds the record of a new device of an existing user: the type is
/// trimmed and may not be empty; a push token is trimmed and dropped when
/// empty.
pub fn new_device(
    user_found: bool,
    user_id: u128,
    device_type: &str,
    push_token: Option<String>,
    device_id: u128,
    now: i64,
) -> (r: Result<Device, String>)
    ensures
        !user_found ==> fails_with(r, "User not found"@),
        user_found && trimmed_of(device_type@).len() == 0 ==> fails_with(r, "Device type cannot be empty"@),
        user_found && trimmed_of(device_type@).len() > 0 ==> (r matches Ok(d) && d.device_id == device_id
            && d.user_id == user_id && d.device_type@ == trimmed_of(device_type@) && d.last_seen == Some(now)
            && match push_token {
                None => d.push_token is None,
                Some(t) => if trimmed_of(t@).len() == 0 {
                    d.push_token is None
                } else {
                    d.push_token matches Some(x) && x@ == trimmed_of(t@)
                },
            }),
{
    if !user_found {
        return Err("User not found".to_string());
    }
    let kind = trim_str(device_type);
    if kind.as_str().is_empty() {
        return Err("Device type cannot be empty".to_string());
    }
    let token = match push_token {
        None => None,
        Some(t) => {
            let tt = trim_str(t.as_str());
            if tt.as_str().is_empty() {
                None
            } else {
                Some(tt)
            }
        },
    };
    Ok(Device { device_id, user_id, device_type: kind, push_token: token, last_seen: Some(now) })
}

} // verus!
