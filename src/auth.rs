//! Device pairing: challenge lifecycle, QR payload, signed-nonce verification
//! and sync-key derivation.
//!
//! The QR payload is the hex text of a field list (see `wire`) holding the
//! challenge. Pairing sessions are keyed by challenge id; a session moves from
//! pending to consumed on a successful validation, and is swept once expired.
use vstd::prelude::*;
use vstd::utf8::encode_utf8;
use crate::hexcode::{hex_chars, hex_decode, hex_decode_bytes, hex_encode, lemma_hex_round_trip};
use crate::keyed::{
    keyed_map, keys_distinct, lemma_keyed_map, lemma_keyed_push, lemma_keyed_remove,
    lemma_keyed_update,
};
use crate::accounts::fails_with;
use crate::models::Device;
use crate::text::concat_str;
use crate::system::{now_micros, random_bytes_32, random_id};
use crate::protocol::{
    bits_of, field_i64, field_text, field_u128, get_i64, get_text, get_u128, i64_payload,
    lemma_find_at, lemma_i64_field, lemma_u128_field, u128_payload,
};
use crate::wire::{
    append_field, be128, be64, copy_range, encode_fields, fields_fit, fields_view, find_field,
    find_field_in, lemma_be128, lemma_be64, lemma_parse_encode_fields, parse_fields,
    parse_fields_in, refs_in, FieldView,
};

verus! {

broadcast use vstd::utf8::encode_utf8_decode_utf8, vstd::utf8::encode_utf8_valid_utf8;

// ---------------------------------------------------------------------------
// Outside items
// ---------------------------------------------------------------------------

#[verifier::external_type_specification]
#[verifier::external_body]
pub struct ExKeypair(libp2p::identity::Keypair);

/// Whether `sig` is a valid signature of `msg` under the public key whose
/// protobuf encoding is `public_key`.
pub uninterp spec fn signature_valid(public_key: Seq<u8>, msg: Seq<u8>, sig: Seq<u8>) -> bool;

/// X25519 shared secret of an Ed25519 secret seed and a peer's Ed25519 public
/// key (protobuf encoding), both taken to their Montgomery form.
pub uninterp spec fn x25519_shared_of(seed: Seq<u8>, peer_public: Seq<u8>) -> Option<Seq<u8>>;

/// HKDF-SHA256 with 32 bytes of output.
pub uninterp spec fn hkdf_sha256_of(ikm: Seq<u8>, salt: Seq<u8>, info: Seq<u8>) -> Seq<u8>;

/// Relies on `libp2p::identity::PublicKey::try_decode_protobuf` and
/// `PublicKey::verify`; a key that does not decode verifies nothing.
#[verifier::external_body]
fn verify_signature(public_key: &[u8], msg: &[u8], sig: &[u8]) -> (r: bool)
    ensures
        r == signature_valid(public_key@, msg@, sig@),
{
    match libp2p::identity::PublicKey::try_decode_protobuf(public_key) {
        Ok(pk) => pk.verify(msg, sig),
        Err(_) => false,
    }
}

/// Relies on `Keypair::public` and `PublicKey::encode_protobuf`.
#[verifier::external_body]
fn public_key_bytes(keypair: &libp2p::identity::Keypair) -> (r: Vec<u8>) {
    keypair.public().encode_protobuf()
}

/// Relies on `PublicKey::to_peer_id` and the text form of `PeerId`.
#[verifier::external_body]
fn peer_id_text(keypair: &libp2p::identity::Keypair) -> (r: String) {
    keypair.public().to_peer_id().to_string()
}

/// Relies on `Keypair::sign`, `Keypair::public` and
/// `PublicKey::encode_protobuf`: the encoded public key and an Ed25519
/// signature of `msg`, which verifies under that key. With only Ed25519 keys
/// built, signing cannot fail.
#[verifier::external_body]
fn sign_with_key(keypair: &libp2p::identity::Keypair, msg: &[u8]) -> (r: Option<(Vec<u8>, Vec<u8>)>)
    ensures
        r is Some,
        r matches Some(p) ==> signature_valid(p.0@, msg@, p.1@),
{
    match keypair.sign(msg) {
        Ok(sig) => Some((keypair.public().encode_protobuf(), sig)),
        Err(_) => None,
    }
}

/// Relies on `Keypair::try_into_ed25519` and `ed25519::Keypair::secret`: the
/// 32-byte secret seed of an Ed25519 keypair. With only Ed25519 keys built,
/// every keypair is one.
#[verifier::external_body]
fn ed25519_seed(keypair: &libp2p::identity::Keypair) -> (r: Option<Vec<u8>>)
    ensures
        r is Some,
        r matches Some(v) ==> v@.len() == 32,
{
    match keypair.clone().try_into_ed25519() {
        Ok(k) => Some(k.secret().as_ref().to_vec()),
        Err(_) => None,
    }
}

/// Relies on `ed25519_dalek::SigningKey::to_scalar`,
/// `VerifyingKey::to_montgomery` and Montgomery scalar multiplication: the
/// X25519 agreement of our seed with the peer's public key. It succeeds for a
/// 32-byte seed and a peer key under which some signature verifies: such a key
/// decodes as an Ed25519 point.
#[verifier::external_body]
fn x25519_shared(seed: &[u8], peer_public: &[u8]) -> (r: Option<Vec<u8>>)
    ensures
        match r {
            Some(v) => x25519_shared_of(seed@, peer_public@) == Some(v@),
            None => x25519_shared_of(seed@, peer_public@) is None,
        },
        seed@.len() == 32 && (exists|m: Seq<u8>, s: Seq<u8>| signature_valid(peer_public@, m, s))
            ==> r is Some,
{
    let seed: [u8; 32] = seed.try_into().ok()?;
    let sk = ed25519_dalek::SigningKey::from_bytes(&seed);
    let pk = libp2p::identity::PublicKey::try_decode_protobuf(peer_public).ok()?;
    let pk = pk.try_into_ed25519().ok()?.to_bytes();
    let vk = ed25519_dalek::VerifyingKey::from_bytes(&pk).ok()?;
    Some((vk.to_montgomery() * sk.to_scalar()).to_bytes().to_vec())
}

/// Relies on `hkdf::Hkdf::<sha2::Sha256>`: extract with `salt`, expand with
/// `info` to 32 bytes (well under the 8160-byte limit of `expand`).
#[verifier::external_body]
fn hkdf_sha256(ikm: &[u8], salt: &[u8], info: &[u8]) -> (r: Vec<u8>)
    ensures
        r@ == hkdf_sha256_of(ikm@, salt@, info@),
        r@.len() == 32,
{
    let mut out = [0u8; 32];
    let _ = hkdf::Hkdf::<sha2::Sha256>::new(Some(salt), ikm).expand(info, &mut out);
    out.to_vec()
}

/// A fresh challenge nonce: 32 random bytes as 64 lowercase hex digits.
pub fn generate_nonce() -> (r: String)
    ensures
        r@.len() == 64,
        exists|b: Seq<u8>| b.len() == 32 && r@ == hex_chars(b),
{
    let raw = random_bytes_32();
    proof {
        lemma_hex_round_trip(raw@);
    }
    hex_encode(raw.as_slice())
}

// ---------------------------------------------------------------------------
// Records
// ---------------------------------------------------------------------------

/// A pairing challenge, as carried by the QR payload. Times are microseconds
/// since the Unix epoch.
#[derive(Debug, Clone)]
pub struct AuthChallenge {
    pub challenge_id: u128,
    pub user_id: u128,
    pub authorizer_device_id: u128,
    pub authorizer_peer_id: String,
    /// Multiaddress of the authorizer, `/ip4/<addr>/tcp/<port>`.
    pub authorizer_address: String,
    /// 32 random bytes, hex-encoded.
    pub nonce: String,
    /// Protobuf encoding of the authorizer's public key.
    pub public_key: Vec<u8>,
    pub created_at: i64,
    pub expires_at: i64,
}

pub struct ChallengeView {
    pub challenge_id: u128,
    pub user_id: u128,
    pub authorizer_device_id: u128,
    pub authorizer_peer_id: Seq<char>,
    pub authorizer_address: Seq<char>,
    pub nonce: Seq<char>,
    pub public_key: Seq<u8>,
    pub created_at: i64,
    pub expires_at: i64,
}

impl View for AuthChallenge {
    type V = ChallengeView;

    open spec fn view(&self) -> ChallengeView {
        ChallengeView {
            challenge_id: self.challenge_id,
            user_id: self.user_id,
            authorizer_device_id: self.authorizer_device_id,
            authorizer_peer_id: self.authorizer_peer_id@,
            authorizer_address: self.authorizer_address@,
            nonce: self.nonce@,
            public_key: self.public_key@,
            created_at: self.created_at,
            expires_at: self.expires_at,
        }
    }
}

impl AuthChallenge {
    /// A field-by-field copy.
    pub fn duplicate(&self) -> (r: Self)
        ensures
            r@ == self@,
    {
        AuthChallenge {
            challenge_id: self.challenge_id,
            user_id: self.user_id,
            authorizer_device_id: self.authorizer_device_id,
            authorizer_peer_id: self.authorizer_peer_id.clone(),
            authorizer_address: self.authorizer_address.clone(),
            nonce: self.nonce.clone(),
            public_key: self.public_key.clone(),
            created_at: self.created_at,
            expires_at: self.expires_at,
        }
    }
}

// ---------------------------------------------------------------------------
// QR payload
// ---------------------------------------------------------------------------

pub open spec fn challenge_fields(c: ChallengeView) -> Seq<FieldView> {
    seq![
        (1u8, be128(c.challenge_id)),
        (2u8, be128(c.user_id)),
        (3u8, be128(c.authorizer_device_id)),
        (4u8, encode_utf8(c.authorizer_peer_id)),
        (5u8, encode_utf8(c.authorizer_address)),
        (6u8, encode_utf8(c.nonce)),
        (7u8, c.public_key),
        (8u8, be64(bits_of(c.created_at))),
        (9u8, be64(bits_of(c.expires_at))),
    ]
}

/// Every field of the challenge fits the format's four-byte length.
pub open spec fn qr_fits(c: ChallengeView) -> bool {
    &&& encode_utf8(c.authorizer_peer_id).len() <= u32::MAX
    &&& encode_utf8(c.authorizer_address).len() <= u32::MAX
    &&& encode_utf8(c.nonce).len() <= u32::MAX
    &&& c.public_key.len() <= u32::MAX
}

/// The QR text of a challenge.
pub open spec fn encode_qr(c: ChallengeView) -> Seq<char> {
    hex_chars(encode_fields(challenge_fields(c)))
}

pub open spec fn challenge_of(fs: Seq<FieldView>) -> Option<ChallengeView> {
    if field_u128(fs, 1) is Some && field_u128(fs, 2) is Some && field_u128(fs, 3) is Some
        && field_text(fs, 4) is Some && field_text(fs, 5) is Some && field_text(fs, 6) is Some
        && find_field(fs, 7) is Some && field_i64(fs, 8) is Some && field_i64(fs, 9) is Some {
        Some(
            ChallengeView {
                challenge_id: field_u128(fs, 1)->0,
                user_id: field_u128(fs, 2)->0,
                authorizer_device_id: field_u128(fs, 3)->0,
                authorizer_peer_id: field_text(fs, 4)->0,
                authorizer_address: field_text(fs, 5)->0,
                nonce: field_text(fs, 6)->0,
                public_key: find_field(fs, 7)->0,
                created_at: field_i64(fs, 8)->0,
                expires_at: field_i64(fs, 9)->0,
            },
        )
    } else {
        None
    }
}

/// The challenge a QR text holds, if it is hex of a field list with every
/// required field present and well-formed.
pub open spec fn decode_qr(text: Seq<char>) -> Option<ChallengeView> {
    match hex_decode_bytes(encode_utf8(text)) {
        None => None,
        Some(b) => match parse_fields(b) {
            None => None,
            Some(fs) => challenge_of(fs),
        },
    }
}

proof fn lemma_challenge_fields(c: ChallengeView)
    requires
        qr_fits(c),
    ensures
        fields_fit(challenge_fields(c)),
        challenge_of(challenge_fields(c)) == Some(c),
{
    let fs = challenge_fields(c);
    lemma_be128(c.challenge_id);
    lemma_be128(c.user_id);
    lemma_be128(c.authorizer_device_id);
    lemma_be64(bits_of(c.created_at));
    lemma_be64(bits_of(c.expires_at));
    assert forall|i: int| 0 <= i < fs.len() implies (#[trigger] fs[i]).1.len() <= u32::MAX by {}
    assert(field_u128(fs, 1) == Some(c.challenge_id)) by {
        lemma_find_at(fs, 0, 1);
        lemma_u128_field(c.challenge_id);
    }
    assert(field_u128(fs, 2) == Some(c.user_id)) by {
        lemma_find_at(fs, 1, 2);
        lemma_u128_field(c.user_id);
    }
    assert(field_u128(fs, 3) == Some(c.authorizer_device_id)) by {
        lemma_find_at(fs, 2, 3);
        lemma_u128_field(c.authorizer_device_id);
    }
    assert(field_text(fs, 4) == Some(c.authorizer_peer_id)) by {
        lemma_find_at(fs, 3, 4);
    }
    assert(field_text(fs, 5) == Some(c.authorizer_address)) by {
        lemma_find_at(fs, 4, 5);
    }
    assert(field_text(fs, 6) == Some(c.nonce)) by {
        lemma_find_at(fs, 5, 6);
    }
    assert(find_field(fs, 7) == Some(c.public_key)) by {
        lemma_find_at(fs, 6, 7);
    }
    assert(field_i64(fs, 8) == Some(c.created_at)) by {
        lemma_find_at(fs, 7, 8);
        lemma_i64_field(c.created_at);
    }
    assert(field_i64(fs, 9) == Some(c.expires_at)) by {
        lemma_find_at(fs, 8, 9);
        lemma_i64_field(c.expires_at);
    }
}

/// Round trip: decoding the QR text of a challenge gives the challenge back.
pub proof fn lemma_qr_round_trip(c: ChallengeView)
    requires
        qr_fits(c),
    ensures
        decode_qr(encode_qr(c)) == Some(c),
{
    lemma_challenge_fields(c);
    lemma_parse_encode_fields(challenge_fields(c));
    lemma_hex_round_trip(encode_fields(challenge_fields(c)));
}


fn challenge_bytes(c: &AuthChallenge) -> (r: Option<Vec<u8>>)
    ensures
        match r {
            Some(v) => qr_fits(c@) && v@ == encode_fields(challenge_fields(c@)),
            None => !qr_fits(c@),
        },
{
    let peer = c.authorizer_peer_id.as_str().as_bytes();
    let addr = c.authorizer_address.as_str().as_bytes();
    let nonce = c.nonce.as_str().as_bytes();
    if peer.len() > 4294967295usize || addr.len() > 4294967295usize || nonce.len() > 4294967295usize
        || c.public_key.len() > 4294967295usize {
        return None;
    }
    let ghost f0 = Seq::<FieldView>::empty();
    let mut out: Vec<u8> = Vec::new();
    assert(out@ =~= encode_fields(f0));
    let a = u128_payload(c.challenge_id);
    append_field(&mut out, Ghost(f0), 1, a.as_slice());
    let ghost f1 = f0.push((1u8, be128(c.challenge_id)));
    let b = u128_payload(c.user_id);
    append_field(&mut out, Ghost(f1), 2, b.as_slice());
    let ghost f2 = f1.push((2u8, be128(c.user_id)));
    let d = u128_payload(c.authorizer_device_id);
    append_field(&mut out, Ghost(f2), 3, d.as_slice());
    let ghost f3 = f2.push((3u8, be128(c.authorizer_device_id)));
    append_field(&mut out, Ghost(f3), 4, peer);
    let ghost f4 = f3.push((4u8, encode_utf8(c.authorizer_peer_id@)));
    append_field(&mut out, Ghost(f4), 5, addr);
    let ghost f5 = f4.push((5u8, encode_utf8(c.authorizer_address@)));
    append_field(&mut out, Ghost(f5), 6, nonce);
    let ghost f6 = f5.push((6u8, encode_utf8(c.nonce@)));
    append_field(&mut out, Ghost(f6), 7, c.public_key.as_slice());
    let ghost f7 = f6.push((7u8, c.public_key@));
    let t1 = i64_payload(c.created_at);
    append_field(&mut out, Ghost(f7), 8, t1.as_slice());
    let ghost f8 = f7.push((8u8, be64(bits_of(c.created_at))));
    let t2 = i64_payload(c.expires_at);
    append_field(&mut out, Ghost(f8), 9, t2.as_slice());
    assert(f8.push((9u8, be64(bits_of(c.expires_at)))) =~= challenge_fields(c@));
    Some(out)
}

fn get_bytes(b: &[u8], fs: &Vec<crate::wire::FieldRef>, id: u8) -> (r: Option<Vec<u8>>)
    requires
        refs_in(b@, fs@),
    ensures
        match r {
            Some(v) => find_field(fields_view(b@, fs@), id) == Some(v@),
            None => find_field(fields_view(b@, fs@), id) is None,
        },
{
    match find_field_in(b, fs, id) {
        None => None,
        Some(i) => {
            assert(fs@[i as int].start <= fs@[i as int].end <= b@.len());
            Some(copy_range(b, fs[i].start, fs[i].end))
        },
    }
}

fn decode_challenge(qr_data: &str) -> (r: Option<AuthChallenge>)
    ensures
        match r {
            Some(c) => decode_qr(qr_data@) == Some(c@),
            None => decode_qr(qr_data@) is None,
        },
{
    let bytes = match hex_decode(qr_data.as_bytes()) {
        None => return None,
        Some(v) => v,
    };
    let b = bytes.as_slice();
    assert(b@.subrange(0, b@.len() as int) =~= b@);
    let fs = match parse_fields_in(b, 0, b.len()) {
        None => return None,
        Some(fs) => fs,
    };
    let challenge_id = get_u128(b, &fs, 1);
    let user_id = get_u128(b, &fs, 2);
    let device_id = get_u128(b, &fs, 3);
    let peer = get_text(b, &fs, 4);
    let address = get_text(b, &fs, 5);
    let nonce = get_text(b, &fs, 6);
    let public_key = get_bytes(b, &fs, 7);
    let created = get_i64(b, &fs, 8);
    let expires = get_i64(b, &fs, 9);
    match (challenge_id, user_id, device_id, peer, address, nonce, public_key, created, expires) {
        (
            Some(challenge_id),
            Some(user_id),
            Some(authorizer_device_id),
            Some(authorizer_peer_id),
            Some(authorizer_address),
            Some(nonce),
            Some(public_key),
            Some(created_at),
            Some(expires_at),
        ) => Some(
            AuthChallenge {
                challenge_id,
                user_id,
                authorizer_device_id,
                authorizer_peer_id,
                authorizer_address,
                nonce,
                public_key,
                created_at,
                expires_at,
            },
        ),
        _ => None,
    }
}

// ---------------------------------------------------------------------------
// Responses and results
// ---------------------------------------------------------------------------

/// A new device's answer to a challenge.
#[derive(Debug, Clone)]
pub struct AuthResponse {
    pub challenge_id: u128,
    pub requesting_device_id: u128,
    pub requesting_peer_id: String,
    /// Device type (phone, tablet, desktop, watch).
    pub device_type: String,
    pub device_name: String,
    /// Signature of the challenge nonce (its UTF-8 bytes).
    pub signed_nonce: Vec<u8>,
    /// Protobuf encoding of the new device's public key.
    pub public_key: Vec<u8>,
}

/// Outcome of a validation.
#[derive(Debug, Clone)]
pub enum AuthResult {
    Success { device_id: u128, user_id: u128, sync_key: Vec<u8> },
    Failed { reason: String },
    Expired,
    InvalidSignature,
}

pub enum AuthResultView {
    Success { device_id: u128, user_id: u128, sync_key: Seq<u8> },
    Failed { reason: Seq<char> },
    Expired,
    InvalidSignature,
}

impl View for AuthResult {
    type V = AuthResultView;

    open spec fn view(&self) -> AuthResultView {
        match self {
            AuthResult::Success { device_id, user_id, sync_key } => AuthResultView::Success {
                device_id: *device_id,
                user_id: *user_id,
                sync_key: sync_key@,
            },
            AuthResult::Failed { reason } => AuthResultView::Failed { reason: reason@ },
            AuthResult::Expired => AuthResultView::Expired,
            AuthResult::InvalidSignature => AuthResultView::InvalidSignature,
        }
    }
}

// ---------------------------------------------------------------------------
// Sync key
// ---------------------------------------------------------------------------

/// Lexicographic order on byte strings.
pub open spec fn lex_le(a: Seq<u8>, b: Seq<u8>) -> bool
    decreases a.len(),
{
    if a.len() == 0 {
        true
    } else if b.len() == 0 {
        false
    } else if a[0] != b[0] {
        a[0] < b[0]
    } else {
        lex_le(a.drop_first(), b.drop_first())
    }
}

/// The two public keys, smaller first.
pub open spec fn ordered_pair(a: Seq<u8>, b: Seq<u8>) -> Seq<u8> {
    if lex_le(a, b) {
        a + b
    } else {
        b + a
    }
}

/// The sync key of one side: HKDF over the X25519 agreement of its seed with
/// the peer's public key, salted with the nonce, bound to both public keys.
pub open spec fn sync_key_of(
    own_seed: Seq<u8>,
    own_public: Seq<u8>,
    peer_public: Seq<u8>,
    nonce: Seq<char>,
) -> Option<Seq<u8>> {
    match x25519_shared_of(own_seed, peer_public) {
        None => None,
        Some(shared) => Some(
            hkdf_sha256_of(shared, encode_utf8(nonce), ordered_pair(own_public, peer_public)),
        ),
    }
}

proof fn lemma_lex_total(a: Seq<u8>, b: Seq<u8>)
    ensures
        lex_le(a, b) || lex_le(b, a),
        lex_le(a, b) && lex_le(b, a) ==> a == b,
    decreases a.len(),
{
    if a.len() > 0 && b.len() > 0 && a[0] == b[0] {
        lemma_lex_total(a.drop_first(), b.drop_first());
        if a.drop_first() == b.drop_first() {
            assert(a =~= seq![a[0]] + a.drop_first());
            assert(b =~= seq![b[0]] + b.drop_first());
        }
    } else if a.len() == 0 && b.len() == 0 {
        assert(a =~= b);
    }
}

/// Both sides bind the key to the same byte string, whichever side they are.
pub proof fn lemma_ordered_pair_symmetric(a: Seq<u8>, b: Seq<u8>)
    ensures
        ordered_pair(a, b) == ordered_pair(b, a),
{
    lemma_lex_total(a, b);
}

fn ordered_concat(a: &[u8], b: &[u8]) -> (r: Vec<u8>)
    ensures
        r@ == ordered_pair(a@, b@),
{
    let mut i: usize = 0;
    let mut a_first = true;
    let mut decided = false;
    assert(a@.subrange(0, a@.len() as int) =~= a@);
    assert(b@.subrange(0, b@.len() as int) =~= b@);
    while i < a.len() && i < b.len() && !decided
        invariant
            0 <= i <= a@.len(),
            i <= b@.len(),
            decided ==> (a_first == lex_le(a@, b@)),
            !decided ==> lex_le(a@, b@) == lex_le(a@.subrange(i as int, a@.len() as int), b@.subrange(i as int, b@.len() as int)),
        decreases a.len() - i + (if decided { 0int } else { 1int }),
    {
        let ghost sa = a@.subrange(i as int, a@.len() as int);
        let ghost sb = b@.subrange(i as int, b@.len() as int);
        proof {
            assert(sa.drop_first() =~= a@.subrange(i + 1, a@.len() as int));
            assert(sb.drop_first() =~= b@.subrange(i + 1, b@.len() as int));
        }
        if a[i] != b[i] {
            a_first = a[i] < b[i];
            decided = true;
        } else {
            i = i + 1;
        }
    }
    if !decided {
        proof {
            let sa = a@.subrange(i as int, a@.len() as int);
            let sb = b@.subrange(i as int, b@.len() as int);
            if i == a@.len() {
                assert(sa.len() == 0);
            } else {
                assert(sb.len() == 0);
            }
        }
        a_first = i == a.len();
    }
    let mut out: Vec<u8> = Vec::new();
    if a_first {
        crate::wire::write_bytes(&mut out, a);
        crate::wire::write_bytes(&mut out, b);
    } else {
        crate::wire::write_bytes(&mut out, b);
        crate::wire::write_bytes(&mut out, a);
    }
    assert(out@ =~= ordered_pair(a@, b@));
    out
}

/// Derives the 32-byte sync key of one side of a pairing.
pub fn derive_sync_key(own_seed: &[u8], own_public: &[u8], peer_public: &[u8], nonce: &str) -> (r: Option<Vec<u8>>)
    ensures
        match r {
            Some(k) => sync_key_of(own_seed@, own_public@, peer_public@, nonce@) == Some(k@) && k@.len() == 32,
            None => sync_key_of(own_seed@, own_public@, peer_public@, nonce@) is None,
        },
        own_seed@.len() == 32 && (exists|m: Seq<u8>, s: Seq<u8>| signature_valid(peer_public@, m, s))
            ==> r is Some,
{
    let shared = match x25519_shared(own_seed, peer_public) {
        None => return None,
        Some(s) => s,
    };
    let info = ordered_concat(own_public, peer_public);
    Some(hkdf_sha256(shared.as_slice(), nonce.as_bytes(), info.as_slice()))
}


// ---------------------------------------------------------------------------
// Pairing sessions
// ---------------------------------------------------------------------------

/// Microseconds in a minute.
pub const MICROS_PER_MINUTE: i64 = 60000000;

/// Default lifetime of a challenge, in minutes.
pub const DEFAULT_VALIDITY_MINUTES: i64 = 5;

/// State of one pending or consumed challenge.
#[derive(Debug, Clone)]
pub struct PairingSession {
    pub challenge: AuthChallenge,
    pub consumed: bool,
    pub created_at: i64,
}

pub struct SessionView {
    pub challenge: ChallengeView,
    pub consumed: bool,
    pub created_at: i64,
}

impl View for PairingSession {
    type V = SessionView;

    open spec fn view(&self) -> SessionView {
        SessionView { challenge: self.challenge@, consumed: self.consumed, created_at: self.created_at }
    }
}

pub struct ResponseView {
    pub challenge_id: u128,
    pub requesting_device_id: u128,
    pub requesting_peer_id: Seq<char>,
    pub device_type: Seq<char>,
    pub device_name: Seq<char>,
    pub signed_nonce: Seq<u8>,
    pub public_key: Seq<u8>,
}

impl View for AuthResponse {
    type V = ResponseView;

    open spec fn view(&self) -> ResponseView {
        ResponseView {
            challenge_id: self.challenge_id,
            requesting_device_id: self.requesting_device_id,
            requesting_peer_id: self.requesting_peer_id@,
            device_type: self.device_type@,
            device_name: self.device_name@,
            signed_nonce: self.signed_nonce@,
            public_key: self.public_key@,
        }
    }
}

pub type SessionMap = Map<u128, SessionView>;

/// `now + minutes`, in microseconds.
pub open spec fn expiry_of(now: i64, minutes: i64) -> int {
    now as int + minutes as int * MICROS_PER_MINUTE as int
}

/// What validating `resp` at time `now` does to the sessions, and its outcome,
/// given whether the signature verifies and the derived sync key. `None` when
/// no session has the challenge id.
pub open spec fn validation(
    sessions: SessionMap,
    resp: ResponseView,
    now: i64,
    signature_ok: bool,
    sync_key: Option<Seq<u8>>,
) -> Option<(SessionMap, AuthResultView)> {
    if !sessions.contains_key(resp.challenge_id) {
        None
    } else {
        let s = sessions[resp.challenge_id];
        if s.consumed {
            Some((sessions, AuthResultView::Failed { reason: "Challenge already used"@ }))
        } else if now > s.challenge.expires_at {
            Some((sessions, AuthResultView::Expired))
        } else if !signature_ok {
            Some((sessions, AuthResultView::InvalidSignature))
        } else if sync_key is None {
            Some((sessions, AuthResultView::Failed { reason: "Key agreement failed"@ }))
        } else {
            Some(
                (
                    sessions.insert(
                        resp.challenge_id,
                        SessionView { challenge: s.challenge, consumed: true, created_at: s.created_at },
                    ),
                    AuthResultView::Success {
                        device_id: resp.requesting_device_id,
                        user_id: s.challenge.user_id,
                        sync_key: sync_key->0,
                    },
                ),
            )
        }
    }
}

/// Whether the response's signature of its challenge's nonce verifies.
pub open spec fn nonce_signature_ok(sessions: SessionMap, resp: ResponseView) -> bool {
    signature_valid(
        resp.public_key,
        encode_utf8(sessions[resp.challenge_id].challenge.nonce),
        resp.signed_nonce,
    )
}

pub open spec fn key_view(k: Option<Vec<u8>>) -> Option<Seq<u8>> {
    match k {
        Some(v) => Some(v@),
        None => None,
    }
}

/// The result of a validation against the specification above.
pub open spec fn judged(r: Result<AuthResult, String>, expected: Option<(SessionMap, AuthResultView)>) -> bool {
    match expected {
        None => fails_with(r, "Challenge not found"@),
        Some((_, res)) => r matches Ok(x) && x@ == res,
    }
}

/// Result and session change of a validation call against the specification
/// above.
pub open spec fn validation_matches(
    r: Result<AuthResult, String>,
    before: SessionMap,
    after: SessionMap,
    expected: Option<(SessionMap, AuthResultView)>,
) -> bool {
    &&& judged(r, expected)
    &&& match expected {
        None => after == before,
        Some((m, _)) => after == m,
    }
}

/// The key the authorizer derives for `resp` from its 32-byte seed `seed`.
pub open spec fn authorizer_key(sessions: SessionMap, resp: ResponseView, seed: Seq<u8>) -> Option<Seq<u8>> {
    sync_key_of(
        seed,
        sessions[resp.challenge_id].challenge.public_key,
        resp.public_key,
        sessions[resp.challenge_id].challenge.nonce,
    )
}

/// A validation at `now` by an authorizer with seed `seed` turned `before` into
/// `after` and returned `r`.
pub open spec fn validated_with(
    r: Result<AuthResult, String>,
    before: SessionMap,
    after: SessionMap,
    resp: ResponseView,
    now: i64,
    seed: Seq<u8>,
) -> bool {
    &&& seed.len() == 32
    &&& validation_matches(
        r,
        before,
        after,
        validation(before, resp, now, nonce_signature_ok(before, resp), authorizer_key(before, resp, seed)),
    )
}

/// The session of the response is pending and unexpired at `now`, and the
/// response's nonce signature verifies.
pub open spec fn admissible(sessions: SessionMap, resp: ResponseView, now: i64) -> bool {
    &&& sessions.contains_key(resp.challenge_id)
    &&& !sessions[resp.challenge_id].consumed
    &&& now <= sessions[resp.challenge_id].challenge.expires_at
    &&& nonce_signature_ok(sessions, resp)
}

pub open spec fn is_success(r: Result<AuthResult, String>) -> bool {
    r matches Ok(AuthResult::Success { .. })
}

/// A success carries a 32-byte key.
pub open spec fn key_is_32(r: Result<AuthResult, String>) -> bool {
    r matches Ok(AuthResult::Success { sync_key, .. }) ==> sync_key@.len() == 32
}

/// `after` holds exactly the sessions of `before` that had not expired at
/// `now`, unchanged.
pub open spec fn swept(before: SessionMap, after: SessionMap, now: i64) -> bool {
    &&& forall|k: u128|
        #[trigger] after.contains_key(k) <==> before.contains_key(k) && before[k].challenge.expires_at >= now
    &&& forall|k: u128| #[trigger] after.contains_key(k) ==> after[k] == before[k]
}

/// Authorizer-side manager of pairing sessions, keyed by challenge id.
pub struct DeviceAuthManager {
    sessions: Vec<PairingSession>,
}

impl View for DeviceAuthManager {
    type V = SessionMap;

    closed spec fn view(&self) -> SessionMap {
        keyed_map(self.pairs())
    }
}

impl DeviceAuthManager {
    pub closed spec fn pairs(&self) -> Seq<(u128, SessionView)> {
        self.sessions@.map_values(|s: PairingSession| (s.challenge.challenge_id, s@))
    }

    /// Challenge ids are distinct.
    pub closed spec fn wf(&self) -> bool {
        keys_distinct(self.pairs())
    }

    pub fn new() -> (r: Self)
        ensures
            r.wf(),
            r@ == SessionMap::empty(),
    {
        let r = DeviceAuthManager { sessions: Vec::new() };
        assert(r.pairs() =~= Seq::<(u128, SessionView)>::empty());
        r
    }

    fn find(&self, challenge_id: u128) -> (r: Option<usize>)
        requires
            self.wf(),
        ensures
            match r {
                Some(i) => i < self.sessions@.len() && self.pairs()[i as int].0 == challenge_id
                    && self@.contains_key(challenge_id) && self@[challenge_id] == self.sessions@[i as int]@,
                None => !self@.contains_key(challenge_id),
            },
    {
        let mut i: usize = 0;
        while i < self.sessions.len()
            invariant
                0 <= i <= self.sessions@.len(),
                self.wf(),
                forall|j: int| 0 <= j < i ==> #[trigger] self.pairs()[j].0 != challenge_id,
            decreases self.sessions.len() - i,
        {
            if self.sessions[i].challenge.challenge_id == challenge_id {
                proof {
                    lemma_keyed_map(self.pairs());
                    assert(self.pairs()[i as int].0 == challenge_id);
                    assert(self@[self.pairs()[i as int].0] == self.pairs()[i as int].1);
                }
                return Some(i);
            }
            i = i + 1;
        }
        proof {
            lemma_keyed_map(self.pairs());
        }
        None
    }

    /// Records a challenge built from the given identity, nonce and clock
    /// reading. Fails, changing nothing, when `now + validity_minutes` does
    /// not fit the time range.
    pub fn create_challenge_at(
        &mut self,
        user_id: u128,
        authorizer_device_id: u128,
        authorizer_peer_id: String,
        public_key: Vec<u8>,
        authorizer_address: String,
        validity_minutes: i64,
        challenge_id: u128,
        nonce: String,
        now: i64,
    ) -> (r: Result<AuthChallenge, String>)
        requires
            old(self).wf(),
        ensures
            final(self).wf(),
            match r {
                Ok(c) => i64::MIN <= expiry_of(now, validity_minutes) <= i64::MAX && c@ == (ChallengeView {
                    challenge_id,
                    user_id,
                    authorizer_device_id,
                    authorizer_peer_id: authorizer_peer_id@,
                    authorizer_address: authorizer_address@,
                    nonce: nonce@,
                    public_key: public_key@,
                    created_at: now,
                    expires_at: expiry_of(now, validity_minutes) as i64,
                }) && final(self)@ == old(self)@.insert(
                    challenge_id,
                    SessionView { challenge: c@, consumed: false, created_at: now },
                ),
                Err(_) => !(i64::MIN <= expiry_of(now, validity_minutes) <= i64::MAX)
                    && final(self)@ == old(self)@,
            },
    {
        let expires = now as i128 + validity_minutes as i128 * 60000000i128;
        if expires < i64::MIN as i128 || expires > i64::MAX as i128 {
            return Err("Challenge validity out of range".to_string());
        }
        let challenge = AuthChallenge {
            challenge_id,
            user_id,
            authorizer_device_id,
            authorizer_peer_id,
            authorizer_address,
            nonce,
            public_key,
            created_at: now,
            expires_at: expires as i64,
        };
        let session = PairingSession { challenge: challenge.duplicate(), consumed: false, created_at: now };
        let ghost before = self.pairs();
        match self.find(challenge_id) {
            Some(i) => {
                proof {
                    lemma_keyed_update(before, i as int, session@);
                }
                self.sessions.set(i, session);
                assert(self.pairs() =~= before.update(i as int, (challenge_id, session@)));
            },
            None => {
                proof {
                    lemma_keyed_push(before, challenge_id, session@);
                }
                self.sessions.push(session);
                assert(self.pairs() =~= before.push((challenge_id, session@)));
            },
        }
        Ok(challenge)
    }

    /// Generates a challenge for a new device: a random id and nonce, the
    /// authorizer's peer identity and public key, and an expiry
    /// `validity_minutes` from now.
    pub fn create_challenge(
        &mut self,
        user_id: u128,
        authorizer_device_id: u128,
        authorizer_keypair: &libp2p::identity::Keypair,
        authorizer_address: String,
        validity_minutes: i64,
    ) -> (r: Result<AuthChallenge, String>)
        requires
            old(self).wf(),
        ensures
            final(self).wf(),
            match r {
                Ok(c) => c.user_id == user_id && c.authorizer_device_id == authorizer_device_id
                    && c.authorizer_address@ == authorizer_address@ && c.nonce@.len() == 64
                    && (exists|b: Seq<u8>| b.len() == 32 && c.nonce@ == hex_chars(b))
                    && c.expires_at == expiry_of(c.created_at, validity_minutes)
                    && final(self)@ == old(self)@.insert(
                    c.challenge_id,
                    SessionView { challenge: c@, consumed: false, created_at: c.created_at },
                ),
                Err(_) => final(self)@ == old(self)@,
            },
            r is Err ==> exists|t: i64| !(i64::MIN <= #[trigger] expiry_of(t, validity_minutes) <= i64::MAX),
            validity_minutes == 0 ==> r is Ok,
    {
        let challenge_id = random_id();
        let nonce = generate_nonce();
        let now = now_micros();
        let peer = peer_id_text(authorizer_keypair);
        let public_key = public_key_bytes(authorizer_keypair);
        self.create_challenge_at(
            user_id,
            authorizer_device_id,
            peer,
            public_key,
            authorizer_address,
            validity_minutes,
            challenge_id,
            nonce,
            now,
        )
    }

    /// Writes a challenge as QR text; fails only when a field does not fit
    /// the format's four-byte length.
    pub fn encode_challenge_to_qr(challenge: &AuthChallenge) -> (r: Result<String, String>)
        ensures
            match r {
                Ok(s) => qr_fits(challenge@) && s@ == encode_qr(challenge@),
                Err(_) => !qr_fits(challenge@),
            },
    {
        match challenge_bytes(challenge) {
            Some(b) => Ok(hex_encode(b.as_slice())),
            None => Err("Failed to encode: challenge field too large".to_string()),
        }
    }

    /// Reads a challenge from QR text; fails when the text is not hex of a
    /// field list or a required field is missing or ill-formed.
    pub fn decode_challenge_from_qr(qr_data: &str) -> (r: Result<AuthChallenge, String>)
        ensures
            match r {
                Ok(c) => decode_qr(qr_data@) == Some(c@),
                Err(_) => decode_qr(qr_data@) is None,
            },
    {
        match decode_challenge(qr_data) {
            Some(c) => Ok(c),
            None => Err("Failed to decode: malformed pairing payload".to_string()),
        }
    }

    /// The outcome of a response given the clock reading, whether its
    /// signature verifies, and the derived sync key, without changing any
    /// session (see `validation`).
    fn judge(
        &self,
        response: &AuthResponse,
        now: i64,
        signature_ok: bool,
        sync_key: Option<Vec<u8>>,
    ) -> (r: Result<AuthResult, String>)
        requires
            self.wf(),
        ensures
            judged(r, validation(self@, response@, now, signature_ok, key_view(sync_key))),
    {
        let i = match self.find(response.challenge_id) {
            None => return Err("Challenge not found".to_string()),
            Some(i) => i,
        };
        if self.sessions[i].consumed {
            return Ok(AuthResult::Failed { reason: "Challenge already used".to_string() });
        }
        if now > self.sessions[i].challenge.expires_at {
            return Ok(AuthResult::Expired);
        }
        if !signature_ok {
            return Ok(AuthResult::InvalidSignature);
        }
        match sync_key {
            None => Ok(AuthResult::Failed { reason: "Key agreement failed".to_string() }),
            Some(key) => Ok(
                AuthResult::Success {
                    device_id: response.requesting_device_id,
                    user_id: self.sessions[i].challenge.user_id,
                    sync_key: key,
                },
            ),
        }
    }

    /// Decides a response given the clock reading, whether its signature
    /// verifies, and the derived sync key (see `validation`). A failed check
    /// leaves the session as it was.
    pub fn decide_response(
        &mut self,
        response: &AuthResponse,
        now: i64,
        signature_ok: bool,
        sync_key: Option<Vec<u8>>,
    ) -> (r: Result<AuthResult, String>)
        requires
            old(self).wf(),
        ensures
            final(self).wf(),
            validation_matches(
                r,
                old(self)@,
                final(self)@,
                validation(old(self)@, response@, now, signature_ok, key_view(sync_key)),
            ),
    {
        let ghost kv = key_view(sync_key);
        let r = self.judge(response, now, signature_ok, sync_key);
        let success = match &r {
            Ok(AuthResult::Success { .. }) => true,
            _ => false,
        };
        if success {
            match self.find(response.challenge_id) {
                None => {},
                Some(i) => {
                    let ghost before = self.pairs();
                    let session = PairingSession {
                        challenge: self.sessions[i].challenge.duplicate(),
                        consumed: true,
                        created_at: self.sessions[i].created_at,
                    };
                    proof {
                        lemma_keyed_update(before, i as int, session@);
                    }
                    self.sessions.set(i, session);
                    assert(self.pairs() =~= before.update(i as int, (response.challenge_id, session@)));
                },
            }
        }
        r
    }

    /// Whether the response's signature verifies, and the sync key derived
    /// from the authorizer's keypair, for the session at position `i`.
    fn evidence(
        &self,
        i: usize,
        response: &AuthResponse,
        authorizer_keypair: &libp2p::identity::Keypair,
    ) -> (r: (bool, Option<Vec<u8>>))
        requires
            self.wf(),
            i < self.sessions@.len(),
            self@.contains_key(response.challenge_id),
            self@[response.challenge_id] == self.sessions@[i as int]@,
        ensures
            r.0 == nonce_signature_ok(self@, response@),
            exists|seed: Seq<u8>| seed.len() == 32 && key_view(r.1) == authorizer_key(self@, response@, seed),
            r.0 ==> r.1 is Some,
            r.1 matches Some(k) ==> k@.len() == 32,
    {
        let nonce = self.sessions[i].challenge.nonce.as_str();
        let signature_ok = verify_signature(
            response.public_key.as_slice(),
            nonce.as_bytes(),
            response.signed_nonce.as_slice(),
        );
        let seed = match ed25519_seed(authorizer_keypair) {
            Some(seed) => seed,
            None => {
                assert(false);
                return (signature_ok, None);
            },
        };
        proof {
            if signature_ok {
                assert(signature_valid(response.public_key@, encode_utf8(nonce@), response.signed_nonce@));
            }
        }
        let key = derive_sync_key(
            seed.as_slice(),
            self.sessions[i].challenge.public_key.as_slice(),
            response.public_key.as_slice(),
            nonce,
        );
        assert(key_view(key) == authorizer_key(self@, response@, seed@));
        (signature_ok, key)
    }

    /// Validates a response at time `now`: the nonce signature is checked
    /// against the response's public key, and the sync key is derived from
    /// the authorizer's keypair and the new device's public key. A pending,
    /// unexpired session with a verifying signature is owed `Success`.
    pub fn validate_response_at(
        &mut self,
        response: &AuthResponse,
        now: i64,
        authorizer_keypair: &libp2p::identity::Keypair,
    ) -> (r: Result<AuthResult, String>)
        requires
            old(self).wf(),
        ensures
            final(self).wf(),
            exists|seed: Seq<u8>| validated_with(r, old(self)@, final(self)@, response@, now, seed),
            admissible(old(self)@, response@, now) ==> is_success(r),
            key_is_32(r),
    {
        let i = match self.find(response.challenge_id) {
            None => {
                let r = Err("Challenge not found".to_string());
                assert(validated_with(r, self@, self@, response@, now, seq![0u8; 32]));
                return r;
            },
            Some(i) => i,
        };
        let ev = self.evidence(i, response, authorizer_keypair);
        let ghost before = self@;
        let ghost kv = key_view(ev.1);
        let r = self.decide_response(response, now, ev.0, ev.1);
        proof {
            let seed = choose|seed: Seq<u8>| seed.len() == 32 && kv == authorizer_key(before, response@, seed);
            assert(validated_with(r, before, self@, response@, now, seed));
        }
        r
    }

    /// The outcome validating a response at time `now` would have, without
    /// consuming the session.
    pub fn check_response_at(
        &self,
        response: &AuthResponse,
        now: i64,
        authorizer_keypair: &libp2p::identity::Keypair,
    ) -> (r: Result<AuthResult, String>)
        requires
            self.wf(),
        ensures
            exists|seed: Seq<u8>| seed.len() == 32 && judged(
                r,
                validation(self@, response@, now, nonce_signature_ok(self@, response@), authorizer_key(self@, response@, seed)),
            ),
            admissible(self@, response@, now) ==> is_success(r),
            key_is_32(r),
    {
        let i = match self.find(response.challenge_id) {
            None => {
                let r = Err("Challenge not found".to_string());
                assert(judged(r, validation(self@, response@, now, false, None)));
                assert(validation(self@, response@, now, false, None) == validation(
                    self@,
                    response@,
                    now,
                    nonce_signature_ok(self@, response@),
                    authorizer_key(self@, response@, seq![0u8; 32]),
                ));
                let ghost z = seq![0u8; 32];
                assert(z.len() == 32 && judged(
                    r,
                    validation(self@, response@, now, nonce_signature_ok(self@, response@), authorizer_key(self@, response@, z)),
                ));
                return r;
            },
            Some(i) => i,
        };
        let ev = self.evidence(i, response, authorizer_keypair);
        let ghost kv = key_view(ev.1);
        let r = self.judge(response, now, ev.0, ev.1);
        proof {
            let seed = choose|seed: Seq<u8>| seed.len() == 32 && kv == authorizer_key(self@, response@, seed);
            assert(seed.len() == 32 && judged(
                r,
                validation(self@, response@, now, nonce_signature_ok(self@, response@), authorizer_key(self@, response@, seed)),
            ));
        }
        r
    }

    /// Validates a response at the current time (see `validate_response_at`).
    pub fn validate_response(
        &mut self,
        response: &AuthResponse,
        authorizer_keypair: &libp2p::identity::Keypair,
    ) -> (r: Result<AuthResult, String>)
        requires
            old(self).wf(),
        ensures
            final(self).wf(),
            exists|now: i64, seed: Seq<u8>| validated_with(r, old(self)@, final(self)@, response@, now, seed),
            old(self)@.contains_key(response.challenge_id) && !old(self)@[response.challenge_id].consumed
                && nonce_signature_ok(old(self)@, response@) ==> is_success(r) || r matches Ok(
                AuthResult::Expired,
            ),
            key_is_32(r),
    {
        let now = now_micros();
        let ghost before = self@;
        let r = self.validate_response_at(response, now, authorizer_keypair);
        proof {
            let seed = choose|seed: Seq<u8>| validated_with(r, before, self@, response@, now, seed);
            assert(validated_with(r, before, self@, response@, now, seed));
        }
        r
    }

    /// Removes the sessions that expired before `now`.
    pub fn cleanup_expired_at(&mut self, now: i64)
        requires
            old(self).wf(),
        ensures
            final(self).wf(),
            swept(old(self)@, final(self)@, now),
    {
        let ghost start = self@;
        let mut i: usize = self.sessions.len();
        while i > 0
            invariant
                0 <= i <= self.sessions@.len(),
                self.wf(),
                forall|k: u128| #[trigger] self@.contains_key(k) ==> start.contains_key(k) && self@[k] == start[k],
                forall|k: u128|
                    start.contains_key(k) && start[k].challenge.expires_at >= now ==> #[trigger] self@.contains_key(k),
                forall|j: int| i <= j < self.sessions@.len() ==> (#[trigger] self.pairs()[j]).1.challenge.expires_at >= now,
            decreases i,
        {
            i = i - 1;
            let ghost before = self.pairs();
            proof {
                lemma_keyed_map(before);
            }
            if self.sessions[i].challenge.expires_at < now {
                let ghost key = before[i as int].0;
                let ghost m = self@;
                proof {
                    lemma_keyed_remove(before, i as int);
                    assert(m[before[i as int].0] == before[i as int].1);
                    assert(m.contains_key(before[i as int].0));
                    assert(start[key] == m[key]);
                    assert(start[key].challenge.expires_at < now);
                }
                self.sessions.remove(i);
                assert(self.pairs() =~= before.remove(i as int));
                assert(self@ == m.remove(key));
                assert forall|j: int| i <= j < self.sessions@.len() implies (#[trigger] self.pairs()[j]).1.challenge.expires_at >= now by {
                    assert(self.pairs()[j] == before[j + 1]);
                }
            }
        }
        proof {
            lemma_keyed_map(self.pairs());
            assert forall|k: u128| #[trigger] self@.contains_key(k) implies start[k].challenge.expires_at >= now by {
                let j = choose|j: int| 0 <= j < self.pairs().len() && #[trigger] self.pairs()[j].0 == k;
                assert(self@[self.pairs()[j].0] == self.pairs()[j].1);
            }
        }
    }

    /// Removes the sessions that expired before the current time.
    pub fn cleanup_expired(&mut self)
        requires
            old(self).wf(),
        ensures
            final(self).wf(),
            exists|now: i64| swept(old(self)@, final(self)@, now),
    {
        let now = now_micros();
        self.cleanup_expired_at(now);
        assert(swept(old(self)@, self@, now));
    }

    /// Number of sessions held.
    pub fn active_session_count(&self) -> (r: usize)
        requires
            self.wf(),
        ensures
            r as nat == self@.dom().len(),
    {
        proof {
            lemma_keyed_map(self.pairs());
        }
        self.sessions.len()
    }

    /// Removes the session of a challenge; returns whether there was one.
    pub fn cancel_challenge(&mut self, challenge_id: u128) -> (r: bool)
        requires
            old(self).wf(),
        ensures
            final(self).wf(),
            r == old(self)@.contains_key(challenge_id),
            final(self)@ == old(self)@.remove(challenge_id),
    {
        match self.find(challenge_id) {
            None => {
                assert(self@ =~= self@.remove(challenge_id));
                false
            },
            Some(i) => {
                let ghost before = self.pairs();
                proof {
                    lemma_keyed_remove(before, i as int);
                }
                self.sessions.remove(i);
                assert(self.pairs() =~= before.remove(i as int));
                true
            },
        }
    }
}

impl Default for DeviceAuthManager {
    fn default() -> (r: Self)
        ensures
            r.wf(),
            r@ == SessionMap::empty(),
    {
        Self::new()
    }
}

// ---------------------------------------------------------------------------
// New device side
// ---------------------------------------------------------------------------

/// Answers a scanned challenge: a fresh device id, this device's peer
/// identity and public key, and its signature of the nonce, which verifies
/// under that public key.
pub fn create_auth_response(
    challenge: &AuthChallenge,
    device_type: String,
    device_name: String,
    keypair: &libp2p::identity::Keypair,
) -> (r: Result<AuthResponse, String>)
    ensures
        r is Ok,
        r matches Ok(resp) ==> resp.challenge_id == challenge.challenge_id && resp.device_type@
            == device_type@ && resp.device_name@ == device_name@ && signature_valid(
            resp.public_key@,
            encode_utf8(challenge.nonce@),
            resp.signed_nonce@,
        ),
{
    let requesting_device_id = random_id();
    let requesting_peer_id = peer_id_text(keypair);
    match sign_with_key(keypair, challenge.nonce.as_str().as_bytes()) {
        None => Err("Failed to sign nonce".to_string()),
        Some((public_key, signed_nonce)) => Ok(
            AuthResponse {
                challenge_id: challenge.challenge_id,
                requesting_device_id,
                requesting_peer_id,
                device_type,
                device_name,
                signed_nonce,
                public_key,
            },
        ),
    }
}

/// The new device's side of the sync key: its own seed against the
/// authorizer's public key, with the challenge nonce.
pub fn pairing_sync_key(challenge: &AuthChallenge, keypair: &libp2p::identity::Keypair) -> (r: Option<Vec<u8>>)
    ensures
        r matches Some(k) ==> k@.len() == 32,
        (exists|m: Seq<u8>, s: Seq<u8>| signature_valid(challenge.public_key@, m, s)) ==> r is Some,
{
    match ed25519_seed(keypair) {
        None => None,
        Some(seed) => {
            let own = public_key_bytes(keypair);
            derive_sync_key(seed.as_slice(), own.as_slice(), challenge.public_key.as_slice(), challenge.nonce.as_str())
        },
    }
}

/// The device record a successful pairing adds for the new device.
pub fn paired_device(response: &AuthResponse, user_id: u128, now: i64) -> (r: Device)
    ensures
        r.device_id == response.requesting_device_id,
        r.user_id == user_id,
        r.device_type@ == response.device_type@,
        r.push_token is None,
        r.last_seen == Some(now),
{
    Device {
        device_id: response.requesting_device_id,
        user_id,
        device_type: response.device_type.clone(),
        push_token: None,
        last_seen: Some(now),
    }
}

// ---------------------------------------------------------------------------
// Workflows
// ---------------------------------------------------------------------------

/// The authorizer's steps: issue a QR payload, then authorize the device that
/// answers it.
pub struct AuthorizerWorkflow {
    manager: DeviceAuthManager,
}

impl View for AuthorizerWorkflow {
    type V = SessionMap;

    closed spec fn view(&self) -> SessionMap {
        self.manager@
    }
}

impl AuthorizerWorkflow {
    pub closed spec fn wf(&self) -> bool {
        self.manager.wf()
    }

    pub fn new() -> (r: Self)
        ensures
            r.wf(),
            r@ == SessionMap::empty(),
    {
        AuthorizerWorkflow { manager: DeviceAuthManager::new() }
    }

    /// Creates a challenge valid for the default five minutes and returns its
    /// QR text.
    pub fn generate_qr_code(
        &mut self,
        user_id: u128,
        device_id: u128,
        keypair: &libp2p::identity::Keypair,
        address: String,
    ) -> (r: Result<String, String>)
        requires
            old(self).wf(),
        ensures
            final(self).wf(),
            r matches Ok(text) ==> decode_qr(text@) matches Some(c) && c.user_id == user_id
                && c.authorizer_device_id == device_id && c.authorizer_address == address@
                && c.expires_at == expiry_of(c.created_at, DEFAULT_VALIDITY_MINUTES)
                && final(self)@.contains_key(c.challenge_id)
                && final(self)@[c.challenge_id].challenge == c && !final(self)@[c.challenge_id].consumed,
    {
        let challenge = self.manager.create_challenge(user_id, device_id, keypair, address, DEFAULT_VALIDITY_MINUTES)?;
        let r = DeviceAuthManager::encode_challenge_to_qr(&challenge);
        proof {
            if r is Ok {
                lemma_qr_round_trip(challenge@);
            }
        }
        r
    }

    /// Validates the new device's response at the current time (see
    /// `DeviceAuthManager::validate_response`).
    pub fn authorize_device(
        &mut self,
        response: &AuthResponse,
        authorizer_keypair: &libp2p::identity::Keypair,
    ) -> (r: Result<AuthResult, String>)
        requires
            old(self).wf(),
        ensures
            final(self).wf(),
            exists|now: i64, seed: Seq<u8>| validated_with(r, old(self)@, final(self)@, response@, now, seed),
            old(self)@.contains_key(response.challenge_id) && !old(self)@[response.challenge_id].consumed
                && nonce_signature_ok(old(self)@, response@) ==> is_success(r) || r matches Ok(
                AuthResult::Expired,
            ),
            key_is_32(r),
    {
        let ghost before = self@;
        let r = self.manager.validate_response(response, authorizer_keypair);
        proof {
            let (t, seed) = choose|t: i64, seed: Seq<u8>| validated_with(r, before, self.manager@, response@, t, seed);
            assert(validated_with(r, before, self@, response@, t, seed));
        }
        r
    }

    /// Validates the new device's response at time `now` (see
    /// `DeviceAuthManager::validate_response_at`).
    pub fn authorize_device_at(
        &mut self,
        response: &AuthResponse,
        now: i64,
        authorizer_keypair: &libp2p::identity::Keypair,
    ) -> (r: Result<AuthResult, String>)
        requires
            old(self).wf(),
        ensures
            final(self).wf(),
            exists|seed: Seq<u8>| validated_with(r, old(self)@, final(self)@, response@, now, seed),
            admissible(old(self)@, response@, now) ==> is_success(r),
            key_is_32(r),
    {
        let ghost before = self@;
        let r = self.manager.validate_response_at(response, now, authorizer_keypair);
        proof {
            let seed = choose|seed: Seq<u8>| validated_with(r, before, self.manager@, response@, now, seed);
            assert(validated_with(r, before, self@, response@, now, seed));
        }
        r
    }

    /// The outcome `authorize_device_at` would have, without consuming the
    /// session.
    pub fn check_device_at(
        &self,
        response: &AuthResponse,
        now: i64,
        authorizer_keypair: &libp2p::identity::Keypair,
    ) -> (r: Result<AuthResult, String>)
        requires
            self.wf(),
        ensures
            exists|seed: Seq<u8>| seed.len() == 32 && judged(
                r,
                validation(self@, response@, now, nonce_signature_ok(self@, response@), authorizer_key(self@, response@, seed)),
            ),
            admissible(self@, response@, now) ==> is_success(r),
            key_is_32(r),
    {
        self.manager.check_response_at(response, now, authorizer_keypair)
    }

    /// Sweeps expired sessions.
    pub fn cleanup(&mut self)
        requires
            old(self).wf(),
        ensures
            final(self).wf(),
            exists|now: i64| swept(old(self)@, final(self)@, now),
    {
        let ghost before = self@;
        self.manager.cleanup_expired();
        proof {
            let t = choose|t: i64| swept(before, self.manager@, t);
            assert(swept(before, self@, t));
        }
    }

    pub fn active_session_count(&self) -> (r: usize)
        requires
            self.wf(),
        ensures
            r as nat == self@.dom().len(),
    {
        self.manager.active_session_count()
    }
}

impl Default for AuthorizerWorkflow {
    fn default() -> (r: Self)
        ensures
            r.wf(),
            r@ == SessionMap::empty(),
    {
        Self::new()
    }
}

/// The new device's steps: scan, answer, connect.
pub struct NewDeviceWorkflow;

impl NewDeviceWorkflow {
    /// Parses the scanned QR text.
    pub fn scan_qr_code(qr_data: &str) -> (r: Result<AuthChallenge, String>)
        ensures
            match r {
                Ok(c) => decode_qr(qr_data@) == Some(c@),
                Err(_) => decode_qr(qr_data@) is None,
            },
    {
        DeviceAuthManager::decode_challenge_from_qr(qr_data)
    }

    /// Builds the response to send to the authorizer.
    pub fn create_pairing_request(
        challenge: &AuthChallenge,
        device_type: String,
        device_name: String,
        keypair: &libp2p::identity::Keypair,
    ) -> (r: Result<AuthResponse, String>)
        ensures
            r is Ok,
            r matches Ok(resp) ==> resp.challenge_id == challenge.challenge_id && resp.device_type@
                == device_type@ && resp.device_name@ == device_name@ && signature_valid(
                resp.public_key@,
                encode_utf8(challenge.nonce@),
                resp.signed_nonce@,
            ),
    {
        create_auth_response(challenge, device_type, device_name, keypair)
    }

    /// The address to dial: the authorizer's multiaddress followed by
    /// `/p2p/<peer id>`.
    pub fn connect_to_authorizer(challenge: &AuthChallenge) -> (r: Result<String, String>)
        ensures
            r matches Ok(a) && a@ == challenge.authorizer_address@ + "/p2p/"@ + challenge.authorizer_peer_id@,
    {
        let head = concat_str(challenge.authorizer_address.as_str(), "/p2p/");
        Ok(concat_str(head.as_str(), challenge.authorizer_peer_id.as_str()))
    }
}

} // verus!
