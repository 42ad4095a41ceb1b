//! Sealed boxes: authenticated public-key encryption with a fresh sender key
//! for every message.
//!
//! The cipher is `crypto_box`'s; this module frames its inputs and outputs.

use crate::bignum::zero_padded;
use crypto_box::aead::generic_array::GenericArray;
use crypto_box::aead::Aead;
use crypto_box::PublicKey;
use crypto_box::SecretKey;
use rand::rngs::OsRng;
use vstd::prelude::*;

verus! {

/// Width of a secret or public key, in bytes.
pub const KEY_WIDTH: usize = 32;

/// Width of a nonce, in bytes.
pub const NONCE_WIDTH: usize = 24;

/// Width of the authentication tag that leads a ciphertext, in bytes.
pub const TAG_WIDTH: usize = 16;

/// A key was longer than [`KEY_WIDTH`] bytes.
#[derive(Debug, Clone, Copy, PartialEq, Eq)]
pub struct KeyWidthViolation {
    /// Length of the rejected key.
    pub length: usize,
}

/// An encrypted payload: all that the recipient needs besides the private key.
#[derive(Clone, Debug, PartialEq, Eq, Hash)]
pub struct EncData {
    /// The ciphertext with its authentication tag.
    pub encdata: Vec<u8>,
    /// The nonce the message was sealed under.
    pub nonce: Vec<u8>,
    /// The sender's public key, made for this message alone.
    pub pubkey: Vec<u8>,
}

/// The public key that belongs to a secret key.
pub uninterp spec fn box_public_key(secret_key: Seq<u8>) -> Seq<u8>;

/// The ciphertext of `plaintext` between a recipient's public key and a
/// sender's secret key, under `nonce`.
pub uninterp spec fn box_seal(
    public_key: Seq<u8>,
    secret_key: Seq<u8>,
    nonce: Seq<u8>,
    plaintext: Seq<u8>,
) -> Seq<u8>;

/// The plaintext of `ciphertext` between a sender's public key and a
/// recipient's secret key, under `nonce`; `None` where it fails to
/// authenticate.
pub uninterp spec fn box_open(
    public_key: Seq<u8>,
    secret_key: Seq<u8>,
    nonce: Seq<u8>,
    ciphertext: Seq<u8>,
) -> Option<Seq<u8>>;

/// `SecretKey::generate` on the operating system's generator: 32 random bytes.
#[verifier::external_body]
pub(crate) fn random_secret_key() -> (r: [u8; 32]) {
    SecretKey::generate(&mut OsRng).to_bytes()
}

/// `SecretKey::public_key`: the X25519 public key of `secret_key`, a function
/// of the secret key alone.
#[verifier::external_body]
pub(crate) fn public_key_of(secret_key: &[u8; 32]) -> (r: [u8; 32])
    ensures
        r@ == box_public_key(secret_key@),
{
    *SecretKey::from(*secret_key).public_key().as_bytes()
}

/// `crypto_box::generate_nonce` on the operating system's generator: 24
/// random bytes.
#[verifier::external_body]
fn random_nonce() -> (r: Vec<u8>)
    ensures
        r@.len() == NONCE_WIDTH,
{
    crypto_box::generate_nonce(&mut OsRng).to_vec()
}

/// `Box::new` and `Aead::encrypt`: with a slice as the payload there is no
/// associated data, and encryption into a fresh vector does not fail. The
/// result depends on the arguments alone; it is the tag of 16 bytes and the
/// encrypted bytes, as many as the plaintext has.
#[verifier::external_body]
fn box_encrypt(public_key: &[u8; 32], secret_key: &[u8; 32], nonce: &Vec<u8>, plaintext: &Vec<u8>)
    -> (r: Option<Vec<u8>>)
    requires
        nonce@.len() == NONCE_WIDTH,
    ensures
        r is Some,
        r.unwrap()@ == box_seal(public_key@, secret_key@, nonce@, plaintext@),
        r.unwrap()@.len() == plaintext@.len() + TAG_WIDTH,
{
    let cipher = crypto_box::Box::new(&PublicKey::from(*public_key), &SecretKey::from(*secret_key));
    cipher.encrypt(GenericArray::from_slice(nonce), &plaintext[..]).ok()
}

/// `Box::new` and `Aead::decrypt`: the plaintext, or nothing where the
/// ciphertext does not authenticate under the keys and the nonce. The result
/// depends on the arguments alone.
#[verifier::external_body]
fn box_decrypt(public_key: &[u8; 32], secret_key: &[u8; 32], nonce: &Vec<u8>, ciphertext: &Vec<u8>)
    -> (r: Option<Vec<u8>>)
    requires
        nonce@.len() == NONCE_WIDTH,
    ensures
        (r is Some) == (box_open(public_key@, secret_key@, nonce@, ciphertext@) is Some),
        r is Some ==> r.unwrap()@ == box_open(public_key@, secret_key@, nonce@, ciphertext@).unwrap(),
{
    let cipher = crypto_box::Box::new(&PublicKey::from(*public_key), &SecretKey::from(*secret_key));
    cipher.decrypt(GenericArray::from_slice(nonce), &ciphertext[..]).ok()
}

/// Brings key bytes to the fixed width by appending zero bytes. A key that is
/// longer than the fixed width is rejected.
pub fn get_pk_bytes(bytes: Vec<u8>) -> (r: Result<[u8; 32], KeyWidthViolation>)
    ensures
        match r {
            Ok(key) => bytes@.len() <= KEY_WIDTH && key@ == zero_padded(bytes@, KEY_WIDTH as nat),
            Err(e) => bytes@.len() > KEY_WIDTH && e.length == bytes@.len(),
        },
{
    let n = bytes.len();
    if n > KEY_WIDTH {
        return Err(KeyWidthViolation { length: n });
    }
    let mut key = [0u8;32];
    let mut i: usize = 0;
    while i < n
        invariant
            0 <= i <= n,
            n == bytes@.len(),
            n <= KEY_WIDTH,
            forall|k: int| 0 <= k < i ==> key@[k] == bytes@[k],
            forall|k: int| i <= k < KEY_WIDTH ==> key@[k] == 0,
        decreases n - i,
    {
        key[i] = bytes[i];
        i = i + 1;
    }
    proof {
        assert(key@ =~= zero_padded(bytes@, KEY_WIDTH as nat));
    }
    Ok(key)
}

/// What opening `ed` with the key material `key` yields: nothing where the
/// key is empty, where a key is longer than the fixed width or the nonce has
/// not the width of a nonce, or where the ciphertext does not authenticate.
pub open spec fn decryption(ed: EncData, key: Seq<u8>) -> Option<Seq<u8>> {
    if key.len() == 0 || key.len() > KEY_WIDTH || ed.pubkey@.len() > KEY_WIDTH || ed.nonce@.len()
        != NONCE_WIDTH {
        None
    } else {
        box_open(
            zero_padded(ed.pubkey@, KEY_WIDTH as nat),
            zero_padded(key, KEY_WIDTH as nat),
            ed.nonce@,
            ed.encdata@,
        )
    }
}

/// Opens `ed` with the recipient's private key. Every failure looks the same:
/// `false` and no bytes.
pub fn decrypt_encdata(ed: &EncData, decrypt_cap: &Vec<u8>) -> (r: (bool, Vec<u8>))
    ensures
        match decryption(*ed, decrypt_cap@) {
            Some(plaintext) => r.0 && r.1@ == plaintext,
            None => !r.0 && r.1@.len() == 0,
        },
{
    if decrypt_cap.is_empty() {
        return (false, Vec::new());
    }
    let secretkey = match get_pk_bytes(decrypt_cap.clone()) {
        Ok(key) => key,
        Err(_) => { return (false, Vec::new()); },
    };
    let pubkey = match get_pk_bytes(ed.pubkey.clone()) {
        Ok(key) => key,
        Err(_) => { return (false, Vec::new()); },
    };
    if ed.nonce.len() != NONCE_WIDTH {
        return (false, Vec::new());
    }
    match box_decrypt(&pubkey, &secretkey, &ed.nonce, &ed.encdata) {
        Some(plaintext) => (true, plaintext),
        None => (false, Vec::new()),
    }
}

/// Seals `bytes` for the holder of `pubkey` with the given sender key and
/// nonce.
pub fn seal_with(pubkey: &[u8; 32], bytes: &Vec<u8>, sender_key: &[u8; 32], nonce: Vec<u8>) -> (r:
    EncData)
    requires
        nonce@.len() == NONCE_WIDTH,
    ensures
        r.encdata@ == box_seal(pubkey@, sender_key@, nonce@, bytes@),
        r.encdata@.len() == bytes@.len() + TAG_WIDTH,
        r.nonce@ == nonce@,
        r.pubkey@ == box_public_key(sender_key@),
        r.pubkey@.len() == KEY_WIDTH,
{
    let sender_public = public_key_of(sender_key);
    let encrypted = match box_encrypt(pubkey, sender_key, &nonce, bytes) {
        Some(ciphertext) => ciphertext,
        None => Vec::new(),
    };
    EncData { encdata: encrypted, nonce: nonce, pubkey: array_to_vec(&sender_public) }
}

/// Seals `bytes` for the holder of `pubkey`, with a sender key and a nonce
/// that are drawn for this message alone.
pub fn encrypt_with_pubkey(pubkey: &[u8; 32], bytes: &Vec<u8>) -> (r: EncData)
    ensures
        r.nonce@.len() == NONCE_WIDTH,
        r.pubkey@.len() == KEY_WIDTH,
        r.encdata@.len() == bytes@.len() + TAG_WIDTH,
        exists|sender_key: Seq<u8>|
            sender_key.len() == KEY_WIDTH && r.pubkey@ == #[trigger] box_public_key(sender_key)
                && r.encdata@ == box_seal(pubkey@, sender_key, r.nonce@, bytes@),
{
    let sender_key = random_secret_key();
    let nonce = random_nonce();
    let r = seal_with(pubkey, bytes, &sender_key, nonce);
    proof {
        assert(sender_key@.len() == KEY_WIDTH);
        assert(r.pubkey@ == box_public_key(sender_key@));
    }
    r
}

/// The bytes of a key as a vector.
pub(crate) fn array_to_vec(key: &[u8; 32]) -> (r: Vec<u8>)
    ensures
        r@ == key@,
{
    let mut out: Vec<u8> = Vec::new();
    let mut i: usize = 0;
    while i < KEY_WIDTH
        invariant
            0 <= i <= KEY_WIDTH,
            out@.len() == i,
            forall|k: int| 0 <= k < i ==> out@[k] == key@[k],
        decreases KEY_WIDTH - i,
    {
        out.push(key[i]);
        i = i + 1;
    }
    proof {
        assert(out@ =~= key@);
    }
    out
}

} // verus!
