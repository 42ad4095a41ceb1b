//! The credential authority.
//!
//! Registration splits a fresh private key into three shares: one at an
//! x-coordinate derived from the password, one kept by the authority, one
//! handed back as a backup. Recovery interpolates two of them.

use crate::bignum::{
    abs, big_lt, is_minimal_le, le_bytes, le_value, lemma_spelling_round_trip,
    lemma_value_below_width, lemma_value_fills_width, zero_padded, BigNum,
};
use crate::crypto::{array_to_vec, box_public_key, get_pk_bytes, public_key_of, random_secret_key, KEY_WIDTH};
use crate::field::{is_prime, modulus};
use crate::text::push_str;
use crate::shamir::{
    interpolable, is_evaluation, is_sampled_points, is_sampled_polynomial, is_sharing,
    lagrange_at_zero, lemma_two_shares_recover_secret, xs_of, ys_of, ShamirSecretSharing, Share,
};
use num_primes::Generator;
use pbkdf2::password_hash::PasswordHasher;
use pbkdf2::password_hash::SaltString;
use pbkdf2::Pbkdf2;
use rand::rngs::OsRng;
use std::collections::hash_map::DefaultHasher;
use std::collections::HashMap;
use std::hash::Hash;
use std::hash::Hasher;
use vstd::arithmetic::power::{lemma_pow_positive, pow};
use vstd::pervasive::unreached;
use vstd::prelude::*;
use vstd::std_specs::hash::*;

verus! {

/// The y-value of a share.
pub type ShareValue = BigNum;

/// Where the authority keeps a user's share.
pub type ShareIndex = u64;

/// A user's identifier.
pub type UID = String;

/// Bits asked of the field prime.
pub const PRIME_BITS: usize = 512;

/// Bytes that a field prime fills.
pub const PRIME_BYTES: usize = 64;

/// How often [`Authorizer::new`] draws a prime before it gives up on one
/// that fills [`PRIME_BYTES`] bytes.
pub const PRIME_ATTEMPTS: usize = 1024;

/// What the authority knows of a user.
#[derive(Clone)]
pub struct UserCreds {
    pub pubkey: Option<[u8; 32]>,
    pub is_anon: bool,
    pub enc_locators_index: u64,
}

/// The share that the authority keeps, with what it takes to rebuild the
/// password's share.
#[derive(Clone, Debug, PartialEq, Eq)]
pub struct ShareStore {
    /// The authority's own point.
    pub share: Share,
    /// The y-value of the point at the password's x-coordinate.
    pub share_value: ShareValue,
    /// The salt that the password was hashed with.
    pub password_salt: String,
}

/// A [`ShareStore`] as plain values.
pub struct ShareRecord {
    pub share: (int, int),
    pub anchor_value: int,
    pub salt: Seq<char>,
}

impl View for ShareStore {
    type V = ShareRecord;

    open spec fn view(&self) -> ShareRecord {
        ShareRecord {
            share: point_of(self.share),
            anchor_value: self.share_value@,
            salt: self.password_salt@,
        }
    }
}

/// A share as a pair of integers.
pub open spec fn point_of(share: Share) -> (int, int) {
    (share[0]@, share[1]@)
}

/// The PHC string, as bytes, that PBKDF2 with its default parameters makes of
/// a password and a salt; `None` where the salt is not accepted.
pub uninterp spec fn password_hash(password: Seq<char>, salt: Seq<char>) -> Option<Seq<u8>>;

/// The hash of a string under the standard library's default hasher.
pub uninterp spec fn string_hash(text: Seq<char>) -> u64;

/// Where the share of a user with a password is kept.
pub open spec fn index_of(uid: Seq<char>, password: Seq<char>) -> u64 {
    string_hash(uid + password)
}

/// `Generator::new_prime` and `to_bytes_le`: a number that passed the
/// generator's primality tests, in its shortest spelling, least significant
/// byte first. The generator rejects zero outright, and one and two never
/// pass its tests. Its tests are probabilistic, so nothing is claimed of
/// primality. They fail on the candidate three, which is out of reach among
/// the bits asked for here.
#[verifier::external_body]
fn random_prime_bytes(bits: usize) -> (r: Vec<u8>)
    requires
        bits >= 128,
    ensures
        le_value(r@) > 1,
        is_minimal_le(r@),
{
    Generator::new_prime(bits).to_bytes_le()
}

/// A salt that hashing accepts. Whether a password can be hashed depends on
/// the salt alone, so this is said of the empty password.
pub open spec fn is_accepted_salt(salt: Seq<char>) -> bool {
    password_hash(Seq::empty(), salt) is Some
}

/// `SaltString::generate` on the operating system's generator: a fresh salt
/// as a string. It encodes sixteen random bytes, and hashing decodes and
/// accepts what was so encoded.
#[verifier::external_body]
fn fresh_salt() -> (r: String)
    ensures
        is_accepted_salt(r@),
{
    SaltString::generate(&mut OsRng).as_str().to_string()
}

/// `Pbkdf2.hash_password` with its default parameters: the PHC string of the
/// hash, which depends on the password and the salt alone, or nothing where
/// it reports an error. It reports one only of the salt: where it is too
/// short or too long, or is no encoding of bytes.
#[verifier::external_body]
fn hash_password(password: &str, salt: &str) -> (r: Option<Vec<u8>>)
    ensures
        (r is Some) == (password_hash(password@, salt@) is Some),
        (r is Some) == is_accepted_salt(salt@),
        r is Some ==> r.unwrap()@ == password_hash(password@, salt@).unwrap(),
{
    match Pbkdf2.hash_password(password.as_bytes(), salt) {
        Ok(hash) => Some(hash.to_string().into_bytes()),
        Err(_) => None,
    }
}

/// `Hash::hash` of a string into a `DefaultHasher` made by `new`, and
/// `finish`: all such hashers are alike, so the result is a function of the
/// string.
#[verifier::external_body]
fn hash_text(text: &String) -> (r: u64)
    ensures
        r == string_hash(text@),
{
    let mut hasher = DefaultHasher::new();
    text.hash(&mut hasher);
    hasher.finish()
}

/// A copy of a share.
fn clone_share(share: &Share) -> (r: Share)
    ensures
        point_of(r) == point_of(*share),
{
    [share[0].clone(), share[1].clone()]
}

/// The index under which the share of `uid` with `password` is kept.
pub fn share_index(uid: &String, password: &str) -> (r: ShareIndex)
    ensures
        r == index_of(uid@, password@),
{
    let mut text = uid.clone();
    push_str(&mut text, password);
    hash_text(&text)
}

/// A fresh secret key and the public key that belongs to it.
pub fn generate_keypair() -> (r: ([u8; 32], [u8; 32]))
    ensures
        r.1@ == box_public_key(r.0@),
{
    let secretkey = random_secret_key();
    let pubkey = public_key_of(&secretkey);
    (secretkey, pubkey)
}

/// A password as plain values.
pub open spec fn password_view(password: Option<String>) -> Option<Seq<char>> {
    match password {
        Some(p) => Some(p@),
        None => None,
    }
}

/// A backup share and its index as plain values.
pub open spec fn backup_view(backup: Option<(Share, ShareIndex)>) -> Option<((int, int), u64)> {
    match backup {
        Some((share, index)) => Some((point_of(share), index)),
        None => None,
    }
}

/// The x-coordinate that a password's hash gives: the number that its bytes
/// spell, least significant first, as a residue of the prime.
pub open spec fn anchor_of(hash: Seq<u8>, prime: int) -> int {
    le_value(hash) as int % prime
}

/// The two points that recovery interpolates, in the order in which it takes
/// them up. With a backup share: that share, then the one kept under its
/// index. With a password: the share kept under the index of user and
/// password, then the point at the password's hash. `None` where fewer than
/// two points come together.
pub open spec fn assembled(
    records: Map<u64, ShareRecord>,
    prime: int,
    uid: Seq<char>,
    password: Option<Seq<char>>,
    backup: Option<((int, int), u64)>,
) -> Option<((int, int), (int, int))> {
    match backup {
        Some((point, index)) => if records.contains_key(index) {
            Some((point, records[index].share))
        } else {
            None
        },
        None => match password {
            None => None,
            Some(pw) => {
                let index = index_of(uid, pw);
                if records.contains_key(index) {
                    match password_hash(pw, records[index].salt) {
                        Some(hash) => Some(
                            (
                                records[index].share,
                                (anchor_of(hash, prime), records[index].anchor_value),
                            ),
                        ),
                        None => None,
                    }
                } else {
                    None
                }
            },
        },
    }
}

/// The key that a reconstructed scalar stands for: the bytes of its absolute
/// value, least significant first, filled up to the width of a key; `None`
/// where they are more than that.
pub open spec fn key_of_scalar(scalar: int) -> Option<Seq<u8>> {
    let bytes = le_bytes(abs(scalar) as nat);
    if bytes.len() <= KEY_WIDTH {
        Some(zero_padded(bytes, KEY_WIDTH as nat))
    } else {
        None
    }
}

/// What recovery returns: the key of the scalar that the two assembled points
/// interpolate to; `None` where there are not two points, where they cannot
/// be interpolated modulo the prime, or where the scalar is wider than a key.
pub open spec fn recovery(
    records: Map<u64, ShareRecord>,
    prime: int,
    uid: Seq<char>,
    password: Option<Seq<char>>,
    backup: Option<((int, int), u64)>,
) -> Option<Seq<u8>> {
    match assembled(records, prime, uid, password, backup) {
        None => None,
        Some((a, b)) => if interpolable(seq![a.0, b.0], prime) {
            key_of_scalar(lagrange_at_zero(seq![a.0, b.0], seq![a.1, b.1], prime))
        } else {
            None
        },
    }
}

/// The record that a registration with the shares `shares` leaves behind.
pub open spec fn record_of(shares: Seq<Share>, salt: Seq<char>) -> ShareRecord {
    ShareRecord { share: point_of(shares[1]), anchor_value: shares[0][1]@, salt: salt }
}

/// `after` is `before` with one registration added: of the user `uid` with
/// `password`, for the secret key `secret_key`, with the salt `salt` and the
/// sharing `shares`.
pub open spec fn is_registration(
    before: Map<u64, ShareRecord>,
    after: Map<u64, ShareRecord>,
    prime: int,
    uid: Seq<char>,
    password: Seq<char>,
    secret_key: Seq<u8>,
    salt: Seq<char>,
    shares: Seq<Share>,
) -> bool {
    &&& secret_key.len() == KEY_WIDTH
    &&& password_hash(password, salt) is Some
    &&& is_sharing(
        shares,
        le_value(secret_key) as int,
        anchor_of(password_hash(password, salt).unwrap(), prime),
        1,
        3,
        prime,
    )
    &&& after == before.insert(index_of(uid, password), record_of(shares, salt))
}

/// `outcome` is what registering `uid` with `password` for `secret_key`
/// under the salt `salt` comes to. Where the password cannot be hashed under
/// that salt, nothing is kept and nothing handed back. Where it can, `after`
/// is `before` with that registration added, and the third share of its
/// sharing is handed back with the index of user and password.
pub open spec fn is_registered_with(
    before: Map<u64, ShareRecord>,
    after: Map<u64, ShareRecord>,
    prime: int,
    uid: Seq<char>,
    password: Seq<char>,
    secret_key: Seq<u8>,
    salt: Seq<char>,
    outcome: Option<((int, int), u64)>,
) -> bool {
    match password_hash(password, salt) {
        None => outcome is None && after == before,
        Some(_) => outcome matches Some((backup, index)) && index == index_of(uid, password)
            && exists|shares: Seq<Share>|
            #[trigger] is_registration(
                before,
                after,
                prime,
                uid,
                password,
                secret_key,
                salt,
                shares,
            ) && backup == point_of(shares[2]),
    }
}

/// Recovery with the password right after registration gives back the secret
/// key that registration made: provided the modulus is a prime above the
/// key's value, and the password's x-coordinate and the kept share's differ
/// modulo it.
pub proof fn lemma_register_then_recover(
    before: Map<u64, ShareRecord>,
    after: Map<u64, ShareRecord>,
    prime: int,
    uid: Seq<char>,
    password: Seq<char>,
    secret_key: Seq<u8>,
    salt: Seq<char>,
    shares: Seq<Share>,
)
    requires
        is_prime(prime),
        is_registration(before, after, prime, uid, password, secret_key, salt, shares),
        le_value(secret_key) < prime,
        (shares[0][0]@ - shares[1][0]@) % prime != 0,
    ensures
        recovery(after, prime, uid, Some(password), None) == Some(secret_key),
{
    let secret = le_value(secret_key) as int;
    let anchor = anchor_of(password_hash(password, salt).unwrap(), prime);
    let coefficients = choose|coefficients: Seq<int>|
        {
            &&& #[trigger] is_sampled_polynomial(coefficients, secret, 1)
            &&& is_sampled_points(xs_of(shares), anchor, 3)
            &&& is_evaluation(shares, coefficients, xs_of(shares), prime)
        };
    assert(xs_of(shares)[0] == shares[0][0]@);
    lemma_two_shares_recover_secret(shares, secret, anchor, 3, prime, 1, 0);
    lemma_spelling_round_trip(secret_key);
    let record = after[index_of(uid, password)];
    assert(record == record_of(shares, salt));
    assert(assembled(after, prime, uid, Some(password), None) == Some(
        (point_of(shares[1]), (anchor, shares[0][1]@)),
    ));
}

/// Recovery with the backup share right after registration gives back the
/// secret key that registration made, as recovery with the password does:
/// provided the modulus is a prime above the key's value, and the backup
/// share's x-coordinate and the kept share's differ modulo it.
pub proof fn lemma_register_then_recover_from_backup(
    before: Map<u64, ShareRecord>,
    after: Map<u64, ShareRecord>,
    prime: int,
    uid: Seq<char>,
    password: Seq<char>,
    secret_key: Seq<u8>,
    salt: Seq<char>,
    shares: Seq<Share>,
)
    requires
        is_prime(prime),
        is_registration(before, after, prime, uid, password, secret_key, salt, shares),
        le_value(secret_key) < prime,
        (shares[1][0]@ - shares[2][0]@) % prime != 0,
    ensures
        recovery(after, prime, uid, None, Some((point_of(shares[2]), index_of(uid, password))))
            == Some(secret_key),
{
    let secret = le_value(secret_key) as int;
    let anchor = anchor_of(password_hash(password, salt).unwrap(), prime);
    lemma_two_shares_recover_secret(shares, secret, anchor, 3, prime, 2, 1);
    lemma_spelling_round_trip(secret_key);
    let record = after[index_of(uid, password)];
    assert(record == record_of(shares, salt));
}

/// A password under whose index nothing is kept recovers nothing.
pub proof fn lemma_unknown_password_recovers_nothing(
    records: Map<u64, ShareRecord>,
    prime: int,
    uid: Seq<char>,
    password: Seq<char>,
)
    requires
        !records.contains_key(index_of(uid, password)),
    ensures
        recovery(records, prime, uid, Some(password), None) is None,
{
}

/// Fewer than two shares recover nothing: without a password and a backup
/// share, or with a backup share under whose index nothing is kept.
pub proof fn lemma_too_few_shares_recover_nothing(
    records: Map<u64, ShareRecord>,
    prime: int,
    uid: Seq<char>,
    point: (int, int),
    index: u64,
)
    ensures
        recovery(records, prime, uid, None, None) is None,
        !records.contains_key(index) ==> recovery(records, prime, uid, None, Some((point, index)))
            is None,
{
}

/// The authority: a field prime and the shares it keeps.
pub struct Authorizer {
    user_creds: HashMap<UID, UserCreds>,
    shares_map: HashMap<ShareIndex, ShareStore>,
    prime: BigNum,
}

impl Authorizer {
    /// The authority's modulus is greater than one.
    pub closed spec fn wf(&self) -> bool {
        self.prime@ > 1
    }

    /// The field prime.
    pub closed spec fn prime(&self) -> int {
        self.prime@
    }

    /// The records kept, by index.
    pub closed spec fn records(&self) -> Map<u64, ShareRecord> {
        self.shares_map@.map_values(|s: ShareStore| s@)
    }

    /// An authority without records over the field of the given prime;
    /// `None` where the number is not greater than one.
    pub fn with_prime(prime: BigNum) -> (r: Option<Authorizer>)
        ensures
            (r is Some) == (prime@ > 1),
            r is Some ==> r.unwrap().wf() && r.unwrap().prime() == prime@ && r.unwrap().records()
                == Map::<u64, ShareRecord>::empty(),
    {
        let one = BigNum::from_i64(1);
        if !big_lt(&one, &prime) {
            return None;
        }
        let authorizer = Authorizer {
            user_creds: HashMap::new(),
            shares_map: HashMap::new(),
            prime: prime,
        };
        proof {
            assert(authorizer.records() =~= Map::<u64, ShareRecord>::empty());
        }
        Some(authorizer)
    }

    /// An authority without records over the field of the number that
    /// `prime_bytes` spells, least significant byte first; `None` unless the
    /// number fills [`PRIME_BYTES`] bytes, the last of which is not zero.
    pub fn with_prime_bytes(prime_bytes: &Vec<u8>) -> (r: Option<Authorizer>)
        ensures
            (r is Some) == (prime_bytes@.len() == PRIME_BYTES && prime_bytes@.last() != 0),
            r is Some ==> r.unwrap().wf() && r.unwrap().prime() == le_value(prime_bytes@)
                && r.unwrap().records() == Map::<u64, ShareRecord>::empty(),
            r is Some ==> pow(256, (PRIME_BYTES - 1) as nat) <= r.unwrap().prime() < pow(
                256,
                PRIME_BYTES as nat,
            ),
    {
        if prime_bytes.len() != PRIME_BYTES || prime_bytes[PRIME_BYTES - 1] == 0 {
            return None;
        }
        proof {
            lemma_value_below_width(prime_bytes@);
            lemma_value_fills_width(prime_bytes@);
            lemma_pow_positive(256, (PRIME_BYTES - 2) as nat);
            assert(pow(256, (PRIME_BYTES - 1) as nat) == 256 * pow(256, (PRIME_BYTES - 2) as nat))
                by {
                reveal(pow);
            }
        }
        Authorizer::with_prime(BigNum::from_bytes_le(prime_bytes))
    }

    /// An authority without records over the field of a fresh prime that
    /// fills [`PRIME_BYTES`] bytes. A prime that does not is drawn again;
    /// `None` where [`PRIME_ATTEMPTS`] draws gave none that does.
    pub fn new() -> (r: Option<Authorizer>)
        ensures
            r is Some ==> r.unwrap().wf() && r.unwrap().records() == Map::<
                u64,
                ShareRecord,
            >::empty(),
            r is Some ==> pow(256, (PRIME_BYTES - 1) as nat) <= r.unwrap().prime() < pow(
                256,
                PRIME_BYTES as nat,
            ),
    {
        let mut attempts: usize = PRIME_ATTEMPTS;
        while attempts > 0
            decreases attempts,
        {
            let prime_bytes = random_prime_bytes(PRIME_BITS);
            match Authorizer::with_prime_bytes(&prime_bytes) {
                Some(authorizer) => {
                    return Some(authorizer);
                },
                None => {},
            }
            attempts = attempts - 1;
        }
        None
    }

    /// Keeps the second of `all_shares` with the y-value of the first and the
    /// salt, under the index of user and password, and hands back the third
    /// with that index.
    pub fn store_shares(&mut self, uid: &UID, password: &str, salt: String, all_shares: &Vec<Share>)
        -> (r: (Share, ShareIndex))
        requires
            old(self).wf(),
            all_shares@.len() >= 3,
        ensures
            final(self).wf(),
            final(self).prime() == old(self).prime(),
            r.1 == index_of(uid@, password@),
            point_of(r.0) == point_of(all_shares@[2]),
            final(self).records() == old(self).records().insert(
                r.1,
                record_of(all_shares@, salt@),
            ),
    {
        broadcast use group_hash_axioms;

        let uid_pw_hash = share_index(uid, password);
        let perm_share = ShareStore {
            share: clone_share(&all_shares[1]),
            share_value: all_shares[0][1].clone(),
            password_salt: salt,
        };
        let ghost record = perm_share@;
        self.shares_map.insert(uid_pw_hash, perm_share);
        proof {
            assert(self.records() =~= old(self).records().insert(uid_pw_hash, record));
        }
        (clone_share(&all_shares[2]), uid_pw_hash)
    }

    /// Registers `uid` with `password` for a key pair made on the spot: see
    /// [`Self::register_secret_key`].
    pub fn register_user_shares(&mut self, uid: &UID, password: &str) -> (r: (Share, ShareIndex))
        requires
            old(self).wf(),
        ensures
            final(self).wf(),
            final(self).prime() == old(self).prime(),
            r.1 == index_of(uid@, password@),
            exists|secret_key: Seq<u8>, salt: Seq<char>, shares: Seq<Share>|
                #[trigger] is_registration(
                    old(self).records(),
                    final(self).records(),
                    old(self).prime(),
                    uid@,
                    password@,
                    secret_key,
                    salt,
                    shares,
                ) && point_of(r.0) == point_of(shares[2]),
    {
        let (secretkey, _pubkey) = generate_keypair();
        self.register_secret_key(uid, password, &secretkey)
    }

    /// Registers `uid` with `password` for the secret key `secret_key`,
    /// under a salt that is drawn for this registration alone: splits the key
    /// into three shares, the first at the x-coordinate that the password's
    /// hash under the salt gives, keeps the second and hands back the third
    /// with the index under which the kept one lies.
    pub fn register_secret_key(&mut self, uid: &UID, password: &str, secret_key: &[u8; 32]) -> (r:
        (Share, ShareIndex))
        requires
            old(self).wf(),
        ensures
            final(self).wf(),
            final(self).prime() == old(self).prime(),
            r.1 == index_of(uid@, password@),
            exists|salt: Seq<char>, shares: Seq<Share>|
                #[trigger] is_registration(
                    old(self).records(),
                    final(self).records(),
                    old(self).prime(),
                    uid@,
                    password@,
                    secret_key@,
                    salt,
                    shares,
                ) && point_of(r.0) == point_of(shares[2]),
    {
        let salt = fresh_salt();
        let ghost salt_view = salt@;
        match self.register_with_salt(uid, password, secret_key, salt) {
            Some(r) => {
                proof {
                    let shares = choose|shares: Seq<Share>|
                        #[trigger] is_registration(
                            old(self).records(),
                            self.records(),
                            old(self).prime(),
                            uid@,
                            password@,
                            secret_key@,
                            salt_view,
                            shares,
                        ) && point_of(r.0) == point_of(shares[2]);
                    assert(is_registration(
                        old(self).records(),
                        self.records(),
                        old(self).prime(),
                        uid@,
                        password@,
                        secret_key@,
                        salt_view,
                        shares,
                    ));
                }
                r
            },
            // a salt that was just drawn is accepted
            None => unreached(),
        }
    }

    /// Registers `uid` with `password` for the secret key `secret_key` under
    /// the salt `salt`: splits the key into three shares, the first at the
    /// x-coordinate that the password's hash under the salt gives, keeps the
    /// second and hands back the third with the index under which the kept
    /// one lies. `None`, with nothing kept, exactly where the password cannot
    /// be hashed under the salt.
    pub fn register_with_salt(
        &mut self,
        uid: &UID,
        password: &str,
        secret_key: &[u8; 32],
        salt: String,
    ) -> (r: Option<(Share, ShareIndex)>)
        requires
            old(self).wf(),
        ensures
            final(self).wf(),
            final(self).prime() == old(self).prime(),
            (r is Some) == (password_hash(password@, salt@) is Some),
            (r is Some) == is_accepted_salt(salt@),
            is_registered_with(
                old(self).records(),
                final(self).records(),
                old(self).prime(),
                uid@,
                password@,
                secret_key@,
                salt@,
                backup_view(r),
            ),
    {
        let pass_info = match hash_password(password, salt.as_str()) {
            Some(pass_info) => pass_info,
            None => { return None; },
        };
        let hash_pass_bigint = modulus(&BigNum::from_bytes_le(&pass_info), &self.prime);
        let secretkey_int = BigNum::from_bytes_le(&array_to_vec(secret_key));
        let sss = ShamirSecretSharing { threshold: 1, share_count: 3, prime: self.prime.clone() };
        // the shares, in order: at the password's hash, and at two drawn x-coordinates
        let all_shares = sss.share(&secretkey_int, &hash_pass_bigint);
        let ghost salt_view = salt@;
        proof {
            assert(xs_of(all_shares@).len() == 3);
        }
        let r = self.store_shares(uid, password, salt, &all_shares);
        proof {
            assert(is_registration(
                old(self).records(),
                self.records(),
                old(self).prime(),
                uid@,
                password@,
                secret_key@,
                salt_view,
                all_shares@,
            ));
            assert(point_of(r.0) == point_of(all_shares@[2]));
        }
        Some(r)
    }

    /// Recovers a user's private key from two shares: the backup share and
    /// the one kept under its index, or, without a backup share, the one kept
    /// for user and password and the one that the password gives. `None`
    /// where neither is supplied, where two shares do not come together or
    /// cannot be interpolated, or where the result is wider than a key.
    pub fn get_priv_key(
        &self,
        uid: &UID,
        password: Option<String>,
        share: Option<(Share, ShareIndex)>,
    ) -> (r: Option<Vec<u8>>)
        requires
            self.wf(),
        ensures
            match recovery(
                self.records(),
                self.prime(),
                uid@,
                password_view(password),
                backup_view(share),
            ) {
                Some(key) => r is Some && r.unwrap()@ == key,
                None => r is None,
            },
    {
        broadcast use group_hash_axioms;

        let ghost points = assembled(
            self.records(),
            self.prime(),
            uid@,
            password_view(password),
            backup_view(share),
        );
        let mut shares: Vec<Share> = Vec::new();
        match share {
            Some((point, index)) => {
                shares.push(point);
                match self.shares_map.get(&index) {
                    Some(record) => {
                        shares.push(clone_share(&record.share));
                    },
                    None => {},
                }
            },
            None => {
                match password {
                    None => {
                        return None;
                    },
                    Some(password_str) => {
                        let index = share_index(uid, password_str.as_str());
                        match self.shares_map.get(&index) {
                            Some(record) => {
                                shares.push(clone_share(&record.share));
                                match hash_password(
                                    password_str.as_str(),
                                    record.password_salt.as_str(),
                                ) {
                                    Some(pass_info) => {
                                        let hash_pass_bigint = modulus(
                                            &BigNum::from_bytes_le(&pass_info),
                                            &self.prime,
                                        );
                                        shares.push([hash_pass_bigint, record.share_value.clone()]);
                                    },
                                    None => {},
                                }
                            },
                            None => {},
                        }
                    },
                }
            },
        }
        proof {
            assert(match points {
                Some((a, b)) => shares@.len() == 2 && point_of(shares@[0]) == a && point_of(
                    shares@[1],
                ) == b,
                None => shares@.len() != 2,
            });
        }
        if shares.len() != 2 {
            return None;
        }
        let sss = ShamirSecretSharing { threshold: 1, share_count: 3, prime: self.prime.clone() };
        proof {
            assert(shares@.take(2) =~= shares@);
            assert(xs_of(shares@) =~= seq![shares@[0][0]@, shares@[1][0]@]);
            assert(ys_of(shares@) =~= seq![shares@[0][1]@, shares@[1][1]@]);
        }
        if !sss.can_reconstruct(&shares) {
            return None;
        }
        let priv_key = sss.reconstruct(&shares);
        match get_pk_bytes(priv_key.to_bytes_le()) {
            Ok(pkbytes) => Some(array_to_vec(&pkbytes)),
            Err(_) => None,
        }
    }
}

} // verus!
