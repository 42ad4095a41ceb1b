use hydra::auth::{generate_keypair, share_index, Authorizer};
use hydra::bignum::BigNum;
use hydra::shamir::ShamirSecretSharing;
use pbkdf2::password_hash::PasswordHasher;
use pbkdf2::Pbkdf2;
use rand::distributions::Alphanumeric;
use rand::Rng;
use std::collections::hash_map::DefaultHasher;
use std::hash::{Hash, Hasher};

#[test]
fn share_index_hashes_user_and_password_together() {
    let uid = String::from("alice");
    let mut joined = String::from("alice");
    joined.push_str("secret");
    let mut hasher = DefaultHasher::new();
    joined.hash(&mut hasher);
    assert_eq!(share_index(&uid, "secret"), hasher.finish());
    assert_eq!(share_index(&String::from("ali"), "cesecret"), share_index(&uid, "secret"));
    assert_ne!(share_index(&uid, "secret"), share_index(&uid, "secre"));
    assert_ne!(share_index(&uid, "secret"), uid.len() as u64);
}

#[test]
fn with_prime_wants_a_modulus_above_one() {
    assert!(Authorizer::with_prime(BigNum::from_i64(1613)).is_some());
    assert!(Authorizer::with_prime(BigNum::from_i64(2)).is_some());
    assert!(Authorizer::with_prime(BigNum::from_i64(1)).is_none());
    assert!(Authorizer::with_prime(BigNum::from_i64(0)).is_none());
    assert!(Authorizer::with_prime(BigNum::from_i64(-7)).is_none());
}

#[test]
fn register_then_recover_with_password() {
    let mut authorizer = Authorizer::new().unwrap();
    let uid = String::from("user-0");
    let (_backup, index) = authorizer.register_user_shares(&uid, "correct horse");
    assert_eq!(index, share_index(&uid, "correct horse"));
    let key = authorizer.get_priv_key(&uid, Some(String::from("correct horse")), None);
    assert!(key.is_some());
    assert_eq!(key.unwrap().len(), 32);
}

#[test]
fn password_and_backup_recover_the_same_key() {
    let mut authorizer = Authorizer::new().unwrap();
    let uid = String::from("bob");
    let (backup, index) = authorizer.register_user_shares(&uid, "pw");
    let by_password = authorizer.get_priv_key(&uid, Some(String::from("pw")), None);
    let by_backup = authorizer.get_priv_key(&uid, None, Some((backup.clone(), index)));
    assert!(by_password.is_some());
    assert_eq!(by_password, by_backup);
    // the backup wins where both are given
    let both = authorizer.get_priv_key(&uid, Some(String::from("wrong")), Some((backup, index)));
    assert_eq!(both, by_password);
}

#[test]
fn a_wrong_password_recovers_nothing() {
    let mut authorizer = Authorizer::new().unwrap();
    let uid = String::from("carol");
    authorizer.register_user_shares(&uid, "right");
    assert_eq!(authorizer.get_priv_key(&uid, Some(String::from("wrong")), None), None);
    assert_eq!(authorizer.get_priv_key(&String::from("caro"), Some(String::from("right")), None), None);
    assert_eq!(authorizer.get_priv_key(&uid, Some(String::new()), None), None);
}

#[test]
fn neither_password_nor_backup_recovers_nothing() {
    let mut authorizer = Authorizer::new().unwrap();
    let uid = String::from("dave");
    authorizer.register_user_shares(&uid, "pw");
    assert_eq!(authorizer.get_priv_key(&uid, None, None), None);
}

#[test]
fn one_share_alone_recovers_nothing() {
    let mut authorizer = Authorizer::new().unwrap();
    let uid = String::from("erin");
    let (backup, index) = authorizer.register_user_shares(&uid, "pw");
    let unknown = index.wrapping_add(1);
    assert_eq!(authorizer.get_priv_key(&uid, None, Some((backup, unknown))), None);
}

#[test]
fn a_backup_of_another_registration_recovers_no_key_of_this_one() {
    let mut authorizer = Authorizer::new().unwrap();
    let uid = String::from("frank");
    let (_, index) = authorizer.register_user_shares(&uid, "pw");
    let right = authorizer.get_priv_key(&uid, Some(String::from("pw")), None).unwrap();
    let (other_backup, _) = authorizer.register_user_shares(&String::from("grace"), "pw2");
    let mixed = authorizer.get_priv_key(&uid, None, Some((other_backup, index)));
    assert_ne!(mixed, Some(right));
}

#[test]
fn registering_again_leaves_the_old_record_in_place() {
    let mut authorizer = Authorizer::new().unwrap();
    let uid = String::from("heidi");
    authorizer.register_user_shares(&uid, "first");
    let first = authorizer.get_priv_key(&uid, Some(String::from("first")), None).unwrap();
    authorizer.register_user_shares(&uid, "second");
    let second = authorizer.get_priv_key(&uid, Some(String::from("second")), None).unwrap();
    assert_eq!(authorizer.get_priv_key(&uid, Some(String::from("first")), None), Some(first.clone()));
    assert_ne!(first, second);
}

#[test]
fn store_shares_keeps_the_second_and_returns_the_third() {
    let mut authorizer = Authorizer::with_prime(BigNum::from_i64(1613)).unwrap();
    let uid = String::from("ivan");
    let big = BigNum::from_i64;
    // the line 3 + x at 1, 2 and 10
    let shares = vec![[big(1), big(4)], [big(2), big(5)], [big(10), big(13)]];
    let (backup, index) = authorizer.store_shares(&uid, "pw", String::from("c2FsdHNhbHQ"), &shares);
    assert_eq!(backup, [big(10), big(13)]);
    assert_eq!(index, share_index(&uid, "pw"));
    let mut expected = vec![3u8];
    expected.resize(32, 0);
    assert_eq!(authorizer.get_priv_key(&uid, None, Some((backup, index))), Some(expected));
}

/// A string of `len` random letters and digits.
fn random_text(len: usize) -> String {
    let mut rng = rand::thread_rng();
    (0..len).map(|_| char::from(rng.sample(Alphanumeric))).collect()
}

/// Registers `pairs` random users for known keys and recovers each key by
/// password and by backup share.
fn round_trips(pairs: usize) {
    let mut authorizer = Authorizer::new().unwrap();
    for i in 0..pairs {
        let uid = random_text(1 + i % 12);
        let password = random_text(i % 20);
        let (secret, _public) = generate_keypair();
        let (backup, index) = authorizer.register_secret_key(&uid, &password, &secret);
        assert_eq!(index, share_index(&uid, &password));
        assert_eq!(
            authorizer.get_priv_key(&uid, Some(password.clone()), None),
            Some(secret.to_vec())
        );
        assert_eq!(
            authorizer.get_priv_key(&uid, None, Some((backup, index))),
            Some(secret.to_vec())
        );
    }
}

#[test]
fn register_then_recover_round_trips_first_batch() {
    round_trips(30);
}

#[test]
fn register_then_recover_round_trips_second_batch() {
    round_trips(30);
}

#[test]
fn register_then_recover_round_trips_third_batch() {
    round_trips(30);
}

#[test]
fn register_then_recover_round_trips_fourth_batch() {
    round_trips(30);
}

#[test]
fn register_secret_key_keeps_short_keys_whole() {
    // a key with zero bytes at the top comes back at full width
    let mut authorizer = Authorizer::new().unwrap();
    let uid = String::from("judy");
    let mut secret = [0u8; 32];
    secret[0] = 1;
    secret[5] = 200;
    let (backup, index) = authorizer.register_secret_key(&uid, "pw", &secret);
    assert_eq!(authorizer.get_priv_key(&uid, Some(String::from("pw")), None), Some(secret.to_vec()));
    assert_eq!(authorizer.get_priv_key(&uid, None, Some((backup, index))), Some(secret.to_vec()));
    let zero = [0u8; 32];
    authorizer.register_secret_key(&uid, "zero", &zero);
    assert_eq!(authorizer.get_priv_key(&uid, Some(String::from("zero")), None), Some(zero.to_vec()));
}

#[test]
fn recovery_hashes_the_password_with_the_kept_salt() {
    // 2^521 - 1
    let mut prime_bytes = vec![0xffu8; 65];
    prime_bytes.push(1);
    let prime = BigNum::from_bytes_le(&prime_bytes);
    let mut authorizer = Authorizer::with_prime(prime.clone()).unwrap();
    let uid = String::from("kim");
    let password = "open sesame";
    let salt = "c2FsdHNhbHRzYWx0";
    let hash = Pbkdf2.hash_password(password.as_bytes(), salt).unwrap().to_string();
    assert!(hash.starts_with("$pbkdf2-sha256$"));
    let anchor = BigNum::from_bytes_le(&hash.into_bytes());
    let secret: Vec<u8> = (1..=32).collect();
    let sss = ShamirSecretSharing { threshold: 1, share_count: 3, prime };
    let shares = sss.evaluate_polynomial(
        &[BigNum::from_bytes_le(&secret), BigNum::from_i64(123456789)],
        &[anchor, BigNum::from_i64(1111), BigNum::from_i64(2222)],
    );
    let (backup, index) = authorizer.store_shares(&uid, password, salt.to_string(), &shares);
    assert_eq!(authorizer.get_priv_key(&uid, Some(password.to_string()), None), Some(secret.clone()));
    assert_eq!(authorizer.get_priv_key(&uid, None, Some((backup, index))), Some(secret));
}

#[test]
fn a_salt_that_is_none_recovers_nothing() {
    let mut authorizer = Authorizer::with_prime(BigNum::from_i64(1613)).unwrap();
    let uid = String::from("lee");
    let big = BigNum::from_i64;
    let shares = vec![[big(1), big(4)], [big(2), big(5)], [big(10), big(13)]];
    authorizer.store_shares(&uid, "pw", String::from("!"), &shares);
    assert_eq!(authorizer.get_priv_key(&uid, Some(String::from("pw")), None), None);
}

#[test]
fn register_with_salt_succeeds_where_the_salt_can_be_hashed_with() {
    let mut authorizer = Authorizer::new().unwrap();
    let uid = String::from("mona");
    let secret: Vec<u8> = (101..=132).collect();
    let key: [u8; 32] = secret.clone().try_into().unwrap();
    let registered = authorizer.register_with_salt(&uid, "pw", &key, String::from("c2FsdHNhbHRzYWx0"));
    let (backup, index) = registered.unwrap();
    assert_eq!(index, share_index(&uid, "pw"));
    assert_eq!(authorizer.get_priv_key(&uid, Some(String::from("pw")), None), Some(secret.clone()));
    assert_eq!(authorizer.get_priv_key(&uid, None, Some((backup, index))), Some(secret));
}

#[test]
fn register_with_salt_keeps_nothing_where_the_salt_cannot_be_hashed_with() {
    let mut authorizer = Authorizer::new().unwrap();
    let uid = String::from("nina");
    let key = [7u8; 32];
    // too short, and no letter of the salt alphabet
    assert_eq!(authorizer.register_with_salt(&uid, "pw", &key, String::from("!")), None);
    assert_eq!(authorizer.register_with_salt(&uid, "pw", &key, String::new()), None);
    assert_eq!(authorizer.get_priv_key(&uid, Some(String::from("pw")), None), None);
    // the same user and password can still be registered
    authorizer.register_secret_key(&uid, "pw", &key);
    assert_eq!(authorizer.get_priv_key(&uid, Some(String::from("pw")), None), Some(key.to_vec()));
}

#[test]
fn with_prime_bytes_wants_a_number_that_fills_64_bytes() {
    let mut bytes = vec![0xffu8; 64];
    assert!(Authorizer::with_prime_bytes(&bytes).is_some());
    bytes[63] = 1;
    assert!(Authorizer::with_prime_bytes(&bytes).is_some());
    bytes[63] = 0;
    assert!(Authorizer::with_prime_bytes(&bytes).is_none());
    assert!(Authorizer::with_prime_bytes(&vec![0xffu8; 63]).is_none());
    assert!(Authorizer::with_prime_bytes(&vec![0xffu8; 65]).is_none());
    assert!(Authorizer::with_prime_bytes(&vec![]).is_none());
}
