use hydra::auth::generate_keypair;
use hydra::crypto::{
    decrypt_encdata, encrypt_with_pubkey, get_pk_bytes, seal_with, EncData, KeyWidthViolation,
};

#[test]
fn get_pk_bytes_pads_short_keys_with_zeros() {
    let mut expected = [0u8; 32];
    expected[0] = 9;
    expected[1] = 8;
    assert_eq!(get_pk_bytes(vec![9, 8]), Ok(expected));
    assert_eq!(get_pk_bytes(vec![]), Ok([0u8; 32]));
}

#[test]
fn get_pk_bytes_keeps_full_keys() {
    let key: Vec<u8> = (100..132).collect();
    let bytes = get_pk_bytes(key.clone()).unwrap();
    assert_eq!(bytes.to_vec(), key);
}

#[test]
fn get_pk_bytes_rejects_long_keys() {
    assert_eq!(get_pk_bytes(vec![1; 33]), Err(KeyWidthViolation { length: 33 }));
    assert_eq!(get_pk_bytes(vec![0; 64]), Err(KeyWidthViolation { length: 64 }));
}

#[test]
fn generate_keypair_derives_the_public_key() {
    let (secret, public) = generate_keypair();
    let expected = crypto_box::SecretKey::from(secret).public_key();
    assert_eq!(&public, expected.as_bytes());
    assert_ne!(public, secret);
    let (other_secret, _) = generate_keypair();
    assert_ne!(secret, other_secret);
}

#[test]
fn sealed_box_round_trip() {
    let (secret, public) = generate_keypair();
    for plaintext in [vec![], vec![0u8], b"attack at dawn".to_vec(), vec![7u8; 1000]] {
        let ed = encrypt_with_pubkey(&public, &plaintext);
        assert_eq!(ed.nonce.len(), 24);
        assert_eq!(ed.pubkey.len(), 32);
        assert_eq!(ed.encdata.len(), plaintext.len() + 16);
        assert_eq!(decrypt_encdata(&ed, &secret.to_vec()), (true, plaintext));
    }
}

#[test]
fn every_message_gets_its_own_key_and_nonce() {
    let (_, public) = generate_keypair();
    let plaintext = b"same message".to_vec();
    let first = encrypt_with_pubkey(&public, &plaintext);
    let second = encrypt_with_pubkey(&public, &plaintext);
    assert_ne!(first.pubkey, second.pubkey);
    assert_ne!(first.nonce, second.nonce);
    assert_ne!(first.encdata, second.encdata);
}

#[test]
fn seal_with_depends_on_its_arguments_alone() {
    let (recipient_secret, recipient_public) = generate_keypair();
    let (sender_secret, sender_public) = generate_keypair();
    let plaintext = b"fixed".to_vec();
    let nonce = vec![3u8; 24];
    let first = seal_with(&recipient_public, &plaintext, &sender_secret, nonce.clone());
    let second = seal_with(&recipient_public, &plaintext, &sender_secret, nonce.clone());
    assert_eq!(first, second);
    assert_eq!(first.nonce, nonce);
    assert_eq!(first.pubkey, sender_public.to_vec());
    assert_ne!(first.encdata[16..].to_vec(), plaintext);
    assert_eq!(decrypt_encdata(&first, &recipient_secret.to_vec()), (true, plaintext));
}

#[test]
fn a_corrupted_ciphertext_does_not_open() {
    let (secret, public) = generate_keypair();
    let plaintext = b"integrity".to_vec();
    let ed = encrypt_with_pubkey(&public, &plaintext);
    for i in 0..ed.encdata.len() {
        let mut bad = ed.clone();
        bad.encdata[i] ^= 1;
        assert_eq!(decrypt_encdata(&bad, &secret.to_vec()), (false, vec![]));
    }
}

#[test]
fn a_corrupted_nonce_does_not_open() {
    let (secret, public) = generate_keypair();
    let ed = encrypt_with_pubkey(&public, &b"integrity".to_vec());
    for i in 0..ed.nonce.len() {
        let mut bad = ed.clone();
        bad.nonce[i] ^= 1;
        assert_eq!(decrypt_encdata(&bad, &secret.to_vec()), (false, vec![]));
    }
}

#[test]
fn a_corrupted_sender_key_does_not_open() {
    let (secret, public) = generate_keypair();
    let ed = encrypt_with_pubkey(&public, &b"integrity".to_vec());
    for i in 0..ed.pubkey.len() {
        let mut bad = ed.clone();
        bad.pubkey[i] ^= 1;
        assert_eq!(decrypt_encdata(&bad, &secret.to_vec()), (false, vec![]));
    }
}

#[test]
fn the_wrong_key_does_not_open() {
    let (_, public) = generate_keypair();
    let (other_secret, _) = generate_keypair();
    let ed = encrypt_with_pubkey(&public, &b"for someone else".to_vec());
    assert_eq!(decrypt_encdata(&ed, &other_secret.to_vec()), (false, vec![]));
}

#[test]
fn an_empty_key_does_not_open() {
    let (_, public) = generate_keypair();
    let ed = encrypt_with_pubkey(&public, &b"text".to_vec());
    assert_eq!(decrypt_encdata(&ed, &vec![]), (false, vec![]));
}

#[test]
fn a_long_key_does_not_open() {
    let (secret, public) = generate_keypair();
    let ed = encrypt_with_pubkey(&public, &b"text".to_vec());
    let mut long = secret.to_vec();
    long.push(0);
    assert_eq!(decrypt_encdata(&ed, &long), (false, vec![]));
    let mut bad = ed.clone();
    bad.pubkey.push(0);
    assert_eq!(decrypt_encdata(&bad, &secret.to_vec()), (false, vec![]));
}

#[test]
fn a_truncated_nonce_does_not_open() {
    let (secret, public) = generate_keypair();
    let ed = encrypt_with_pubkey(&public, &b"text".to_vec());
    let mut bad = ed.clone();
    bad.nonce.pop();
    assert_eq!(decrypt_encdata(&bad, &secret.to_vec()), (false, vec![]));
    bad.nonce.clear();
    assert_eq!(decrypt_encdata(&bad, &secret.to_vec()), (false, vec![]));
    let mut longer = ed.clone();
    longer.nonce.push(0);
    assert_eq!(decrypt_encdata(&longer, &secret.to_vec()), (false, vec![]));
}

#[test]
fn a_truncated_ciphertext_does_not_open() {
    let (secret, public) = generate_keypair();
    let ed = encrypt_with_pubkey(&public, &b"text".to_vec());
    let bad = EncData { encdata: ed.encdata[..10].to_vec(), nonce: ed.nonce, pubkey: ed.pubkey };
    assert_eq!(decrypt_encdata(&bad, &secret.to_vec()), (false, vec![]));
}

#[test]
fn a_short_key_is_padded_before_use() {
    // a key whose last byte is zero may be given without it
    let mut secret = [0u8; 32];
    for (i, b) in secret.iter_mut().enumerate().take(31) {
        *b = (i as u8) + 1;
    }
    let public = *crypto_box::SecretKey::from(secret).public_key().as_bytes();
    let ed = encrypt_with_pubkey(&public, &b"short".to_vec());
    assert_eq!(decrypt_encdata(&ed, &secret[..31].to_vec()), (true, b"short".to_vec()));
}
