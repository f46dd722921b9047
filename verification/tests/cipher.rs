use clog_journal::cipher::{decrypt, encrypt, fresh_nonce, fresh_salt, AuthenticationFailure};

fn hex(text: &str) -> Vec<u8> {
    (0..text.len() / 2).map(|i| u8::from_str_radix(&text[2 * i..2 * i + 2], 16).unwrap()).collect()
}

#[test]
fn the_empty_plaintext_gives_the_tag_alone() {
    let sealed = encrypt(&[0u8; 32], &[0u8; 12], b"").unwrap();
    assert_eq!(sealed, hex("530f8afbc74536b9a963b4f1c4cb738b"));
}

#[test]
fn a_block_of_zeros_gives_the_known_ciphertext() {
    let sealed = encrypt(&[0u8; 32], &[0u8; 12], &[0u8; 16]).unwrap();
    assert_eq!(
        sealed,
        hex("cea7403d4d606b6e074ec5d3baf39d18d0d1c8a799996bf0265b98b5d48ab919")
    );
}

#[test]
fn decrypt_undoes_encrypt() {
    let key = [9u8; 32];
    let nonce = [3u8; 12];
    for plaintext in [&b""[..], &b"a"[..], &b"hello, journal"[..], &[0xffu8; 1000][..]] {
        let sealed = encrypt(&key, &nonce, plaintext).unwrap();
        assert_eq!(sealed.len(), plaintext.len() + 16);
        assert_eq!(decrypt(&key, &nonce, &sealed), Ok(plaintext.to_vec()));
    }
}

#[test]
fn the_ciphertext_differs_from_the_plaintext() {
    let plaintext = b"hello, journal".to_vec();
    let sealed = encrypt(&[1u8; 32], &[2u8; 12], &plaintext).unwrap();
    assert_ne!(sealed[..plaintext.len()].to_vec(), plaintext);
}

#[test]
fn encrypt_depends_on_its_arguments_alone() {
    let a = encrypt(&[1u8; 32], &[2u8; 12], b"same").unwrap();
    let b = encrypt(&[1u8; 32], &[2u8; 12], b"same").unwrap();
    assert_eq!(a, b);
    assert_ne!(a, encrypt(&[1u8; 32], &[3u8; 12], b"same").unwrap());
    assert_ne!(a, encrypt(&[4u8; 32], &[2u8; 12], b"same").unwrap());
}

#[test]
fn another_key_is_rejected() {
    let nonce = [3u8; 12];
    let sealed = encrypt(&[1u8; 32], &nonce, b"secret").unwrap();
    assert_eq!(decrypt(&[2u8; 32], &nonce, &sealed), Err(AuthenticationFailure));
    let mut close = [1u8; 32];
    close[31] ^= 1;
    assert_eq!(decrypt(&close, &nonce, &sealed), Err(AuthenticationFailure));
}

#[test]
fn another_nonce_is_rejected() {
    let key = [1u8; 32];
    let sealed = encrypt(&key, &[3u8; 12], b"secret").unwrap();
    assert_eq!(decrypt(&key, &[4u8; 12], &sealed), Err(AuthenticationFailure));
}

#[test]
fn every_changed_byte_is_rejected() {
    let key = [1u8; 32];
    let nonce = [3u8; 12];
    let sealed = encrypt(&key, &nonce, b"secret text").unwrap();
    for i in 0..sealed.len() {
        let mut changed = sealed.clone();
        changed[i] ^= 0x80;
        assert_eq!(decrypt(&key, &nonce, &changed), Err(AuthenticationFailure));
    }
}

#[test]
fn a_ciphertext_shorter_than_the_tag_is_rejected() {
    let key = [1u8; 32];
    let nonce = [3u8; 12];
    assert_eq!(decrypt(&key, &nonce, b""), Err(AuthenticationFailure));
    assert_eq!(decrypt(&key, &nonce, &[0u8; 15]), Err(AuthenticationFailure));
    let sealed = encrypt(&key, &nonce, b"secret").unwrap();
    assert_eq!(decrypt(&key, &nonce, &sealed[..sealed.len() - 1]), Err(AuthenticationFailure));
}

#[test]
fn fresh_nonces_differ() {
    let a = fresh_nonce().unwrap();
    let b = fresh_nonce().unwrap();
    assert_ne!(a, b);
}

#[test]
fn fresh_salts_differ() {
    let a = fresh_salt().unwrap();
    let b = fresh_salt().unwrap();
    assert_ne!(a, b);
}
