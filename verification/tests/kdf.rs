use clog_journal::kdf::derive_key;

fn hex(text: &str) -> Vec<u8> {
    (0..text.len() / 2).map(|i| u8::from_str_radix(&text[2 * i..2 * i + 2], 16).unwrap()).collect()
}

#[test]
fn derive_key_is_deterministic() {
    let salt = [7u8; 16];
    let a = derive_key(b"pw1", &salt);
    let b = derive_key(b"pw1", &salt);
    assert_eq!(a, b);
}

#[test]
fn derive_key_gives_the_known_key() {
    let key = derive_key(b"pleaseletmein", b"SodiumChloride16");
    assert_eq!(
        key.to_vec(),
        hex("cb07772ae1b937be7effe9ff0a37ea778aa3cd041a9d1d6323548f7eb14a5cd6")
    );
}

#[test]
fn the_empty_password_has_a_key() {
    let key = derive_key(b"", &[0u8; 16]);
    assert_eq!(
        key.to_vec(),
        hex("aafcf55e459476ff6be6f07652e713a7f515279ae4439d6e18465f45d20b1bb3")
    );
}

#[test]
fn passwords_give_different_keys() {
    let salt = [7u8; 16];
    let keys = [
        derive_key(b"", &salt),
        derive_key(b"pw1", &salt),
        derive_key(b"pw2", &salt),
        derive_key(b"pw1 ", &salt),
    ];
    for i in 0..keys.len() {
        for j in 0..i {
            assert_ne!(keys[i], keys[j]);
        }
    }
}

#[test]
fn salts_give_different_keys() {
    let a = derive_key(b"pw1", &[7u8; 16]);
    let b = derive_key(b"pw1", &[8u8; 16]);
    assert_ne!(a, b);
}
