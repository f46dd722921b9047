use clog_journal::image::{read_image, write_image, StoreImage};

#[test]
fn a_file_is_version_salt_nonce_ciphertext() {
    let bytes = write_image(&[0xaa; 16], &[0xbb; 12], b"ciphertext");
    let mut expected = vec![1u8, 0, 0, 0];
    expected.extend_from_slice(&[0xaa; 16]);
    expected.extend_from_slice(&[0xbb; 12]);
    expected.extend_from_slice(b"ciphertext");
    assert_eq!(bytes, expected);
}

#[test]
fn reading_an_image_undoes_writing() {
    let salt: [u8; 16] = [1, 2, 3, 4, 5, 6, 7, 8, 9, 10, 11, 12, 13, 14, 15, 16];
    let nonce: [u8; 12] = [21, 22, 23, 24, 25, 26, 27, 28, 29, 30, 31, 32];
    let bytes = write_image(&salt, &nonce, b"xyz");
    assert_eq!(
        read_image(&bytes),
        Some(StoreImage { salt, nonce, ciphertext: b"xyz".to_vec() })
    );
}

#[test]
fn the_ciphertext_may_be_empty() {
    let bytes = write_image(&[0; 16], &[0; 12], b"");
    assert_eq!(bytes.len(), 32);
    assert_eq!(
        read_image(&bytes),
        Some(StoreImage { salt: [0; 16], nonce: [0; 12], ciphertext: vec![] })
    );
}

#[test]
fn a_short_file_does_not_parse() {
    let bytes = write_image(&[0; 16], &[0; 12], b"");
    for end in 0..bytes.len() {
        assert_eq!(read_image(&bytes[..end]), None);
    }
}

#[test]
fn another_version_does_not_parse() {
    let mut bytes = write_image(&[0; 16], &[0; 12], b"abc");
    bytes[0] = 2;
    assert_eq!(read_image(&bytes), None);
    bytes[0] = 1;
    bytes[3] = 1;
    assert_eq!(read_image(&bytes), None);
}
