use clog_journal::cipher::encrypt;
use clog_journal::image::{read_image, write_image};
use clog_journal::kdf::derive_key;
use clog_journal::model::Document;
use clog_journal::store::{
    add_page, add_page_with, create, create_user, create_with, load, open_or_authenticate, save,
    save_with, seal, unseal, update_page, update_page_with, StoreError, StoredFile,
};

const SALT: [u8; 16] = [5; 16];
const NONCE: [u8; 12] = [6; 12];

fn sample() -> Document {
    Document::create_empty().add_page("01/01/2024", "intro", "hello", "01/01/2024").unwrap()
}

fn sample_file(password: &[u8]) -> StoredFile {
    StoredFile::Present(seal(password, &SALT, &NONCE, &sample()).unwrap())
}

#[test]
fn end_to_end_create_add_open() {
    let file = StoredFile::Present(create_user(false, "pw1").unwrap());
    let file = StoredFile::Present(
        add_page(&file, "pw1", "01/01/2024", "intro", "hello", "01/01/2024").unwrap(),
    );
    let doc = open_or_authenticate(&file, "pw1").unwrap();
    assert_eq!(doc.list_folders(), vec!["01/01/2024".to_string()]);
    assert_eq!(
        doc.list_pages("01/01/2024").unwrap(),
        vec![("intro".to_string(), "01/01/2024".to_string())]
    );
    assert_eq!(doc.get_page_content("01/01/2024", "intro").unwrap(), "hello");
    assert_eq!(open_or_authenticate(&file, "wrong"), Err(StoreError::WrongPassword));
}

#[test]
fn end_to_end_update_of_another_day_is_refused() {
    let file = sample_file(b"pw1");
    let before = file.clone();
    assert_eq!(
        update_page(&file, "pw1", "01/01/2024", "intro", "changed", "02/01/2024"),
        Err(StoreError::ImmutablePeriod)
    );
    assert_eq!(file, before);
    assert_eq!(
        load(&file, b"pw1").unwrap().get_page_content("01/01/2024", "intro").unwrap(),
        "hello"
    );
}

#[test]
fn the_store_rejects_a_page_name_that_exists() {
    let file = sample_file(b"pw1");
    let before = file.clone();
    assert_eq!(
        add_page(&file, "pw1", "01/01/2024", "intro", "again", "01/01/2024"),
        Err(StoreError::DuplicateName)
    );
    assert_eq!(file, before);
}

#[test]
fn add_page_to_another_day_is_refused() {
    let file = sample_file(b"pw1");
    assert_eq!(
        add_page(&file, "pw1", "01/01/2024", "second", "text", "02/01/2024"),
        Err(StoreError::ImmutablePeriod)
    );
    assert_eq!(
        add_page(&file, "pw1", "03/01/2024", "second", "text", "02/01/2024"),
        Err(StoreError::ImmutablePeriod)
    );
}

#[test]
fn add_page_with_a_wrong_password_is_refused() {
    let file = sample_file(b"pw1");
    assert_eq!(
        add_page(&file, "pw2", "02/01/2024", "second", "text", "02/01/2024"),
        Err(StoreError::WrongPassword)
    );
}

#[test]
fn add_page_makes_a_folder_for_a_new_day() {
    let file = sample_file(b"pw1");
    let next = StoredFile::Present(
        add_page(&file, "pw1", "02/01/2024", "second", "text", "02/01/2024").unwrap(),
    );
    let doc = load(&next, b"pw1").unwrap();
    assert_eq!(doc.list_folders(), vec!["01/01/2024".to_string(), "02/01/2024".to_string()]);
    assert_eq!(doc.get_page_content("02/01/2024", "second").unwrap(), "text");
    assert_eq!(doc.get_page_content("01/01/2024", "intro").unwrap(), "hello");
}

#[test]
fn update_page_replaces_the_content() {
    let file = sample_file(b"pw1");
    let next = StoredFile::Present(
        update_page(&file, "pw1", "01/01/2024", "intro", "goodbye", "01/01/2024").unwrap(),
    );
    let doc = load(&next, b"pw1").unwrap();
    assert_eq!(doc.get_page_content("01/01/2024", "intro").unwrap(), "goodbye");
    assert_eq!(
        doc.list_pages("01/01/2024").unwrap(),
        vec![("intro".to_string(), "01/01/2024".to_string())]
    );
}

#[test]
fn update_page_names_what_is_missing() {
    let file = sample_file(b"pw1");
    assert_eq!(
        update_page(&file, "pw1", "01/01/2024", "other", "x", "01/01/2024"),
        Err(StoreError::PageNotFound)
    );
    assert_eq!(
        update_page(&file, "pw1", "02/01/2024", "intro", "x", "02/01/2024"),
        Err(StoreError::FolderNotFound)
    );
}

#[test]
fn a_mutation_keeps_the_salt_and_takes_a_new_nonce() {
    let file = sample_file(b"pw1");
    let next = add_page(&file, "pw1", "02/01/2024", "second", "text", "02/01/2024").unwrap();
    let image = read_image(&next).unwrap();
    assert_eq!(image.salt, SALT);
    assert_ne!(image.nonce, NONCE);
}

#[test]
fn create_refuses_where_a_file_exists() {
    assert_eq!(create(true, b"pw1"), Err(StoreError::AlreadyExists));
    assert_eq!(create_user(true, "pw1"), Err(StoreError::AlreadyExists));
}

#[test]
fn create_makes_an_empty_store() {
    let bytes = create(false, b"pw1").unwrap();
    let doc = unseal(&bytes, b"pw1").unwrap();
    assert_eq!(doc, Document::create_empty());
    assert_eq!(bytes.len(), 4 + 16 + 12 + 18 + 16);
}

#[test]
fn two_stores_differ_in_salt_and_nonce() {
    let a = read_image(&create(false, b"pw1").unwrap()).unwrap();
    let b = read_image(&create(false, b"pw1").unwrap()).unwrap();
    assert_ne!(a.salt, b.salt);
    assert_ne!(a.nonce, b.nonce);
}

#[test]
fn load_names_what_is_wrong_with_the_file() {
    assert_eq!(load(&StoredFile::Absent, b"pw1"), Err(StoreError::NotFound));
    assert_eq!(load(&StoredFile::Unreadable, b"pw1"), Err(StoreError::IOFailure));
    assert_eq!(load(&StoredFile::Present(vec![]), b"pw1"), Err(StoreError::Corrupt));
    assert_eq!(load(&StoredFile::Present(vec![1, 0, 0, 0, 9]), b"pw1"), Err(StoreError::Corrupt));
    let mut other_version = seal(b"pw1", &SALT, &NONCE, &sample()).unwrap();
    other_version[0] = 2;
    assert_eq!(load(&StoredFile::Present(other_version), b"pw1"), Err(StoreError::Corrupt));
}

#[test]
fn a_changed_file_does_not_open() {
    let bytes = seal(b"pw1", &SALT, &NONCE, &sample()).unwrap();
    let mut in_ciphertext = bytes.clone();
    in_ciphertext[40] ^= 1;
    assert_eq!(unseal(&in_ciphertext, b"pw1"), Err(StoreError::WrongPassword));
    let mut in_nonce = bytes.clone();
    in_nonce[25] ^= 1;
    assert_eq!(unseal(&in_nonce, b"pw1"), Err(StoreError::WrongPassword));
    let truncated = &bytes[..bytes.len() - 1];
    assert_eq!(unseal(truncated, b"pw1"), Err(StoreError::WrongPassword));
}

#[test]
fn a_changed_salt_does_not_open() {
    let mut bytes = seal(b"pw1", &SALT, &NONCE, &sample()).unwrap();
    bytes[10] ^= 1;
    assert_eq!(unseal(&bytes, b"pw1"), Err(StoreError::WrongPassword));
}

#[test]
fn a_plaintext_that_is_no_document_is_corrupt() {
    let key = derive_key(b"pw1", &SALT);
    let sealed = encrypt(&key, &NONCE, b"{\"folders\":{}}").unwrap();
    let bytes = write_image(&SALT, &NONCE, &sealed);
    assert_eq!(unseal(&bytes, b"pw1"), Err(StoreError::Corrupt));
}

#[test]
fn seal_is_the_layout_of_the_encrypted_encoding() {
    let doc = sample();
    let key = derive_key(b"pw1", &SALT);
    let sealed = encrypt(&key, &NONCE, &clog_journal::codec::serialize(&doc)).unwrap();
    assert_eq!(seal(b"pw1", &SALT, &NONCE, &doc).unwrap(), write_image(&SALT, &NONCE, &sealed));
}

#[test]
fn unseal_undoes_seal() {
    let doc = sample();
    let bytes = seal(b"pw1", &SALT, &NONCE, &doc).unwrap();
    assert_eq!(unseal(&bytes, b"pw1"), Ok(doc));
}

#[test]
fn save_keeps_the_salt_of_the_old_file() {
    let old = sample_file(b"pw1");
    let doc = sample().add_page("02/01/2024", "next", "more", "02/01/2024").unwrap();
    let bytes = save(&old, b"pw1", &doc).unwrap();
    let image = read_image(&bytes).unwrap();
    assert_eq!(image.salt, SALT);
    assert_ne!(image.nonce, NONCE);
    assert_eq!(unseal(&bytes, b"pw1"), Ok(doc));
}

#[test]
fn save_names_what_is_wrong_with_the_old_file() {
    let doc = sample();
    assert_eq!(save(&StoredFile::Absent, b"pw1", &doc), Err(StoreError::NotFound));
    assert_eq!(save(&StoredFile::Unreadable, b"pw1", &doc), Err(StoreError::IOFailure));
    assert_eq!(save(&StoredFile::Present(vec![1, 2, 3]), b"pw1", &doc), Err(StoreError::Corrupt));
}

#[test]
fn the_facade_takes_the_password_as_text() {
    let bytes = seal("pässword".as_bytes(), &SALT, &NONCE, &sample()).unwrap();
    let doc = open_or_authenticate(&StoredFile::Present(bytes), "pässword").unwrap();
    assert_eq!(doc, sample());
}

const OTHER_NONCE: [u8; 12] = [7; 12];

#[test]
fn create_with_seals_the_empty_document() {
    assert_eq!(
        create_with(false, b"pw1", Some(SALT), Some(NONCE)),
        seal(b"pw1", &SALT, &NONCE, &Document::create_empty())
    );
}

#[test]
fn create_with_names_what_is_missing() {
    assert_eq!(create_with(true, b"pw1", Some(SALT), Some(NONCE)), Err(StoreError::AlreadyExists));
    assert_eq!(create_with(true, b"pw1", None, None), Err(StoreError::AlreadyExists));
    assert_eq!(create_with(false, b"pw1", None, Some(NONCE)), Err(StoreError::IOFailure));
    assert_eq!(create_with(false, b"pw1", Some(SALT), None), Err(StoreError::IOFailure));
}

#[test]
fn save_with_seals_with_the_old_salt_and_the_nonce() {
    let doc = sample().add_page("02/01/2024", "next", "more", "02/01/2024").unwrap();
    assert_eq!(
        save_with(&sample_file(b"pw1"), b"pw1", &doc, Some(OTHER_NONCE)),
        seal(b"pw1", &SALT, &OTHER_NONCE, &doc)
    );
}

#[test]
fn save_with_names_what_is_missing() {
    let doc = sample();
    assert_eq!(save_with(&StoredFile::Absent, b"pw1", &doc, None), Err(StoreError::NotFound));
    assert_eq!(
        save_with(&StoredFile::Present(vec![0; 40]), b"pw1", &doc, None),
        Err(StoreError::Corrupt)
    );
    let mut no_store = vec![1u8, 0, 0, 0];
    no_store.extend_from_slice(&[0; 28]);
    assert_eq!(
        save_with(&StoredFile::Present(no_store), b"pw1", &doc, None),
        Err(StoreError::IOFailure)
    );
}

#[test]
fn add_page_with_seals_the_document_with_the_page() {
    let doc = sample().add_page("01/01/2024", "second", "text", "01/01/2024").unwrap();
    assert_eq!(
        add_page_with(
            &sample_file(b"pw1"),
            "pw1",
            "01/01/2024",
            "second",
            "text",
            "01/01/2024",
            Some(OTHER_NONCE)
        ),
        seal(b"pw1", &SALT, &OTHER_NONCE, &doc)
    );
}

#[test]
fn update_page_with_seals_the_document_with_the_new_content() {
    let doc = sample().update_page_content("01/01/2024", "intro", "goodbye").unwrap();
    assert_eq!(
        update_page_with(
            &sample_file(b"pw1"),
            "pw1",
            "01/01/2024",
            "intro",
            "goodbye",
            "01/01/2024",
            Some(OTHER_NONCE)
        ),
        seal(b"pw1", &SALT, &OTHER_NONCE, &doc)
    );
}

#[test]
fn a_refusal_comes_before_a_missing_nonce() {
    let file = sample_file(b"pw1");
    assert_eq!(
        add_page_with(&file, "pw1", "01/01/2024", "intro", "x", "01/01/2024", None),
        Err(StoreError::DuplicateName)
    );
    assert_eq!(
        update_page_with(&file, "pw1", "01/01/2024", "intro", "x", "02/01/2024", None),
        Err(StoreError::ImmutablePeriod)
    );
    assert_eq!(
        add_page_with(&file, "pw1", "01/01/2024", "second", "x", "01/01/2024", None),
        Err(StoreError::IOFailure)
    );
}

#[test]
fn loading_comes_before_the_gate() {
    let file = sample_file(b"pw1");
    assert_eq!(
        update_page_with(&file, "pw2", "01/01/2024", "intro", "x", "02/01/2024", Some(NONCE)),
        Err(StoreError::WrongPassword)
    );
    assert_eq!(
        add_page_with(&StoredFile::Absent, "pw1", "01/01/2024", "a", "x", "02/01/2024", Some(NONCE)),
        Err(StoreError::NotFound)
    );
}

#[test]
fn a_wrong_password_and_a_damaged_file_are_told_alike() {
    assert_eq!(StoreError::WrongPassword.message(), StoreError::Corrupt.message());
    assert_eq!(StoreError::WrongPassword.message(), "Incorrect password or damaged journal");
}

#[test]
fn every_other_error_has_words_of_its_own() {
    let errors = [
        StoreError::WrongPassword,
        StoreError::NotFound,
        StoreError::AlreadyExists,
        StoreError::FolderNotFound,
        StoreError::PageNotFound,
        StoreError::DuplicateName,
        StoreError::ImmutablePeriod,
        StoreError::IOFailure,
        StoreError::TooLarge,
    ];
    for i in 0..errors.len() {
        for j in 0..i {
            assert_ne!(errors[i].message(), errors[j].message());
        }
    }
}
