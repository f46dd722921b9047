//! The store: a document sealed under a password into the bytes of one
//! file, and the four operations of a journal on such a file.
//!
//! Nothing here touches a disk. Every operation takes what the caller read
//! at the store's path and returns the document, or the bytes that the
//! caller is to put in the file's place in one step.

use crate::cipher::{
    aes256gcm_opened, aes256gcm_sealed, decrypt, encrypt, fresh_nonce, fresh_salt,
    MAX_PLAINTEXT_LEN, NONCE_LEN,
};
use crate::codec::{
    decoded, deserialize, encode_document, encode_folders, lemma_decoded_encoding, serialize,
};
use crate::decimal::decimal;
use crate::image::{
    image_bytes, image_ciphertext, image_nonce, image_salt, is_image, lemma_image_fields,
    read_image, write_image, StoreImage,
};
use crate::kdf::{derive_key, derive_key_spec, KEY_LEN, SALT_LEN};
use crate::model::{
    folders_map, has_page, lemma_model_of_content, model_of, model_wf, with_content, with_page,
    Document, DocumentMap, FolderModel, ModelError, PageData,
};
use crate::order::same_text;
use vstd::prelude::*;
use vstd::utf8::encode_utf8;

verus! {

/// The ways in which an operation on a store fails.
#[derive(Clone, Copy, Debug, PartialEq, Eq, Structural)]
pub enum StoreError {
    /// The file does not open under the password: its tag does not verify.
    WrongPassword,
    /// The file's fixed fields do not parse, or what it decrypts to is no
    /// document.
    Corrupt,
    /// There is no store file.
    NotFound,
    /// There is a store file already.
    AlreadyExists,
    /// The document has no folder under the given key.
    FolderNotFound,
    /// The folder has no page under the given name.
    PageNotFound,
    /// The folder already has a page under the given name.
    DuplicateName,
    /// The folder is not today's, so it can be read only.
    ImmutablePeriod,
    /// The operating system failed: the file could not be read, or no
    /// random bytes could be had.
    IOFailure,
    /// The document is longer than the cipher takes.
    TooLarge,
}

/// What the user is told of an error. A wrong password and a damaged
/// file are told in the same words, so that the message does not give away
/// which of the two it was.
pub open spec fn message_of(error: StoreError) -> Seq<char> {
    match error {
        StoreError::WrongPassword | StoreError::Corrupt => "Incorrect password or damaged journal"@,
        StoreError::NotFound => "The journal file is missing"@,
        StoreError::AlreadyExists => "This user exists already"@,
        StoreError::FolderNotFound => "No such chapter"@,
        StoreError::PageNotFound => "No such page"@,
        StoreError::DuplicateName => "A page of this name exists already"@,
        StoreError::ImmutablePeriod => "Only today's pages can be written"@,
        StoreError::IOFailure => "The journal file could not be read or written"@,
        StoreError::TooLarge => "The journal is too large"@,
    }
}

impl StoreError {
    /// What the user is told of this error.
    pub fn message(&self) -> (text: &'static str)
        ensures
            text@ == message_of(*self),
    {
        match self {
            StoreError::WrongPassword | StoreError::Corrupt => {
                "Incorrect password or damaged journal"
            },
            StoreError::NotFound => "The journal file is missing",
            StoreError::AlreadyExists => "This user exists already",
            StoreError::FolderNotFound => "No such chapter",
            StoreError::PageNotFound => "No such page",
            StoreError::DuplicateName => "A page of this name exists already",
            StoreError::ImmutablePeriod => "Only today's pages can be written",
            StoreError::IOFailure => "The journal file could not be read or written",
            StoreError::TooLarge => "The journal is too large",
        }
    }
}

/// What the caller found at the store's path.
#[derive(Clone, Debug, PartialEq, Eq)]
pub enum StoredFile {
    /// No file is there.
    Absent,
    /// A file is there and could not be read.
    Unreadable,
    /// The file's content.
    Present(Vec<u8>),
}

/// The store file that holds a document under a password, made with the
/// given salt and nonce.
pub open spec fn sealed_store(
    password: Seq<u8>,
    salt: Seq<u8>,
    nonce: Seq<u8>,
    document: Seq<FolderModel>,
) -> Seq<u8> {
    image_bytes(
        salt,
        nonce,
        aes256gcm_sealed(derive_key_spec(password, salt), nonce, encode_document(document)),
    )
}

/// What a store file opens to under a password.
pub open spec fn opened_store(bytes: Seq<u8>, password: Seq<u8>) -> Result<
    Seq<FolderModel>,
    StoreError,
> {
    if !is_image(bytes) {
        Err(StoreError::Corrupt)
    } else {
        match aes256gcm_opened(
            derive_key_spec(password, image_salt(bytes)),
            image_nonce(bytes),
            image_ciphertext(bytes),
        ) {
            None => Err(StoreError::WrongPassword),
            Some(plaintext) => match decoded(plaintext) {
                Some(document) => Ok(document),
                None => Err(StoreError::Corrupt),
            },
        }
    }
}

/// What loading gives for what was found at the path.
pub open spec fn loaded(file: StoredFile, password: Seq<u8>) -> Result<
    Seq<FolderModel>,
    StoreError,
> {
    match file {
        StoredFile::Absent => Err(StoreError::NotFound),
        StoredFile::Unreadable => Err(StoreError::IOFailure),
        StoredFile::Present(bytes) => opened_store(bytes@, password),
    }
}

/// The salt of the file that was found, if it has one.
pub open spec fn stored_salt(file: StoredFile) -> Seq<u8> {
    match file {
        StoredFile::Present(bytes) => image_salt(bytes@),
        _ => Seq::empty(),
    }
}

/// What sealing gives: the store file, or `TooLarge` where the
/// document's encoding is longer than the cipher takes.
pub open spec fn sealing(
    password: Seq<u8>,
    salt: Seq<u8>,
    nonce: Seq<u8>,
    document: Seq<FolderModel>,
) -> Result<Seq<u8>, StoreError> {
    if encode_document(document).len() <= MAX_PLAINTEXT_LEN {
        Ok(sealed_store(password, salt, nonce, document))
    } else {
        Err(StoreError::TooLarge)
    }
}

/// The result is the given outcome.
pub open spec fn gives(
    r: Result<Vec<u8>, StoreError>,
    outcome: Result<Seq<u8>, StoreError>,
) -> bool {
    match r {
        Ok(bytes) => outcome == Ok::<Seq<u8>, StoreError>(bytes@),
        Err(e) => outcome == Err::<Seq<u8>, StoreError>(e),
    }
}

/// The bytes of an array that may be missing.
pub open spec fn bytes_of<const N: usize>(array: Option<[u8; N]>) -> Option<Seq<u8>> {
    match array {
        Some(bytes) => Some(bytes@),
        None => None,
    }
}

/// The file opens under the password to a document of the given content.
pub open spec fn opens_to(bytes: Seq<u8>, password: Seq<u8>, content: DocumentMap) -> bool {
    opened_store(bytes, password) matches Ok(document) && model_wf(document) && folders_map(
        document,
    ) == content
}

/// A ciphertext that opens to a document's encoding makes a file that
/// opens to the document.
pub proof fn lemma_opens(bytes: Seq<u8>, password: Seq<u8>, document: Seq<FolderModel>)
    requires
        is_image(bytes),
        model_wf(document),
        aes256gcm_opened(
            derive_key_spec(password, image_salt(bytes)),
            image_nonce(bytes),
            image_ciphertext(bytes),
        ) == Some(encode_document(document)),
    ensures
        opened_store(bytes, password) == Ok::<Seq<FolderModel>, StoreError>(document),
{
    lemma_decoded_encoding(document);
}

/// Opens the fields of a store file with a key that was derived already.
fn open_image(
    image: &StoreImage,
    key: &[u8; KEY_LEN],
    Ghost(bytes): Ghost<Seq<u8>>,
    Ghost(password): Ghost<Seq<u8>>,
) -> (r: Result<Document, StoreError>)
    requires
        is_image(bytes),
        image.salt@ == image_salt(bytes),
        image.nonce@ == image_nonce(bytes),
        image.ciphertext@ == image_ciphertext(bytes),
        key@ == derive_key_spec(password, image_salt(bytes)),
    ensures
        match r {
            Ok(document) => opened_store(bytes, password) == Ok::<Seq<FolderModel>, StoreError>(
                document.model(),
            ),
            Err(e) => opened_store(bytes, password) == Err::<Seq<FolderModel>, StoreError>(e),
        },
{
    let plaintext = match decrypt(key, &image.nonce, image.ciphertext.as_slice()) {
        Ok(plaintext) => plaintext,
        Err(_) => {
            return Err(StoreError::WrongPassword);
        },
    };
    match deserialize(plaintext.as_slice()) {
        Ok(document) => Ok(document),
        Err(_) => Err(StoreError::Corrupt),
    }
}

/// Seals a document with a key that was derived already.
fn seal_with_key(
    key: &[u8; KEY_LEN],
    salt: &[u8; SALT_LEN],
    nonce: &[u8; NONCE_LEN],
    document: &Document,
    Ghost(password): Ghost<Seq<u8>>,
) -> (r: Result<Vec<u8>, StoreError>)
    requires
        key@ == derive_key_spec(password, salt@),
    ensures
        gives(r, sealing(password, salt@, nonce@, document.model())),
        r matches Ok(bytes) ==> image_salt(bytes@) == salt@ && opens_to(
            bytes@,
            password,
            document@,
        ),
{
    let plaintext = serialize(document);
    let sealed = match encrypt(key, nonce, plaintext.as_slice()) {
        Some(sealed) => sealed,
        None => {
            return Err(StoreError::TooLarge);
        },
    };
    let bytes = write_image(salt, nonce, sealed.as_slice());
    proof {
        use_type_invariant(document);
        lemma_image_fields(salt@, nonce@, sealed@);
        lemma_opens(bytes@, password, document.model());
    }
    Ok(bytes)
}

/// Seals a document under a password with the given salt and nonce. The
/// file that results opens under the same password to the document.
///
/// Fails with `TooLarge` exactly where the document's encoding is longer
/// than the cipher takes.
pub fn seal(
    password: &[u8],
    salt: &[u8; SALT_LEN],
    nonce: &[u8; NONCE_LEN],
    document: &Document,
) -> (r: Result<Vec<u8>, StoreError>)
    ensures
        gives(r, sealing(password@, salt@, nonce@, document.model())),
        r matches Ok(bytes) ==> image_salt(bytes@) == salt@ && opens_to(
            bytes@,
            password@,
            document@,
        ),
{
    let key = derive_key(password, salt);
    seal_with_key(&key, salt, nonce, document, Ghost(password@))
}

/// Opens a store file under a password.
///
/// Fails with `Corrupt` where the fixed fields do not parse, with
/// `WrongPassword` where the tag does not verify under the key derived
/// from the password and the stored salt, and with `Corrupt` where the
/// plaintext is no document.
pub fn unseal(bytes: &[u8], password: &[u8]) -> (r: Result<Document, StoreError>)
    ensures
        match r {
            Ok(document) => opened_store(bytes@, password@) == Ok::<
                Seq<FolderModel>,
                StoreError,
            >(document.model()),
            Err(e) => opened_store(bytes@, password@) == Err::<Seq<FolderModel>, StoreError>(e),
        },
{
    let image = match read_image(bytes) {
        Some(image) => image,
        None => {
            return Err(StoreError::Corrupt);
        },
    };
    let key = derive_key(password, &image.salt);
    open_image(&image, &key, Ghost(bytes@), Ghost(password@))
}

/// What `create_with` gives.
pub open spec fn created(
    exists: bool,
    password: Seq<u8>,
    salt: Option<Seq<u8>>,
    nonce: Option<Seq<u8>>,
) -> Result<Seq<u8>, StoreError> {
    if exists {
        Err(StoreError::AlreadyExists)
    } else {
        match (salt, nonce) {
            (Some(salt), Some(nonce)) => Ok(sealed_store(password, salt, nonce, Seq::empty())),
            _ => Err(StoreError::IOFailure),
        }
    }
}

/// What `save_with` gives.
pub open spec fn saved(
    file: StoredFile,
    password: Seq<u8>,
    document: Seq<FolderModel>,
    nonce: Option<Seq<u8>>,
) -> Result<Seq<u8>, StoreError> {
    match file {
        StoredFile::Absent => Err(StoreError::NotFound),
        StoredFile::Unreadable => Err(StoreError::IOFailure),
        StoredFile::Present(old) => if !is_image(old@) {
            Err(StoreError::Corrupt)
        } else {
            match nonce {
                Some(nonce) => sealing(password, image_salt(old@), nonce, document),
                None => Err(StoreError::IOFailure),
            }
        },
    }
}

/// Why `add_page` refuses, if it does, given what loading gave.
pub open spec fn add_page_refusal(
    loaded: Result<Seq<FolderModel>, StoreError>,
    folder_key: Seq<char>,
    page_name: Seq<char>,
    now: Seq<char>,
) -> Option<StoreError> {
    match loaded {
        Err(e) => Some(e),
        Ok(document) => if folder_key != now {
            Some(StoreError::ImmutablePeriod)
        } else if has_page(folders_map(document), folder_key, page_name) {
            Some(StoreError::DuplicateName)
        } else {
            None
        },
    }
}

/// Why `update_page` refuses, if it does, given what loading gave.
pub open spec fn update_page_refusal(
    loaded: Result<Seq<FolderModel>, StoreError>,
    folder_key: Seq<char>,
    page_name: Seq<char>,
    now: Seq<char>,
) -> Option<StoreError> {
    match loaded {
        Err(e) => Some(e),
        Ok(document) => if folder_key != now {
            Some(StoreError::ImmutablePeriod)
        } else if !folders_map(document).dom().contains(folder_key) {
            Some(StoreError::FolderNotFound)
        } else if !has_page(folders_map(document), folder_key, page_name) {
            Some(StoreError::PageNotFound)
        } else {
            None
        },
    }
}

/// The content of the store that was found, with a page added.
pub open spec fn content_with_page(
    file: StoredFile,
    password: Seq<u8>,
    folder_key: Seq<char>,
    page_name: Seq<char>,
    content: Seq<char>,
    now: Seq<char>,
) -> DocumentMap {
    with_page(
        folders_map(loaded(file, password)->Ok_0),
        folder_key,
        page_name,
        PageData { created_at: now, content },
    )
}

/// The content of the store that was found, with a page's content
/// replaced.
pub open spec fn content_with_update(
    file: StoredFile,
    password: Seq<u8>,
    folder_key: Seq<char>,
    page_name: Seq<char>,
    new_content: Seq<char>,
) -> DocumentMap {
    with_content(folders_map(loaded(file, password)->Ok_0), folder_key, page_name, new_content)
}

/// What follows where nothing is refused: the new content sealed with the
/// old file's salt and the nonce, or `IOFailure` where there is no nonce.
pub open spec fn resealed(
    file: StoredFile,
    password: Seq<u8>,
    content: DocumentMap,
    nonce: Option<Seq<u8>>,
) -> Result<Seq<u8>, StoreError> {
    match nonce {
        Some(nonce) => sealing(password, stored_salt(file), nonce, model_of(content)),
        None => Err(StoreError::IOFailure),
    }
}

/// What `add_page_with` gives.
pub open spec fn page_added(
    file: StoredFile,
    password: Seq<u8>,
    folder_key: Seq<char>,
    page_name: Seq<char>,
    content: Seq<char>,
    now: Seq<char>,
    nonce: Option<Seq<u8>>,
) -> Result<Seq<u8>, StoreError> {
    match add_page_refusal(loaded(file, password), folder_key, page_name, now) {
        Some(refusal) => Err(refusal),
        None => resealed(
            file,
            password,
            content_with_page(file, password, folder_key, page_name, content, now),
            nonce,
        ),
    }
}

/// What `update_page_with` gives.
pub open spec fn page_updated(
    file: StoredFile,
    password: Seq<u8>,
    folder_key: Seq<char>,
    page_name: Seq<char>,
    new_content: Seq<char>,
    now: Seq<char>,
    nonce: Option<Seq<u8>>,
) -> Result<Seq<u8>, StoreError> {
    match update_page_refusal(loaded(file, password), folder_key, page_name, now) {
        Some(refusal) => Err(refusal),
        None => resealed(
            file,
            password,
            content_with_update(file, password, folder_key, page_name, new_content),
            nonce,
        ),
    }
}

/// Adding a page under a name that the folder has already is refused
/// with `DuplicateName`, whatever the content, and nothing is to be
/// written.
pub proof fn lemma_duplicate_is_refused(
    file: StoredFile,
    password: Seq<u8>,
    folder_key: Seq<char>,
    page_name: Seq<char>,
    content: Seq<char>,
    nonce: Option<Seq<u8>>,
)
    requires
        loaded(file, password) matches Ok(document) && has_page(
            folders_map(document),
            folder_key,
            page_name,
        ),
    ensures
        page_added(file, password, folder_key, page_name, content, folder_key, nonce) == Err::<
            Seq<u8>,
            StoreError,
        >(StoreError::DuplicateName),
{
}

/// A store that loads is read only on every day but that of the folder:
/// adding to and updating a folder whose key is not today's date is
/// refused with `ImmutablePeriod`, and nothing is to be written.
pub proof fn lemma_other_day_is_refused(
    file: StoredFile,
    password: Seq<u8>,
    folder_key: Seq<char>,
    page_name: Seq<char>,
    content: Seq<char>,
    now: Seq<char>,
    nonce: Option<Seq<u8>>,
)
    requires
        loaded(file, password) is Ok,
        folder_key != now,
    ensures
        page_updated(file, password, folder_key, page_name, content, now, nonce) == Err::<
            Seq<u8>,
            StoreError,
        >(StoreError::ImmutablePeriod),
        page_added(file, password, folder_key, page_name, content, now, nonce) == Err::<
            Seq<u8>,
            StoreError,
        >(StoreError::ImmutablePeriod),
{
}

/// The encoding of the empty document is eighteen bytes long.
proof fn lemma_empty_encoding()
    ensures
        encode_document(Seq::empty()).len() == 18,
{
    let none = Seq::<FolderModel>::empty();
    assert(encode_folders(none) =~= Seq::<u8>::empty());
    assert(decimal(0).len() == 1);
}

/// Makes the file of a new store from a salt and a nonce, if there are
/// any: an empty document sealed under the password.
///
/// Fails with `AlreadyExists` where a file is at the path already, and
/// with `IOFailure` where the salt or the nonce is missing.
pub fn create_with(
    exists: bool,
    password: &[u8],
    salt: Option<[u8; SALT_LEN]>,
    nonce: Option<[u8; NONCE_LEN]>,
) -> (r: Result<Vec<u8>, StoreError>)
    ensures
        gives(r, created(exists, password@, bytes_of(salt), bytes_of(nonce))),
        r matches Ok(bytes) ==> opens_to(bytes@, password@, Map::empty()),
{
    if exists {
        return Err(StoreError::AlreadyExists);
    }
    let salt = match salt {
        Some(salt) => salt,
        None => {
            return Err(StoreError::IOFailure);
        },
    };
    let nonce = match nonce {
        Some(nonce) => nonce,
        None => {
            return Err(StoreError::IOFailure);
        },
    };
    let document = Document::create_empty();
    proof {
        lemma_empty_encoding();
    }
    seal(password, &salt, &nonce, &document)
}

/// Makes the file of a new store: an empty document sealed under the
/// password with a fresh salt and a fresh nonce.
///
/// Fails with `AlreadyExists` where a file is at the path already, and
/// with `IOFailure` where the operating system gives no random bytes.
pub fn create(exists: bool, password: &[u8]) -> (r: Result<Vec<u8>, StoreError>)
    ensures
        exists ==> r == Err::<Vec<u8>, StoreError>(StoreError::AlreadyExists),
        exists|salt: Option<[u8; SALT_LEN]>, nonce: Option<[u8; NONCE_LEN]>|
            gives(r, #[trigger] created(exists, password@, bytes_of(salt), bytes_of(nonce))),
        match r {
            Ok(bytes) => opens_to(bytes@, password@, Map::empty()),
            Err(e) => e == StoreError::AlreadyExists || e == StoreError::IOFailure,
        },
{
    if exists {
        let r = Err(StoreError::AlreadyExists);
        proof {
            let none: Option<[u8; SALT_LEN]> = None;
            let no_nonce: Option<[u8; NONCE_LEN]> = None;
            assert(gives(r, created(exists, password@, bytes_of(none), bytes_of(no_nonce))));
        }
        return r;
    }
    let salt = fresh_salt();
    let nonce = fresh_nonce();
    let r = create_with(exists, password, salt, nonce);
    proof {
        assert(gives(r, created(exists, password@, bytes_of(salt), bytes_of(nonce))));
    }
    r
}

/// Loads the document from what was found at the path.
///
/// Fails with `NotFound` where no file is there, with `IOFailure` where it
/// could not be read, and otherwise as `unseal` does.
pub fn load(file: &StoredFile, password: &[u8]) -> (r: Result<Document, StoreError>)
    ensures
        match r {
            Ok(document) => loaded(*file, password@) == Ok::<Seq<FolderModel>, StoreError>(
                document.model(),
            ),
            Err(e) => loaded(*file, password@) == Err::<Seq<FolderModel>, StoreError>(e),
        },
{
    match file {
        StoredFile::Absent => Err(StoreError::NotFound),
        StoredFile::Unreadable => Err(StoreError::IOFailure),
        StoredFile::Present(bytes) => unseal(bytes.as_slice(), password),
    }
}

/// Makes the file that is to replace the one found at the path, from a
/// nonce if there is one: the document sealed under the password with the
/// salt of the old file.
///
/// Fails with `NotFound` where no file is there, with `IOFailure` where it
/// could not be read or the nonce is missing, with `Corrupt` where the
/// old file's fixed fields do not parse, and with `TooLarge` where the
/// document is longer than the cipher takes.
pub fn save_with(
    file: &StoredFile,
    password: &[u8],
    document: &Document,
    nonce: Option<[u8; NONCE_LEN]>,
) -> (r: Result<Vec<u8>, StoreError>)
    ensures
        gives(r, saved(*file, password@, document.model(), bytes_of(nonce))),
        r matches Ok(bytes) ==> image_salt(bytes@) == stored_salt(*file) && opens_to(
            bytes@,
            password@,
            document@,
        ),
{
    let old = match file {
        StoredFile::Absent => {
            return Err(StoreError::NotFound);
        },
        StoredFile::Unreadable => {
            return Err(StoreError::IOFailure);
        },
        StoredFile::Present(bytes) => bytes,
    };
    let image = match read_image(old.as_slice()) {
        Some(image) => image,
        None => {
            return Err(StoreError::Corrupt);
        },
    };
    let nonce = match nonce {
        Some(nonce) => nonce,
        None => {
            return Err(StoreError::IOFailure);
        },
    };
    seal(password, &image.salt, &nonce, document)
}

/// Makes the file that is to replace the one found at the path: the
/// document sealed under the password with the salt of the old file and a
/// fresh nonce. See `save_with`.
pub fn save(file: &StoredFile, password: &[u8], document: &Document) -> (r: Result<
    Vec<u8>,
    StoreError,
>)
    ensures
        exists|nonce: Option<[u8; NONCE_LEN]>|
            gives(r, #[trigger] saved(*file, password@, document.model(), bytes_of(nonce))),
        r matches Ok(bytes) ==> image_salt(bytes@) == stored_salt(*file) && opens_to(
            bytes@,
            password@,
            document@,
        ),
{
    let nonce = fresh_nonce();
    let r = save_with(file, password, document, nonce);
    proof {
        assert(gives(r, saved(*file, password@, document.model(), bytes_of(nonce))));
    }
    r
}

/// Creates a user's store. See `create`.
pub fn create_user(exists: bool, password: &str) -> (r: Result<Vec<u8>, StoreError>)
    ensures
        exists ==> r == Err::<Vec<u8>, StoreError>(StoreError::AlreadyExists),
        exists|salt: Option<[u8; SALT_LEN]>, nonce: Option<[u8; NONCE_LEN]>|
            gives(
                r,
                #[trigger] created(exists, encode_utf8(password@), bytes_of(salt), bytes_of(nonce)),
            ),
        match r {
            Ok(bytes) => opens_to(bytes@, encode_utf8(password@), Map::empty()),
            Err(e) => e == StoreError::AlreadyExists || e == StoreError::IOFailure,
        },
{
    create(exists, password.as_bytes())
}

/// Opens a user's store and so checks the password. See `load`.
pub fn open_or_authenticate(file: &StoredFile, password: &str) -> (r: Result<Document, StoreError>)
    ensures
        match r {
            Ok(document) => loaded(*file, encode_utf8(password@)) == Ok::<
                Seq<FolderModel>,
                StoreError,
            >(document.model()),
            Err(e) => loaded(*file, encode_utf8(password@)) == Err::<Seq<FolderModel>, StoreError>(
                e,
            ),
        },
{
    load(file, password.as_bytes())
}

/// What was loaded for a mutation: the document, and the key and salt to
/// seal its successor with.
struct Unlocked {
    document: Document,
    key: [u8; KEY_LEN],
    salt: [u8; SALT_LEN],
}

/// Loads the document and keeps the key for sealing.
fn unlock(file: &StoredFile, password: &[u8]) -> (r: Result<Unlocked, StoreError>)
    ensures
        match r {
            Ok(unlocked) => {
                &&& loaded(*file, password@) == Ok::<Seq<FolderModel>, StoreError>(
                    unlocked.document.model(),
                )
                &&& unlocked.salt@ == stored_salt(*file)
                &&& unlocked.key@ == derive_key_spec(password@, unlocked.salt@)
            },
            Err(e) => loaded(*file, password@) == Err::<Seq<FolderModel>, StoreError>(e),
        },
{
    let bytes = match file {
        StoredFile::Absent => {
            return Err(StoreError::NotFound);
        },
        StoredFile::Unreadable => {
            return Err(StoreError::IOFailure);
        },
        StoredFile::Present(bytes) => bytes,
    };
    let image = match read_image(bytes.as_slice()) {
        Some(image) => image,
        None => {
            return Err(StoreError::Corrupt);
        },
    };
    let key = derive_key(password, &image.salt);
    let document = open_image(&image, &key, Ghost(bytes@), Ghost(password@))?;
    Ok(Unlocked { document, key, salt: image.salt })
}

/// Seals the successor of the document that was loaded.
fn reseal(
    unlocked: &Unlocked,
    changed: &Document,
    nonce: Option<[u8; NONCE_LEN]>,
    Ghost(file): Ghost<StoredFile>,
    Ghost(password): Ghost<Seq<u8>>,
) -> (r: Result<Vec<u8>, StoreError>)
    requires
        unlocked.salt@ == stored_salt(file),
        unlocked.key@ == derive_key_spec(password, unlocked.salt@),
    ensures
        gives(r, resealed(file, password, changed@, bytes_of(nonce))),
        r matches Ok(bytes) ==> image_salt(bytes@) == stored_salt(file) && opens_to(
            bytes@,
            password,
            changed@,
        ),
{
    let nonce = match nonce {
        Some(nonce) => nonce,
        None => {
            return Err(StoreError::IOFailure);
        },
    };
    proof {
        use_type_invariant(changed);
        lemma_model_of_content(changed.model());
    }
    seal_with_key(&unlocked.key, &unlocked.salt, &nonce, changed, Ghost(password))
}

/// Adds a page to today's folder of a user's store and returns the file
/// that is to replace the old one, sealed with the given nonce.
///
/// The store is loaded first, so the errors of `load` come first. Then
/// `folder_key` must be `now`, the current date as the caller gives it,
/// else the call fails with `ImmutablePeriod`; the folder must not have a
/// page of that name yet, else it fails with `DuplicateName`. The new page
/// is created at `now`. The new file has the old file's salt and opens
/// under the same password to the document with the page added. Where
/// the nonce is missing the call fails with `IOFailure`, and where the
/// new document is longer than the cipher takes with `TooLarge`.
pub fn add_page_with(
    file: &StoredFile,
    password: &str,
    folder_key: &str,
    page_name: &str,
    content: &str,
    now: &str,
    nonce: Option<[u8; NONCE_LEN]>,
) -> (r: Result<Vec<u8>, StoreError>)
    ensures
        gives(
            r,
            page_added(
                *file,
                encode_utf8(password@),
                folder_key@,
                page_name@,
                content@,
                now@,
                bytes_of(nonce),
            ),
        ),
        r matches Ok(bytes) ==> image_salt(bytes@) == stored_salt(*file) && opens_to(
            bytes@,
            encode_utf8(password@),
            content_with_page(
                *file,
                encode_utf8(password@),
                folder_key@,
                page_name@,
                content@,
                now@,
            ),
        ),
{
    let unlocked = unlock(file, password.as_bytes())?;
    if !same_text(folder_key, now) {
        return Err(StoreError::ImmutablePeriod);
    }
    let changed = match unlocked.document.add_page(folder_key, page_name, content, now) {
        Ok(changed) => changed,
        Err(_) => {
            return Err(StoreError::DuplicateName);
        },
    };
    reseal(&unlocked, &changed, nonce, Ghost(*file), Ghost(encode_utf8(password@)))
}

/// Adds a page to today's folder of a user's store and returns the file
/// that is to replace the old one, sealed with a fresh nonce. See
/// `add_page_with`.
pub fn add_page(
    file: &StoredFile,
    password: &str,
    folder_key: &str,
    page_name: &str,
    content: &str,
    now: &str,
) -> (r: Result<Vec<u8>, StoreError>)
    ensures
        exists|nonce: Option<[u8; NONCE_LEN]>|
            gives(
                r,
                #[trigger] page_added(
                    *file,
                    encode_utf8(password@),
                    folder_key@,
                    page_name@,
                    content@,
                    now@,
                    bytes_of(nonce),
                ),
            ),
        add_page_refusal(
            loaded(*file, encode_utf8(password@)),
            folder_key@,
            page_name@,
            now@,
        ) matches Some(refusal) ==> r == Err::<Vec<u8>, StoreError>(refusal),
        r matches Ok(bytes) ==> image_salt(bytes@) == stored_salt(*file) && opens_to(
            bytes@,
            encode_utf8(password@),
            content_with_page(
                *file,
                encode_utf8(password@),
                folder_key@,
                page_name@,
                content@,
                now@,
            ),
        ),
{
    let nonce = fresh_nonce();
    let r = add_page_with(file, password, folder_key, page_name, content, now, nonce);
    proof {
        assert(gives(
            r,
            page_added(
                *file,
                encode_utf8(password@),
                folder_key@,
                page_name@,
                content@,
                now@,
                bytes_of(nonce),
            ),
        ));
    }
    r
}

/// Replaces the content of a page in today's folder of a user's store and
/// returns the file that is to replace the old one, sealed with the given
/// nonce.
///
/// The store is loaded first, so the errors of `load` come first. Then
/// `folder_key` must be `now`, the current date as the caller gives it,
/// else the call fails with `ImmutablePeriod`; then the folder and the
/// page must exist. The new file has the old file's salt and opens under
/// the same password to the document with the page's content replaced.
/// Where the nonce is missing the call fails with `IOFailure`, and where
/// the new document is longer than the cipher takes with `TooLarge`.
pub fn update_page_with(
    file: &StoredFile,
    password: &str,
    folder_key: &str,
    page_name: &str,
    new_content: &str,
    now: &str,
    nonce: Option<[u8; NONCE_LEN]>,
) -> (r: Result<Vec<u8>, StoreError>)
    ensures
        gives(
            r,
            page_updated(
                *file,
                encode_utf8(password@),
                folder_key@,
                page_name@,
                new_content@,
                now@,
                bytes_of(nonce),
            ),
        ),
        r matches Ok(bytes) ==> image_salt(bytes@) == stored_salt(*file) && opens_to(
            bytes@,
            encode_utf8(password@),
            content_with_update(
                *file,
                encode_utf8(password@),
                folder_key@,
                page_name@,
                new_content@,
            ),
        ),
{
    let unlocked = unlock(file, password.as_bytes())?;
    if !same_text(folder_key, now) {
        return Err(StoreError::ImmutablePeriod);
    }
    let changed = match unlocked.document.update_page_content(folder_key, page_name, new_content) {
        Ok(changed) => changed,
        Err(ModelError::FolderNotFound) => {
            return Err(StoreError::FolderNotFound);
        },
        Err(_) => {
            return Err(StoreError::PageNotFound);
        },
    };
    reseal(&unlocked, &changed, nonce, Ghost(*file), Ghost(encode_utf8(password@)))
}

/// Replaces the content of a page in today's folder of a user's store and
/// returns the file that is to replace the old one, sealed with a fresh
/// nonce. See `update_page_with`.
pub fn update_page(
    file: &StoredFile,
    password: &str,
    folder_key: &str,
    page_name: &str,
    new_content: &str,
    now: &str,
) -> (r: Result<Vec<u8>, StoreError>)
    ensures
        exists|nonce: Option<[u8; NONCE_LEN]>|
            gives(
                r,
                #[trigger] page_updated(
                    *file,
                    encode_utf8(password@),
                    folder_key@,
                    page_name@,
                    new_content@,
                    now@,
                    bytes_of(nonce),
                ),
            ),
        update_page_refusal(
            loaded(*file, encode_utf8(password@)),
            folder_key@,
            page_name@,
            now@,
        ) matches Some(refusal) ==> r == Err::<Vec<u8>, StoreError>(refusal),
        r matches Ok(bytes) ==> image_salt(bytes@) == stored_salt(*file) && opens_to(
            bytes@,
            encode_utf8(password@),
            content_with_update(
                *file,
                encode_utf8(password@),
                folder_key@,
                page_name@,
                new_content@,
            ),
        ),
{
    let nonce = fresh_nonce();
    let r = update_page_with(file, password, folder_key, page_name, new_content, now, nonce);
    proof {
        assert(gives(
            r,
            page_updated(
                *file,
                encode_utf8(password@),
                folder_key@,
                page_name@,
                new_content@,
                now@,
                bytes_of(nonce),
            ),
        ));
    }
    r
}

} // verus!
