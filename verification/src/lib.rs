//! A password-protected journal.
//!
//! One encrypted file per user holds a document of dated folders, each a
//! set of named pages. This crate is the store: key derivation (`kdf`),
//! the authenticated cipher (`cipher`), the document model (`model`), its
//! text encoding (`codec`), the layout of the file (`image`), the
//! operations on a store (`store`) and the protocol by which the file is
//! replaced in one step (`replace`). It also decides what the journal's
//! terminal front end does on a key press and which screen comes next
//! (`menu`, `screen`, `calendar`).
//!
//! Nothing in this crate reads or writes a file, the clock or the
//! keyboard: that is the caller's part.

mod buffer;
pub mod calendar;
pub mod cipher;
pub mod codec;
pub mod decimal;
pub mod image;
pub mod kdf;
pub mod menu;
pub mod model;
pub mod order;
pub mod replace;
pub mod screen;
pub mod store;
