//! The text encoding of a document: the plaintext that a store encrypts.
//!
//! A document is written as a header line, the number of folders and the
//! folders in order. A folder is its key, the number of its pages and the
//! pages in order; a page is its name, its creation time and its content.
//! Every text is written as its length in bytes, a colon, the text in
//! UTF-8 and a line feed; every count as a decimal number and a line feed.

use crate::buffer::append_bytes;
use crate::decimal::{
    decimal, is_digit, lemma_decimal_injective, lemma_decimal_shape, lemma_number_extent,
    push_decimal, read_number,
};
use crate::model::{
    folders_view, model_wf, pages_view, Document, Folder, FolderModel, Page, PageModel,
};
use vstd::prelude::*;
use vstd::slice::slice_subrange;
use vstd::utf8::{
    decode_utf8, decode_utf8_encode_utf8, encode_utf8, encode_utf8_decode_utf8,
    encode_utf8_valid_utf8, valid_utf8,
};

verus! {

/// The byte `':'`, which ends a text's length.
pub const COLON: u8 = 58;

/// The line feed, which ends a count and a text.
pub const NEWLINE: u8 = 10;

/// The header line of an encoded document: `clog-document 1` and a line
/// feed.
pub const HEADER: [u8; 16] = [
    99, 108, 111, 103, 45, 100, 111, 99, 117, 109, 101, 110, 116, 32, 49, 10,
];

/// The encoding of a count.
pub open spec fn encode_count(n: nat) -> Seq<u8> {
    decimal(n).push(NEWLINE)
}

/// The encoding of a string of bytes.
pub open spec fn encode_field(bytes: Seq<u8>) -> Seq<u8> {
    decimal(bytes.len()).push(COLON) + bytes + seq![NEWLINE]
}

/// The encoding of a text.
pub open spec fn encode_text(text: Seq<char>) -> Seq<u8> {
    encode_field(encode_utf8(text))
}

/// The encoding of a page.
pub open spec fn encode_page(page: PageModel) -> Seq<u8> {
    encode_text(page.name) + encode_text(page.created_at) + encode_text(page.content)
}

/// The encodings of the items, one after the other.
pub open spec fn encode_all<T>(items: Seq<T>, encode: spec_fn(T) -> Seq<u8>) -> Seq<u8>
    decreases items.len(),
{
    if items.len() == 0 {
        Seq::empty()
    } else {
        encode(items[0]) + encode_all(items.drop_first(), encode)
    }
}

/// The encoding of pages in order.
pub open spec fn encode_pages(pages: Seq<PageModel>) -> Seq<u8> {
    encode_all(pages, |p: PageModel| encode_page(p))
}

/// The encoding of a folder.
pub open spec fn encode_folder(folder: FolderModel) -> Seq<u8> {
    encode_text(folder.key) + encode_count(folder.pages.len()) + encode_pages(folder.pages)
}

/// The encoding of folders in order.
pub open spec fn encode_folders(folders: Seq<FolderModel>) -> Seq<u8> {
    encode_all(folders, |f: FolderModel| encode_folder(f))
}

/// The encoding of a document.
pub open spec fn encode_document(folders: Seq<FolderModel>) -> Seq<u8> {
    HEADER@ + encode_count(folders.len()) + encode_folders(folders)
}

/// Of any two values whose encodings both start a string of bytes, one is
/// the other.
pub open spec fn prefix_unique<T>(encode: spec_fn(T) -> Seq<u8>) -> bool {
    forall|a: T, b: T, s: Seq<u8>|
        #![trigger encode(a).is_prefix_of(s), encode(b).is_prefix_of(s)]
        encode(a).is_prefix_of(s) && encode(b).is_prefix_of(s) ==> a == b
}

/// A concatenation starts `s` exactly if its first part starts `s` and its
/// second part starts what follows.
pub proof fn lemma_prefix_concat(a: Seq<u8>, b: Seq<u8>, s: Seq<u8>)
    ensures
        (a + b).is_prefix_of(s) <==> a.is_prefix_of(s) && b.is_prefix_of(s.skip(a.len() as int)),
{
    if (a + b).is_prefix_of(s) {
        assert(a =~= s.subrange(0, a.len() as int)) by {
            assert forall|i: int| 0 <= i < a.len() implies a[i] == s[i] by {
                assert((a + b)[i] == s.subrange(0, (a + b).len() as int)[i]);
            }
        }
        let rest = s.skip(a.len() as int);
        assert(b =~= rest.subrange(0, b.len() as int)) by {
            assert forall|i: int| 0 <= i < b.len() implies b[i] == rest[i] by {
                assert((a + b)[a.len() + i] == s.subrange(0, (a + b).len() as int)[a.len() + i]);
            }
        }
    }
    if a.is_prefix_of(s) && b.is_prefix_of(s.skip(a.len() as int)) {
        let rest = s.skip(a.len() as int);
        assert(a + b =~= s.subrange(0, (a + b).len() as int)) by {
            assert forall|i: int| 0 <= i < (a + b).len() implies (a + b)[i] == s[i] by {
                if i < a.len() {
                    assert(a[i] == s.subrange(0, a.len() as int)[i]);
                } else {
                    assert(b[i - a.len()] == rest.subrange(0, b.len() as int)[i - a.len()]);
                }
            }
        }
    }
}

/// Encoding one more item appends its encoding.
pub proof fn lemma_encode_all_push<T>(items: Seq<T>, item: T, encode: spec_fn(T) -> Seq<u8>)
    ensures
        encode_all(items.push(item), encode) == encode_all(items, encode) + encode(item),
    decreases items.len(),
{
    let all = items.push(item);
    if items.len() == 0 {
        assert(all.drop_first() =~= Seq::<T>::empty());
        assert(encode_all(all.drop_first(), encode) == Seq::<u8>::empty());
        assert(encode_all(all, encode) =~= encode(item));
        assert(encode_all(items, encode) + encode(item) =~= encode(item));
    } else {
        assert(all.drop_first() =~= items.drop_first().push(item));
        lemma_encode_all_push(items.drop_first(), item, encode);
        assert(encode_all(all, encode) =~= encode_all(items, encode) + encode(item));
    }
}

/// The encoding of a sequence is that of any front part followed by that
/// of the rest.
pub proof fn lemma_encode_all_split<T>(items: Seq<T>, k: int, encode: spec_fn(T) -> Seq<u8>)
    requires
        0 <= k <= items.len(),
    ensures
        encode_all(items, encode) == encode_all(items.take(k), encode) + encode_all(
            items.skip(k),
            encode,
        ),
    decreases k,
{
    if k == 0 {
        assert(items.take(0) =~= Seq::<T>::empty());
        assert(items.skip(0) =~= items);
        assert(encode_all(items, encode) =~= Seq::<u8>::empty() + encode_all(items, encode));
    } else {
        let rest = items.drop_first();
        lemma_encode_all_split(rest, k - 1, encode);
        assert(items.take(k).drop_first() =~= rest.take(k - 1));
        assert(items.skip(k) =~= rest.skip(k - 1));
        assert(items.take(k)[0] == items[0]);
        assert(encode_all(items, encode) =~= encode_all(items.take(k), encode) + encode_all(
            items.skip(k),
            encode,
        ));
    }
}

/// Two sequences of the same length whose encodings both start `s` are
/// the same sequence.
pub proof fn lemma_encode_all_unique<T>(
    a: Seq<T>,
    b: Seq<T>,
    encode: spec_fn(T) -> Seq<u8>,
    s: Seq<u8>,
)
    requires
        prefix_unique(encode),
        a.len() == b.len(),
        encode_all(a, encode).is_prefix_of(s),
        encode_all(b, encode).is_prefix_of(s),
    ensures
        a == b,
    decreases a.len(),
{
    if a.len() == 0 {
        assert(a =~= b);
    } else {
        lemma_prefix_concat(encode(a[0]), encode_all(a.drop_first(), encode), s);
        lemma_prefix_concat(encode(b[0]), encode_all(b.drop_first(), encode), s);
        assert(encode(a[0]).is_prefix_of(s) && encode(b[0]).is_prefix_of(s));
        assert(a[0] == b[0]);
        lemma_encode_all_unique(
            a.drop_first(),
            b.drop_first(),
            encode,
            s.skip(encode(a[0]).len() as int),
        );
        assert(a =~= seq![a[0]] + a.drop_first());
        assert(b =~= seq![b[0]] + b.drop_first());
    }
}

/// Where every item takes at least one byte, the encoding is at least as
/// long as the sequence.
pub proof fn lemma_encode_all_len<T>(items: Seq<T>, encode: spec_fn(T) -> Seq<u8>)
    requires
        forall|x: T| (#[trigger] encode(x)).len() >= 1,
    ensures
        encode_all(items, encode).len() >= items.len(),
    decreases items.len(),
{
    if items.len() > 0 {
        lemma_encode_all_len(items.drop_first(), encode);
    }
}

/// Two numbers whose representations, each followed by the same byte that
/// is no digit, both start `s` are the same number.
pub proof fn lemma_number_unique(a: nat, b: nat, t: u8, s: Seq<u8>)
    requires
        !is_digit(t),
        decimal(a).push(t).is_prefix_of(s),
        decimal(b).push(t).is_prefix_of(s),
    ensures
        a == b,
{
    lemma_decimal_shape(a);
    let k = decimal(a).len() as int;
    let token = decimal(a).push(t);
    assert forall|j: int| 0 <= j < k implies is_digit(#[trigger] s[j]) by {
        assert(s[j] == token[j]);
        assert(token[j] == decimal(a)[j]);
    }
    assert(s[k] == token[k]);
    lemma_number_extent(s, a, t, k);
    lemma_number_extent(s, b, t, k);
    lemma_decimal_injective(a, b);
}

/// Two strings of bytes whose encodings both start `s` are the same.
pub proof fn lemma_field_unique(a: Seq<u8>, b: Seq<u8>, s: Seq<u8>)
    requires
        encode_field(a).is_prefix_of(s),
        encode_field(b).is_prefix_of(s),
    ensures
        a == b,
{
    let head_a = decimal(a.len()).push(COLON);
    let head_b = decimal(b.len()).push(COLON);
    assert(encode_field(a) =~= head_a + (a + seq![NEWLINE]));
    assert(encode_field(b) =~= head_b + (b + seq![NEWLINE]));
    lemma_prefix_concat(head_a, a + seq![NEWLINE], s);
    lemma_prefix_concat(head_b, b + seq![NEWLINE], s);
    lemma_number_unique(a.len(), b.len(), COLON, s);
    let rest = s.skip(head_a.len() as int);
    lemma_prefix_concat(a, seq![NEWLINE], rest);
    lemma_prefix_concat(b, seq![NEWLINE], rest);
    assert(a =~= rest.subrange(0, a.len() as int));
    assert(b =~= rest.subrange(0, b.len() as int));
}

/// Two texts whose encodings both start `s` are the same text.
pub proof fn lemma_text_unique(a: Seq<char>, b: Seq<char>, s: Seq<u8>)
    requires
        encode_text(a).is_prefix_of(s),
        encode_text(b).is_prefix_of(s),
    ensures
        a == b,
{
    lemma_field_unique(encode_utf8(a), encode_utf8(b), s);
    encode_utf8_decode_utf8(a);
    encode_utf8_decode_utf8(b);
}

/// Two pages whose encodings both start `s` are the same page.
pub proof fn lemma_page_unique(a: PageModel, b: PageModel, s: Seq<u8>)
    requires
        encode_page(a).is_prefix_of(s),
        encode_page(b).is_prefix_of(s),
    ensures
        a == b,
{
    let (a1, a2, a3) = (encode_text(a.name), encode_text(a.created_at), encode_text(a.content));
    let (b1, b2, b3) = (encode_text(b.name), encode_text(b.created_at), encode_text(b.content));
    assert(encode_page(a) =~= a1 + (a2 + a3));
    assert(encode_page(b) =~= b1 + (b2 + b3));
    lemma_prefix_concat(a1, a2 + a3, s);
    lemma_prefix_concat(b1, b2 + b3, s);
    lemma_text_unique(a.name, b.name, s);
    let s2 = s.skip(a1.len() as int);
    lemma_prefix_concat(a2, a3, s2);
    lemma_prefix_concat(b2, b3, s2);
    lemma_text_unique(a.created_at, b.created_at, s2);
    lemma_text_unique(a.content, b.content, s2.skip(a2.len() as int));
}

/// Pages are told apart by the start of their encodings.
pub proof fn lemma_pages_prefix_unique()
    ensures
        prefix_unique(|p: PageModel| encode_page(p)),
{
    let encode = |p: PageModel| encode_page(p);
    assert forall|a: PageModel, b: PageModel, s: Seq<u8>|
        #![trigger encode(a).is_prefix_of(s), encode(b).is_prefix_of(s)]
        encode(a).is_prefix_of(s) && encode(b).is_prefix_of(s) implies a == b by {
        lemma_page_unique(a, b, s);
    }
}

/// Two folders whose encodings both start `s` are the same folder.
pub proof fn lemma_folder_unique(a: FolderModel, b: FolderModel, s: Seq<u8>)
    requires
        encode_folder(a).is_prefix_of(s),
        encode_folder(b).is_prefix_of(s),
    ensures
        a == b,
{
    let (a1, a2, a3) = (encode_text(a.key), encode_count(a.pages.len()), encode_pages(a.pages));
    let (b1, b2, b3) = (encode_text(b.key), encode_count(b.pages.len()), encode_pages(b.pages));
    assert(encode_folder(a) =~= a1 + (a2 + a3));
    assert(encode_folder(b) =~= b1 + (b2 + b3));
    lemma_prefix_concat(a1, a2 + a3, s);
    lemma_prefix_concat(b1, b2 + b3, s);
    lemma_text_unique(a.key, b.key, s);
    let s2 = s.skip(a1.len() as int);
    lemma_prefix_concat(a2, a3, s2);
    lemma_prefix_concat(b2, b3, s2);
    lemma_number_unique(a.pages.len(), b.pages.len(), NEWLINE, s2);
    lemma_pages_prefix_unique();
    lemma_encode_all_unique(
        a.pages,
        b.pages,
        |p: PageModel| encode_page(p),
        s2.skip(a2.len() as int),
    );
}

/// Folders are told apart by the start of their encodings.
pub proof fn lemma_folders_prefix_unique()
    ensures
        prefix_unique(|f: FolderModel| encode_folder(f)),
{
    let encode = |f: FolderModel| encode_folder(f);
    assert forall|a: FolderModel, b: FolderModel, s: Seq<u8>|
        #![trigger encode(a).is_prefix_of(s), encode(b).is_prefix_of(s)]
        encode(a).is_prefix_of(s) && encode(b).is_prefix_of(s) implies a == b by {
        lemma_folder_unique(a, b, s);
    }
}

/// Two documents with the same encoding are the same document.
pub proof fn lemma_encoding_injective(a: Seq<FolderModel>, b: Seq<FolderModel>)
    requires
        encode_document(a) == encode_document(b),
    ensures
        a == b,
{
    let s = encode_document(a);
    let (a2, a3) = (encode_count(a.len()), encode_folders(a));
    let (b2, b3) = (encode_count(b.len()), encode_folders(b));
    assert(encode_document(a) =~= HEADER@ + (a2 + a3));
    assert(encode_document(b) =~= HEADER@ + (b2 + b3));
    assert(encode_document(a).is_prefix_of(s));
    assert(encode_document(b).is_prefix_of(s));
    lemma_prefix_concat(HEADER@, a2 + a3, s);
    lemma_prefix_concat(HEADER@, b2 + b3, s);
    let s2 = s.skip(HEADER@.len() as int);
    lemma_prefix_concat(a2, a3, s2);
    lemma_prefix_concat(b2, b3, s2);
    lemma_number_unique(a.len(), b.len(), NEWLINE, s2);
    lemma_folders_prefix_unique();
    lemma_encode_all_unique(a, b, |f: FolderModel| encode_folder(f), s2.skip(a2.len() as int));
}

/// Where a sequence's encoding starts `s` and so does that of a shorter
/// sequence already read, the next item's encoding starts what follows.
pub proof fn lemma_next_item_starts<T>(
    items: Seq<T>,
    read: Seq<T>,
    encode: spec_fn(T) -> Seq<u8>,
    s: Seq<u8>,
)
    requires
        prefix_unique(encode),
        read.len() < items.len(),
        encode_all(items, encode).is_prefix_of(s),
        encode_all(read, encode).is_prefix_of(s),
    ensures
        encode(items[read.len() as int]).is_prefix_of(
            s.skip(encode_all(read, encode).len() as int),
        ),
{
    let k = read.len() as int;
    let front = items.take(k);
    let back = items.skip(k);
    lemma_encode_all_split(items, k, encode);
    lemma_prefix_concat(encode_all(front, encode), encode_all(back, encode), s);
    lemma_encode_all_unique(front, read, encode, s);
    assert(back[0] == items[k]);
    lemma_prefix_concat(
        encode(back[0]),
        encode_all(back.drop_first(), encode),
        s.skip(encode_all(read, encode).len() as int),
    );
}

/// A range of `bytes` that begins at `pos` starts what follows `pos`.
pub proof fn lemma_range_starts(bytes: Seq<u8>, pos: int, next: int)
    requires
        0 <= pos <= next <= bytes.len(),
    ensures
        bytes.subrange(pos, next).is_prefix_of(bytes.skip(pos)),
        bytes.skip(pos).skip(next - pos) == bytes.skip(next),
{
    assert(bytes.subrange(pos, next) =~= bytes.skip(pos).subrange(0, next - pos));
    assert(bytes.skip(pos).skip(next - pos) =~= bytes.skip(next));
}

/// The error of decoding: the bytes are no encoded document.
#[derive(Clone, Copy, Debug, PartialEq, Eq, Structural)]
pub struct MalformedDocument;

/// Calls `core::str::from_utf8`.
///
/// Trusted: the call succeeds exactly on valid UTF-8 and then returns the
/// text that the bytes encode.
#[verifier::external_body]
fn str_from_utf8(bytes: &[u8]) -> (r: Option<&str>)
    ensures
        r is Some <==> valid_utf8(bytes@),
        r matches Some(text) ==> text@ == decode_utf8(bytes@),
{
    match core::str::from_utf8(bytes) {
        Ok(text) => Some(text),
        Err(_) => None,
    }
}

/// Appends the encoding of a count.
fn push_count(out: &mut Vec<u8>, n: usize)
    ensures
        final(out)@ == old(out)@ + encode_count(n as nat),
{
    push_decimal(out, n);
    out.push(NEWLINE);
    proof {
        assert(out@ =~= old(out)@ + encode_count(n as nat));
    }
}

/// Appends the encoding of a text.
fn push_text(out: &mut Vec<u8>, text: &str)
    ensures
        final(out)@ == old(out)@ + encode_text(text@),
{
    let bytes = text.as_bytes();
    push_decimal(out, bytes.len());
    out.push(COLON);
    append_bytes(out, bytes);
    out.push(NEWLINE);
    proof {
        assert(out@ =~= old(out)@ + encode_text(text@));
    }
}

/// Reads at `pos` a count and its line feed. Returns the count and the
/// position after it.
fn read_count(bytes: &[u8], pos: usize) -> (r: Option<(usize, usize)>)
    requires
        pos <= bytes.len(),
    ensures
        match r {
            Some((n, next)) => pos < next <= bytes.len() && bytes@.subrange(pos as int, next as int)
                == encode_count(n as nat),
            None => forall|n: nat|
                n <= usize::MAX ==> !(#[trigger] encode_count(n)).is_prefix_of(
                    bytes@.skip(pos as int),
                ),
        },
{
    let r = read_number(bytes, pos, NEWLINE);
    proof {
        if r is None {
            assert forall|n: nat| n <= usize::MAX implies !(#[trigger] encode_count(
                n,
            )).is_prefix_of(bytes@.skip(pos as int)) by {
                assert(!decimal(n).push(NEWLINE).is_prefix_of(bytes@.skip(pos as int)));
            }
        }
    }
    r
}

/// Reads at `pos` an encoded string of bytes. Returns where the string
/// itself begins and ends; the encoding ends one byte later.
fn read_field(bytes: &[u8], pos: usize) -> (r: Option<(usize, usize)>)
    requires
        pos <= bytes.len(),
    ensures
        match r {
            Some((start, end)) => pos < start <= end < bytes.len() && bytes@.subrange(
                pos as int,
                end + 1,
            ) == encode_field(bytes@.subrange(start as int, end as int)),
            None => forall|x: Seq<u8>|
                !(#[trigger] encode_field(x)).is_prefix_of(bytes@.skip(pos as int)),
        },
{
    let ghost s = bytes@.skip(pos as int);
    match read_number(bytes, pos, COLON) {
        None => {
            proof {
                assert forall|x: Seq<u8>| !(#[trigger] encode_field(x)).is_prefix_of(s) by {
                    if encode_field(x).is_prefix_of(s) {
                        let head = decimal(x.len()).push(COLON);
                        assert(encode_field(x) =~= head + (x + seq![NEWLINE]));
                        lemma_prefix_concat(head, x + seq![NEWLINE], s);
                    }
                }
            }
            None
        },
        Some((n, start)) => {
            let ghost head = decimal(n as nat).push(COLON);
            proof {
                lemma_range_starts(bytes@, pos as int, start as int);
            }
            if bytes.len() - start <= n || bytes[start + n] != NEWLINE {
                proof {
                    assert forall|x: Seq<u8>| !(#[trigger] encode_field(x)).is_prefix_of(s) by {
                        if encode_field(x).is_prefix_of(s) {
                            let head_x = decimal(x.len()).push(COLON);
                            assert(encode_field(x) =~= head_x + (x + seq![NEWLINE]));
                            lemma_prefix_concat(head_x, x + seq![NEWLINE], s);
                            lemma_number_unique(x.len(), n as nat, COLON, s);
                            let rest = s.skip(head.len() as int);
                            lemma_prefix_concat(x, seq![NEWLINE], rest);
                            let tail = rest.skip(x.len() as int);
                            let line_end = seq![NEWLINE];
                            assert(line_end.is_prefix_of(tail));
                            assert(line_end[0] == tail.subrange(0, 1)[0]);
                            assert(tail[0] == bytes@[start + n]);
                        }
                    }
                }
                return None;
            }
            let end = start + n;
            proof {
                let x = bytes@.subrange(start as int, end as int);
                assert(bytes@.subrange(pos as int, end + 1) =~= head + x + seq![NEWLINE]);
            }
            Some((start, end))
        },
    }
}

/// Reads at `pos` an encoded text. Returns the text and the position
/// after its encoding.
fn read_text(bytes: &[u8], pos: usize) -> (r: Option<(String, usize)>)
    requires
        pos <= bytes.len(),
    ensures
        match r {
            Some((text, next)) => pos < next <= bytes.len() && bytes@.subrange(
                pos as int,
                next as int,
            ) == encode_text(text@),
            None => forall|t: Seq<char>|
                !(#[trigger] encode_text(t)).is_prefix_of(bytes@.skip(pos as int)),
        },
{
    let ghost s = bytes@.skip(pos as int);
    match read_field(bytes, pos) {
        None => None,
        Some((start, end)) => {
            let raw = slice_subrange(bytes, start, end);
            proof {
                lemma_range_starts(bytes@, pos as int, end + 1);
            }
            match str_from_utf8(raw) {
                None => {
                    proof {
                        assert forall|t: Seq<char>| !(#[trigger] encode_text(t)).is_prefix_of(
                            s,
                        ) by {
                            if encode_text(t).is_prefix_of(s) {
                                lemma_field_unique(encode_utf8(t), raw@, s);
                                encode_utf8_valid_utf8(t);
                            }
                        }
                    }
                    None
                },
                Some(text) => {
                    proof {
                        decode_utf8_encode_utf8(raw@);
                    }
                    Some((text.to_owned(), end + 1))
                },
            }
        },
    }
}

/// Where `first + rest` starts what follows `pos` and `first` is what
/// stands from `pos` to `next`, `rest` starts what follows `next`.
pub proof fn lemma_rest_starts(first: Seq<u8>, rest: Seq<u8>, bytes: Seq<u8>, pos: int, next: int)
    requires
        0 <= pos <= next <= bytes.len(),
        (first + rest).is_prefix_of(bytes.skip(pos)),
        bytes.subrange(pos, next) == first,
    ensures
        rest.is_prefix_of(bytes.skip(next)),
{
    lemma_prefix_concat(first, rest, bytes.skip(pos));
    lemma_range_starts(bytes, pos, next);
}

/// Appends the encoding of a page.
fn push_page(out: &mut Vec<u8>, page: &Page)
    ensures
        final(out)@ == old(out)@ + encode_page(page@),
{
    push_text(out, page.name.as_str());
    push_text(out, page.created_at.as_str());
    push_text(out, page.content.as_str());
    proof {
        assert(out@ =~= old(out)@ + encode_page(page@));
    }
}

/// Appends the encoding of a folder.
fn push_folder(out: &mut Vec<u8>, folder: &Folder)
    ensures
        final(out)@ == old(out)@ + encode_folder(folder@),
{
    let ghost pages = pages_view(folder.pages@);
    let ghost encode = |p: PageModel| encode_page(p);
    push_text(out, folder.key.as_str());
    push_count(out, folder.pages.len());
    let ghost head = out@;
    let mut i: usize = 0;
    while i < folder.pages.len()
        invariant
            i <= folder.pages.len(),
            pages == pages_view(folder.pages@),
            encode == |p: PageModel| encode_page(p),
            out@ == head + encode_all(pages.take(i as int), encode),
        decreases folder.pages.len() - i,
    {
        push_page(out, &folder.pages[i]);
        proof {
            lemma_encode_all_push(pages.take(i as int), pages[i as int], encode);
            assert(pages.take(i + 1) =~= pages.take(i as int).push(pages[i as int]));
            assert(out@ =~= head + encode_all(pages.take(i + 1), encode));
        }
        i += 1;
    }
    proof {
        assert(pages.take(i as int) =~= pages);
        assert(out@ =~= old(out)@ + encode_folder(folder@));
    }
}

/// Encodes a document.
pub fn serialize(document: &Document) -> (out: Vec<u8>)
    ensures
        out@ == encode_document(document.model()),
{
    let folders = document.folders();
    let ghost model = document.model();
    let ghost encode = |f: FolderModel| encode_folder(f);
    let mut out: Vec<u8> = Vec::new();
    append_bytes(&mut out, HEADER.as_slice());
    push_count(&mut out, folders.len());
    let ghost head = out@;
    let mut i: usize = 0;
    while i < folders.len()
        invariant
            i <= folders.len(),
            model == folders_view(folders@),
            encode == |f: FolderModel| encode_folder(f),
            out@ == head + encode_all(model.take(i as int), encode),
        decreases folders.len() - i,
    {
        push_folder(&mut out, &folders[i]);
        proof {
            lemma_encode_all_push(model.take(i as int), model[i as int], encode);
            assert(model.take(i + 1) =~= model.take(i as int).push(model[i as int]));
            assert(out@ =~= head + encode_all(model.take(i + 1), encode));
        }
        i += 1;
    }
    proof {
        assert(model.take(i as int) =~= model);
        assert(out@ =~= encode_document(model));
    }
    out
}

/// Reads at `pos` an encoded page. Returns the page and the position
/// after its encoding.
fn read_page(bytes: &[u8], pos: usize) -> (r: Option<(Page, usize)>)
    requires
        pos <= bytes.len(),
    ensures
        match r {
            Some((page, next)) => pos < next <= bytes.len() && bytes@.subrange(
                pos as int,
                next as int,
            ) == encode_page(page@),
            None => forall|p: PageModel|
                !(#[trigger] encode_page(p)).is_prefix_of(bytes@.skip(pos as int)),
        },
{
    let ghost s = bytes@.skip(pos as int);
    let (name, at_time) = match read_text(bytes, pos) {
        Some(found) => found,
        None => {
            proof {
                assert forall|p: PageModel| !(#[trigger] encode_page(p)).is_prefix_of(s) by {
                    let (e1, e2, e3) = (
                        encode_text(p.name),
                        encode_text(p.created_at),
                        encode_text(p.content),
                    );
                    assert(encode_page(p) =~= e1 + (e2 + e3));
                    lemma_prefix_concat(e1, e2 + e3, s);
                }
            }
            return None;
        },
    };
    let (created_at, at_content) = match read_text(bytes, at_time) {
        Some(found) => found,
        None => {
            proof {
                assert forall|p: PageModel| !(#[trigger] encode_page(p)).is_prefix_of(s) by {
                    let (e1, e2, e3) = (
                        encode_text(p.name),
                        encode_text(p.created_at),
                        encode_text(p.content),
                    );
                    assert(encode_page(p) =~= e1 + (e2 + e3));
                    if encode_page(p).is_prefix_of(s) {
                        lemma_prefix_concat(e1, e2 + e3, s);
                        lemma_range_starts(bytes@, pos as int, at_time as int);
                        lemma_text_unique(p.name, name@, s);
                        lemma_rest_starts(e1, e2 + e3, bytes@, pos as int, at_time as int);
                        lemma_prefix_concat(e2, e3, bytes@.skip(at_time as int));
                    }
                }
            }
            return None;
        },
    };
    let (content, end) = match read_text(bytes, at_content) {
        Some(found) => found,
        None => {
            proof {
                assert forall|p: PageModel| !(#[trigger] encode_page(p)).is_prefix_of(s) by {
                    let (e1, e2, e3) = (
                        encode_text(p.name),
                        encode_text(p.created_at),
                        encode_text(p.content),
                    );
                    assert(encode_page(p) =~= e1 + (e2 + e3));
                    if encode_page(p).is_prefix_of(s) {
                        lemma_prefix_concat(e1, e2 + e3, s);
                        lemma_range_starts(bytes@, pos as int, at_time as int);
                        lemma_text_unique(p.name, name@, s);
                        lemma_rest_starts(e1, e2 + e3, bytes@, pos as int, at_time as int);
                        lemma_prefix_concat(e2, e3, bytes@.skip(at_time as int));
                        lemma_range_starts(bytes@, at_time as int, at_content as int);
                        lemma_text_unique(p.created_at, created_at@, bytes@.skip(at_time as int));
                        lemma_rest_starts(e2, e3, bytes@, at_time as int, at_content as int);
                    }
                }
            }
            return None;
        },
    };
    let page = Page { name, created_at, content };
    proof {
        let first = bytes@.subrange(pos as int, at_time as int);
        let second = bytes@.subrange(at_time as int, at_content as int);
        let third = bytes@.subrange(at_content as int, end as int);
        assert(bytes@.subrange(pos as int, end as int) =~= first + second + third);
    }
    Some((page, end))
}

/// Reads at `pos` the encodings of `count` pages. Returns the pages and
/// the position after the last.
fn read_pages(bytes: &[u8], pos: usize, count: usize) -> (r: Option<(Vec<Page>, usize)>)
    requires
        pos <= bytes.len(),
    ensures
        match r {
            Some((pages, next)) => pos <= next <= bytes.len() && pages@.len() == count
                && bytes@.subrange(pos as int, next as int) == encode_pages(pages_view(pages@)),
            None => forall|ps: Seq<PageModel>|
                ps.len() == count ==> !(#[trigger] encode_pages(ps)).is_prefix_of(
                    bytes@.skip(pos as int),
                ),
        },
{
    let ghost s = bytes@.skip(pos as int);
    let ghost encode = |p: PageModel| encode_page(p);
    let mut pages: Vec<Page> = Vec::new();
    let mut at: usize = pos;
    let mut i: usize = 0;
    proof {
        assert(bytes@.subrange(pos as int, at as int) =~= encode_all(pages_view(pages@), encode));
    }
    while i < count
        invariant
            i <= count,
            pos <= at <= bytes.len(),
            pages@.len() == i,
            s == bytes@.skip(pos as int),
            encode == |p: PageModel| encode_page(p),
            bytes@.subrange(pos as int, at as int) == encode_all(pages_view(pages@), encode),
        decreases count - i,
    {
        match read_page(bytes, at) {
            None => {
                proof {
                    let read = pages_view(pages@);
                    assert forall|ps: Seq<PageModel>| ps.len() == count implies !(
                    #[trigger] encode_pages(ps)).is_prefix_of(s) by {
                        if encode_pages(ps).is_prefix_of(s) {
                            lemma_pages_prefix_unique();
                            lemma_range_starts(bytes@, pos as int, at as int);
                            lemma_next_item_starts(ps, read, encode, s);
                            assert(encode(ps[i as int]) == encode_page(ps[i as int]));
                        }
                    }
                }
                return None;
            },
            Some((page, next)) => {
                proof {
                    let read = pages_view(pages@);
                    lemma_encode_all_push(read, page@, encode);
                    assert(pages_view(pages@.push(page)) =~= read.push(page@));
                    assert(bytes@.subrange(pos as int, next as int) =~= bytes@.subrange(
                        pos as int,
                        at as int,
                    ) + bytes@.subrange(at as int, next as int));
                }
                pages.push(page);
                at = next;
            },
        }
        i += 1;
    }
    Some((pages, at))
}

/// Reads at `pos` an encoded folder. Returns the folder and the position
/// after its encoding.
fn read_folder(bytes: &[u8], pos: usize) -> (r: Option<(Folder, usize)>)
    requires
        pos <= bytes.len(),
    ensures
        match r {
            Some((folder, next)) => pos < next <= bytes.len() && bytes@.subrange(
                pos as int,
                next as int,
            ) == encode_folder(folder@),
            None => forall|f: FolderModel|
                !(#[trigger] encode_folder(f)).is_prefix_of(bytes@.skip(pos as int)),
        },
{
    let ghost s = bytes@.skip(pos as int);
    let (key, at_count) = match read_text(bytes, pos) {
        Some(found) => found,
        None => {
            proof {
                assert forall|f: FolderModel| !(#[trigger] encode_folder(f)).is_prefix_of(s) by {
                    let (e1, e2, e3) = (
                        encode_text(f.key),
                        encode_count(f.pages.len()),
                        encode_pages(f.pages),
                    );
                    assert(encode_folder(f) =~= e1 + (e2 + e3));
                    lemma_prefix_concat(e1, e2 + e3, s);
                }
            }
            return None;
        },
    };
    let (count, at_pages) = match read_count(bytes, at_count) {
        Some(found) => found,
        None => {
            proof {
                assert forall|f: FolderModel| !(#[trigger] encode_folder(f)).is_prefix_of(s) by {
                    let (e1, e2, e3) = (
                        encode_text(f.key),
                        encode_count(f.pages.len()),
                        encode_pages(f.pages),
                    );
                    assert(encode_folder(f) =~= e1 + (e2 + e3));
                    if encode_folder(f).is_prefix_of(s) {
                        lemma_prefix_concat(e1, e2 + e3, s);
                        lemma_range_starts(bytes@, pos as int, at_count as int);
                        lemma_text_unique(f.key, key@, s);
                        lemma_rest_starts(e1, e2 + e3, bytes@, pos as int, at_count as int);
                        lemma_prefix_concat(e2, e3, bytes@.skip(at_count as int));
                        assert forall|x: PageModel| (#[trigger] encode_page(x)).len() >= 1 by {}
                        lemma_encode_all_len(f.pages, |p: PageModel| encode_page(p));
                    }
                }
            }
            return None;
        },
    };
    let (pages, end) = match read_pages(bytes, at_pages, count) {
        Some(found) => found,
        None => {
            proof {
                assert forall|f: FolderModel| !(#[trigger] encode_folder(f)).is_prefix_of(s) by {
                    let (e1, e2, e3) = (
                        encode_text(f.key),
                        encode_count(f.pages.len()),
                        encode_pages(f.pages),
                    );
                    assert(encode_folder(f) =~= e1 + (e2 + e3));
                    if encode_folder(f).is_prefix_of(s) {
                        lemma_prefix_concat(e1, e2 + e3, s);
                        lemma_range_starts(bytes@, pos as int, at_count as int);
                        lemma_text_unique(f.key, key@, s);
                        lemma_rest_starts(e1, e2 + e3, bytes@, pos as int, at_count as int);
                        lemma_prefix_concat(e2, e3, bytes@.skip(at_count as int));
                        lemma_range_starts(bytes@, at_count as int, at_pages as int);
                        lemma_number_unique(
                            f.pages.len(),
                            count as nat,
                            NEWLINE,
                            bytes@.skip(at_count as int),
                        );
                        lemma_rest_starts(e2, e3, bytes@, at_count as int, at_pages as int);
                    }
                }
            }
            return None;
        },
    };
    let folder = Folder { key, pages };
    proof {
        let first = bytes@.subrange(pos as int, at_count as int);
        let second = bytes@.subrange(at_count as int, at_pages as int);
        let third = bytes@.subrange(at_pages as int, end as int);
        assert(bytes@.subrange(pos as int, end as int) =~= first + second + third);
    }
    Some((folder, end))
}

/// Reads at `pos` the encodings of `count` folders. Returns the folders
/// and the position after the last.
fn read_folders(bytes: &[u8], pos: usize, count: usize) -> (r: Option<(Vec<Folder>, usize)>)
    requires
        pos <= bytes.len(),
    ensures
        match r {
            Some((folders, next)) => pos <= next <= bytes.len() && folders@.len() == count
                && bytes@.subrange(pos as int, next as int) == encode_folders(
                folders_view(folders@),
            ),
            None => forall|fs: Seq<FolderModel>|
                fs.len() == count ==> !(#[trigger] encode_folders(fs)).is_prefix_of(
                    bytes@.skip(pos as int),
                ),
        },
{
    let ghost s = bytes@.skip(pos as int);
    let ghost encode = |f: FolderModel| encode_folder(f);
    let mut folders: Vec<Folder> = Vec::new();
    let mut at: usize = pos;
    let mut i: usize = 0;
    proof {
        assert(bytes@.subrange(pos as int, at as int) =~= encode_all(
            folders_view(folders@),
            encode,
        ));
    }
    while i < count
        invariant
            i <= count,
            pos <= at <= bytes.len(),
            folders@.len() == i,
            s == bytes@.skip(pos as int),
            encode == |f: FolderModel| encode_folder(f),
            bytes@.subrange(pos as int, at as int) == encode_all(folders_view(folders@), encode),
        decreases count - i,
    {
        match read_folder(bytes, at) {
            None => {
                proof {
                    let read = folders_view(folders@);
                    assert forall|fs: Seq<FolderModel>| fs.len() == count implies !(
                    #[trigger] encode_folders(fs)).is_prefix_of(s) by {
                        if encode_folders(fs).is_prefix_of(s) {
                            lemma_folders_prefix_unique();
                            lemma_range_starts(bytes@, pos as int, at as int);
                            lemma_next_item_starts(fs, read, encode, s);
                            assert(encode(fs[i as int]) == encode_folder(fs[i as int]));
                        }
                    }
                }
                return None;
            },
            Some((folder, next)) => {
                proof {
                    let read = folders_view(folders@);
                    lemma_encode_all_push(read, folder@, encode);
                    assert(folders_view(folders@.push(folder)) =~= read.push(folder@));
                    assert(bytes@.subrange(pos as int, next as int) =~= bytes@.subrange(
                        pos as int,
                        at as int,
                    ) + bytes@.subrange(at as int, next as int));
                }
                folders.push(folder);
                at = next;
            },
        }
        i += 1;
    }
    Some((folders, at))
}

/// The document that the bytes encode, if they encode one.
pub open spec fn decoded(bytes: Seq<u8>) -> Option<Seq<FolderModel>> {
    if exists|m: Seq<FolderModel>| model_wf(m) && encode_document(m) == bytes {
        Some(choose|m: Seq<FolderModel>| model_wf(m) && encode_document(m) == bytes)
    } else {
        None
    }
}

/// Decoding undoes encoding.
pub proof fn lemma_decoded_encoding(m: Seq<FolderModel>)
    requires
        model_wf(m),
    ensures
        decoded(encode_document(m)) == Some(m),
{
    let found = choose|x: Seq<FolderModel>| model_wf(x) && encode_document(x) == encode_document(m);
    lemma_encoding_injective(found, m);
}

/// Whether `bytes` begins with the header line.
fn starts_with_header(bytes: &[u8]) -> (r: bool)
    ensures
        r == HEADER@.is_prefix_of(bytes@),
{
    if bytes.len() < HEADER.len() {
        return false;
    }
    let mut i: usize = 0;
    while i < HEADER.len()
        invariant
            i <= HEADER@.len() <= bytes@.len(),
            forall|j: int| 0 <= j < i ==> bytes@[j] == HEADER@[j],
        decreases HEADER@.len() - i,
    {
        if bytes[i] != HEADER[i] {
            proof {
                if HEADER@.is_prefix_of(bytes@) {
                    assert(HEADER@[i as int] == bytes@.subrange(0, HEADER@.len() as int)[i as int]);
                }
            }
            return false;
        }
        i += 1;
    }
    proof {
        assert(HEADER@ =~= bytes@.subrange(0, HEADER@.len() as int));
    }
    true
}

/// Decodes a document.
///
/// Succeeds exactly on the encodings of documents, and then returns the
/// document that was encoded. Anything else is malformed: a missing or
/// unknown header, a missing field or count, text that is no UTF-8,
/// folders or pages out of order or twice under one key, and bytes after
/// the last folder.
pub fn deserialize(bytes: &[u8]) -> (r: Result<Document, MalformedDocument>)
    ensures
        match r {
            Ok(document) => encode_document(document.model()) == bytes@,
            Err(_) => forall|m: Seq<FolderModel>|
                model_wf(m) ==> #[trigger] encode_document(m) != bytes@,
        },
        forall|m: Seq<FolderModel>|
            model_wf(m) && #[trigger] encode_document(m) == bytes@ ==> r is Ok && r->Ok_0.model()
                == m,
        match r {
            Ok(document) => decoded(bytes@) == Some(document.model()),
            Err(_) => decoded(bytes@) is None,
        },
{
    let r = decode(bytes);
    proof {
        assert forall|m: Seq<FolderModel>|
            model_wf(m) && #[trigger] encode_document(m) == bytes@ implies r is Ok
            && r->Ok_0.model() == m by {
            lemma_encoding_injective(m, r->Ok_0.model());
        }
        if r is Ok {
            lemma_decoded_encoding(r->Ok_0.model());
        }
    }
    r
}

/// Decodes a document.
fn decode(bytes: &[u8]) -> (r: Result<Document, MalformedDocument>)
    ensures
        match r {
            Ok(document) => model_wf(document.model()) && encode_document(document.model())
                == bytes@,
            Err(_) => forall|m: Seq<FolderModel>|
                model_wf(m) ==> #[trigger] encode_document(m) != bytes@,
        },
{
    let ghost encode = |f: FolderModel| encode_folder(f);
    let len = bytes.len();
    proof {
        assert(bytes@.skip(0) =~= bytes@);
        assert forall|m: Seq<FolderModel>| #[trigger]
            encode_document(m) == bytes@ implies HEADER@.is_prefix_of(bytes@) && (encode_count(
            m.len(),
        ) + encode_folders(m)).is_prefix_of(bytes@.skip(HEADER@.len() as int)) && m.len()
            <= usize::MAX by {
            let tail = encode_count(m.len()) + encode_folders(m);
            assert(encode_document(m) =~= HEADER@ + tail);
            assert((HEADER@ + tail).is_prefix_of(bytes@));
            lemma_prefix_concat(HEADER@, tail, bytes@);
            assert(HEADER@.is_prefix_of(bytes@));
            assert(tail.is_prefix_of(bytes@.skip(HEADER@.len() as int)));
            assert forall|x: FolderModel| (#[trigger] encode(x)).len() >= 1 by {}
            lemma_encode_all_len(m, encode);
            assert(encode_folders(m).len() >= m.len());
            assert(m.len() <= len);
        }
    }
    if !starts_with_header(bytes) {
        return Err(MalformedDocument);
    }
    let at_count = HEADER.len();
    let (count, at_folders) = match read_count(bytes, at_count) {
        Some(found) => found,
        None => {
            proof {
                assert forall|m: Seq<FolderModel>| #[trigger]
                    encode_document(m) == bytes@ implies false by {
                    lemma_prefix_concat(
                        encode_count(m.len()),
                        encode_folders(m),
                        bytes@.skip(at_count as int),
                    );
                }
            }
            return Err(MalformedDocument);
        },
    };
    proof {
        assert forall|m: Seq<FolderModel>| #[trigger]
            encode_document(m) == bytes@ implies m.len() == count && encode_folders(
            m,
        ).is_prefix_of(bytes@.skip(at_folders as int)) && encode_document(m).len() == at_folders
            + encode_folders(m).len() by {
            let (e2, e3) = (encode_count(m.len()), encode_folders(m));
            lemma_prefix_concat(e2, e3, bytes@.skip(at_count as int));
            lemma_range_starts(bytes@, at_count as int, at_folders as int);
            lemma_number_unique(m.len(), count as nat, NEWLINE, bytes@.skip(at_count as int));
            lemma_rest_starts(e2, e3, bytes@, at_count as int, at_folders as int);
            assert(encode_document(m) =~= HEADER@ + e2 + e3);
        }
    }
    let (folders, end) = match read_folders(bytes, at_folders, count) {
        Some(found) => found,
        None => {
            return Err(MalformedDocument);
        },
    };
    proof {
        lemma_range_starts(bytes@, at_folders as int, end as int);
        assert forall|m: Seq<FolderModel>| #[trigger]
            encode_document(m) == bytes@ implies m == folders_view(folders@) by {
            lemma_folders_prefix_unique();
            lemma_encode_all_unique(
                m,
                folders_view(folders@),
                encode,
                bytes@.skip(at_folders as int),
            );
        }
    }
    if end != len {
        return Err(MalformedDocument);
    }
    proof {
        let first = bytes@.subrange(0, at_count as int);
        let second = bytes@.subrange(at_count as int, at_folders as int);
        let third = bytes@.subrange(at_folders as int, end as int);
        assert(bytes@ =~= first + second + third);
    }
    match Document::from_folders(folders) {
        Some(document) => Ok(document),
        None => Err(MalformedDocument),
    }
}

} // verus!
