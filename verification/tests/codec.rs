use clog_journal::codec::{deserialize, serialize, MalformedDocument};
use clog_journal::model::Document;

fn sample() -> Document {
    Document::create_empty()
        .add_page("01/01/2024", "intro", "hello", "08:15:02 AM")
        .unwrap()
        .add_page("02/01/2024", "b", "two\nlines", "t2")
        .unwrap()
        .add_page("02/01/2024", "a", "", "t1")
        .unwrap()
}

#[test]
fn the_empty_document_is_header_and_count() {
    assert_eq!(serialize(&Document::create_empty()), b"clog-document 1\n0\n".to_vec());
}

#[test]
fn a_document_is_written_field_by_field() {
    let doc = Document::create_empty().add_page("01/01/2024", "intro", "hello", "t").unwrap();
    assert_eq!(
        serialize(&doc),
        b"clog-document 1\n1\n10:01/01/2024\n1\n5:intro\n1:t\n5:hello\n".to_vec()
    );
}

#[test]
fn folders_and_pages_are_written_in_order() {
    assert_eq!(
        serialize(&sample()),
        b"clog-document 1\n2\n10:01/01/2024\n1\n5:intro\n11:08:15:02 AM\n5:hello\n\
10:02/01/2024\n2\n1:a\n2:t1\n0:\n1:b\n2:t2\n9:two\nlines\n"
            .to_vec()
    );
}

#[test]
fn lengths_are_counted_in_bytes() {
    let doc = Document::create_empty().add_page("k", "é", "日記", "t").unwrap();
    assert_eq!(
        serialize(&doc),
        "clog-document 1\n1\n1:k\n1\n2:é\n1:t\n6:日記\n".as_bytes().to_vec()
    );
}

#[test]
fn decoding_undoes_encoding() {
    let doc = sample();
    assert_eq!(deserialize(&serialize(&doc)), Ok(doc));
}

#[test]
fn decoding_undoes_encoding_of_the_empty_document() {
    let doc = Document::create_empty();
    assert_eq!(deserialize(&serialize(&doc)), Ok(doc));
}

#[test]
fn content_may_hold_the_format_s_own_marks() {
    let doc = Document::create_empty()
        .add_page("01/01/2024", "5:name\n", "3:abc\n1\n", "clog-document 1\n")
        .unwrap();
    assert_eq!(deserialize(&serialize(&doc)), Ok(doc));
}

#[test]
fn long_content_survives() {
    let content = "x".repeat(100_000);
    let doc = Document::create_empty().add_page("01/01/2024", "big", &content, "t").unwrap();
    let back = deserialize(&serialize(&doc)).unwrap();
    assert_eq!(back.get_page_content("01/01/2024", "big").unwrap(), content);
}

#[test]
fn decoding_gives_the_pages() {
    let doc = deserialize(b"clog-document 1\n1\n10:01/01/2024\n1\n5:intro\n1:t\n5:hello\n").unwrap();
    assert_eq!(doc.list_folders(), vec!["01/01/2024".to_string()]);
    assert_eq!(doc.list_pages("01/01/2024").unwrap(), vec![("intro".to_string(), "t".to_string())]);
    assert_eq!(doc.get_page_content("01/01/2024", "intro").unwrap(), "hello");
}

fn malformed(bytes: &[u8]) {
    assert_eq!(deserialize(bytes), Err(MalformedDocument));
}

#[test]
fn empty_input_is_malformed() {
    malformed(b"");
}

#[test]
fn an_unknown_header_is_malformed() {
    malformed(b"clog-document 2\n0\n");
    malformed(b"{\"folders\":{}}");
}

#[test]
fn a_missing_count_is_malformed() {
    malformed(b"clog-document 1\n");
    malformed(b"clog-document 1\n\n");
}

#[test]
fn a_truncated_document_is_malformed() {
    let bytes = serialize(&sample());
    for end in 0..bytes.len() {
        malformed(&bytes[..end]);
    }
}

#[test]
fn bytes_after_the_last_folder_are_malformed() {
    let mut bytes = serialize(&sample());
    bytes.push(b'\n');
    malformed(&bytes);
    malformed(b"clog-document 1\n0\n0\n");
}

#[test]
fn a_missing_creation_time_is_malformed() {
    malformed(b"clog-document 1\n1\n10:01/01/2024\n1\n5:intro\n5:hello\n");
}

#[test]
fn a_missing_page_is_malformed() {
    malformed(b"clog-document 1\n1\n10:01/01/2024\n2\n5:intro\n1:t\n5:hello\n");
}

#[test]
fn a_missing_folder_is_malformed() {
    malformed(b"clog-document 1\n2\n10:01/01/2024\n0\n");
}

#[test]
fn a_number_with_a_leading_zero_is_malformed() {
    malformed(b"clog-document 1\n01\n10:01/01/2024\n0\n");
    malformed(b"clog-document 1\n1\n010:01/01/2024\n0\n");
    malformed(b"clog-document 1\n00\n");
}

#[test]
fn a_number_that_is_too_large_is_malformed() {
    malformed(b"clog-document 1\n99999999999999999999999999\n");
    malformed(b"clog-document 1\n1\n99999999999999999999999999:x\n0\n");
    malformed(b"clog-document 1\n1\n18446744073709551615:x\n0\n");
}

#[test]
fn a_wrong_length_is_malformed() {
    malformed(b"clog-document 1\n1\n9:01/01/2024\n0\n");
    malformed(b"clog-document 1\n1\n11:01/01/2024\n0\n");
}

#[test]
fn a_sign_or_a_blank_in_a_number_is_malformed() {
    malformed(b"clog-document 1\n+0\n");
    malformed(b"clog-document 1\n 0\n");
    malformed(b"clog-document 1\n0 \n");
    malformed(b"clog-document 1\n0\r\n");
}

#[test]
fn text_that_is_no_utf8_is_malformed() {
    malformed(b"clog-document 1\n1\n2:\xff\xfe\n0\n");
    malformed(b"clog-document 1\n1\n2:\xc0\x80\n0\n");
    malformed(b"clog-document 1\n1\n3:\xed\xa0\x80\n0\n");
}

#[test]
fn folders_out_of_order_are_malformed() {
    malformed(b"clog-document 1\n2\n10:02/01/2024\n0\n10:01/01/2024\n0\n");
}

#[test]
fn a_folder_key_twice_is_malformed() {
    malformed(b"clog-document 1\n2\n10:01/01/2024\n0\n10:01/01/2024\n0\n");
}

#[test]
fn a_page_name_twice_is_malformed() {
    malformed(b"clog-document 1\n1\n10:01/01/2024\n2\n1:a\n1:t\n1:x\n1:a\n1:t\n1:y\n");
}

#[test]
fn pages_out_of_order_are_malformed() {
    malformed(b"clog-document 1\n1\n10:01/01/2024\n2\n1:b\n1:t\n1:x\n1:a\n1:t\n1:y\n");
}

#[test]
fn every_changed_byte_is_noticed_or_changes_the_document() {
    let doc = sample();
    let bytes = serialize(&doc);
    for i in 0..bytes.len() {
        let mut changed = bytes.clone();
        changed[i] ^= 0x01;
        match deserialize(&changed) {
            Ok(other) => {
                assert_ne!(other, doc);
                assert_eq!(serialize(&other), changed);
            }
            Err(e) => assert_eq!(e, MalformedDocument),
        }
    }
}
