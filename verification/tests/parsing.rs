//! Unit tests of the object parsers, the decimal reader, the hexadecimal
//! renderer, and the store lookup.

use cookie_hunt::bytes::{parse_u32_dec, hex_of_bytes, trim_bytes, contains_bytes};
use cookie_hunt::errors::SearchError;
use cookie_hunt::objects::{parse_commit, parse_git_tree};
use cookie_hunt::search::find_file_with_cookie;
use cookie_hunt::store::{FoundSet, ObjectStore};

fn zlib_bytes(data: &[u8]) -> Vec<u8> {
    let mut enc = flate2::write::ZlibEncoder::new(Vec::new(), flate2::Compression::default());
    std::io::Write::write_all(&mut enc, data).unwrap();
    enc.finish().unwrap()
}

#[test]
fn commit_fields_are_extracted() {
    let text = "tree bbbbbbbbbbbbbbbbbbbbbbbbbbbbbbbbbbbbbbbb\n\
                parent 1111111111111111111111111111111111111111\n\
                parent 9999999999999999999999999999999999999999\n\
                author Santa Claus <santa@northpole.example> 1700000000 +0000\n\
                committer Other <o@x> 1 +0000\n\nmessage";
    let mut o = format!("commit {}", text.len()).into_bytes();
    o.push(0);
    o.extend_from_slice(text.as_bytes());
    let c = parse_commit(&o).unwrap();
    assert_eq!(c.tree, b"bbbbbbbbbbbbbbbbbbbbbbbbbbbbbbbbbbbbbbbb".to_vec());
    // Only the first parent line counts.
    assert_eq!(c.parent, Some(b"1111111111111111111111111111111111111111".to_vec()));
    // The author stops before the email bracket.
    assert_eq!(c.author, b"Santa Claus".to_vec());
}

#[test]
fn commit_without_tag_is_not_a_commit() {
    let r = parse_commit(b"blob 3\0abc");
    assert_eq!(r.unwrap_err(), SearchError::NotACommit);
}

#[test]
fn commit_without_null_is_eof() {
    let r = parse_commit(b"commit 10 but never a terminator");
    assert_eq!(r.unwrap_err(), SearchError::UnexpectedEof);
}

#[test]
fn tree_entries_keep_order_and_hex() {
    let mut body: Vec<u8> = Vec::new();
    body.extend_from_slice(b"40000 sub\0");
    body.extend_from_slice(&[
        0, 1, 2, 3, 4, 5, 6, 7, 8, 9, 10, 11, 12, 13, 14, 15, 16, 17, 18, 19,
    ]);
    body.extend_from_slice(b"100644 a name with spaces\0");
    body.extend_from_slice(&[0xff; 20]);
    let mut o = format!("tree {}", body.len()).into_bytes();
    o.push(0);
    o.extend_from_slice(&body);
    let es = parse_git_tree(&o).unwrap();
    assert_eq!(es.len(), 2);
    assert_eq!(es[0].mode, 40000);
    assert_eq!(es[0].name, b"sub".to_vec());
    assert_eq!(
        String::from_utf8(es[0].hash.clone()).unwrap(),
        "000102030405060708090a0b0c0d0e0f10111213"
    );
    assert_eq!(es[1].mode, 100644);
    assert_eq!(es[1].name, b"a name with spaces".to_vec());
    assert_eq!(
        String::from_utf8(es[1].hash.clone()).unwrap(),
        "ffffffffffffffffffffffffffffffffffffffff"
    );
}

#[test]
fn tree_without_tag_is_not_a_tree() {
    let r = parse_git_tree(b"blob 1\0x");
    assert_eq!(r.unwrap_err(), SearchError::NotATree);
}

#[test]
fn tree_with_non_decimal_mode_is_malformed() {
    let mut body: Vec<u8> = Vec::new();
    body.extend_from_slice(b"4o000 sub\0");
    body.extend_from_slice(&[7; 20]);
    let mut o = format!("tree {}", body.len()).into_bytes();
    o.push(0);
    o.extend_from_slice(&body);
    let r = parse_git_tree(&o);
    assert_eq!(r.unwrap_err(), SearchError::MalformedTreeEntry);
}

#[test]
fn tree_with_unterminated_entry_is_eof() {
    let mut o = b"tree 9\0".to_vec();
    o.extend_from_slice(b"100644 x");
    let r = parse_git_tree(&o);
    assert_eq!(r.unwrap_err(), SearchError::UnexpectedEof);
}

#[test]
fn decimal_reader_matches_the_standard_parser() {
    assert_eq!(parse_u32_dec(b"0"), Some(0));
    assert_eq!(parse_u32_dec(b"40000"), Some(40000));
    assert_eq!(parse_u32_dec(b"+123"), Some(123));
    assert_eq!(parse_u32_dec(b"4294967295"), Some(u32::MAX));
    assert_eq!(parse_u32_dec(b"4294967296"), None);
    assert_eq!(parse_u32_dec(b""), None);
    assert_eq!(parse_u32_dec(b"+"), None);
    assert_eq!(parse_u32_dec(b"12a"), None);
    assert_eq!(parse_u32_dec(b"-1"), None);
}

#[test]
fn hex_rendering_is_lowercase_two_digits_per_byte() {
    assert_eq!(hex_of_bytes(&[0x00, 0x0a, 0xff, 0x42]), b"000aff42".to_vec());
    assert_eq!(hex_of_bytes(&[]), Vec::<u8>::new());
    assert_eq!(hex_of_bytes(&[0xde, 0xad]), b"dead".to_vec());
}

#[test]
fn trim_removes_surrounding_whitespace() {
    assert_eq!(trim_bytes(b"  santa.txt \t"), b"santa.txt".to_vec());
    assert_eq!(trim_bytes(b"   "), Vec::<u8>::new());
    assert_eq!(trim_bytes(b"x"), b"x".to_vec());
}

#[test]
fn token_search_finds_substrings() {
    assert!(contains_bytes(b"one COOKIE here", b"COOKIE"));
    assert!(!contains_bytes(b"no cookie here", b"COOKIE"));
    assert!(contains_bytes(b"abc", b""));
    assert!(!contains_bytes(b"ab", b"abc"));
}

#[test]
fn direct_tree_search_over_a_hand_built_store() {
    // A buffer holding two compressed objects back to back, with a store
    // that maps hashes to their ranges.
    let tree_hash = b"bbbbbbbbbbbbbbbbbbbbbbbbbbbbbbbbbbbbbbbb";
    let blob_hash = "aaaaaaaaaaaaaaaaaaaaaaaaaaaaaaaaaaaaaaaa";
    let mut body: Vec<u8> = Vec::new();
    body.extend_from_slice(b"100644 santa.txt\0");
    body.extend_from_slice(&[0xaa; 20]);
    let mut tree_obj = format!("tree {}", body.len()).into_bytes();
    tree_obj.push(0);
    tree_obj.extend_from_slice(&body);
    let tree_z = zlib_bytes(&tree_obj);
    let blob_z = zlib_bytes(b"blob 6\0COOKIE");

    let mut buf = tree_z.clone();
    buf.extend_from_slice(&blob_z);
    let mut store = ObjectStore::new();
    store.insert(tree_hash.to_vec(), 0, tree_z.len());
    store.insert(blob_hash.as_bytes().to_vec(), tree_z.len(), buf.len());
    let found = FoundSet::new();
    let r = find_file_with_cookie(&buf, &store, &tree_hash.to_vec(), &found);
    assert!(matches!(r, Ok(Ok(()))));
}

#[test]
fn direct_tree_search_reports_object_not_found() {
    let store = ObjectStore::new();
    let found = FoundSet::new();
    let r = find_file_with_cookie(b"", &store, &b"nope".to_vec(), &found);
    assert!(matches!(r, Err(SearchError::ObjectNotFound)));
}
