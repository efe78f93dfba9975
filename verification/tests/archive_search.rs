//! End-to-end tests of the archive search: archives are assembled as real
//! tar files holding zlib-compressed git objects, then searched.

use cookie_hunt::errors::SearchError;
use cookie_hunt::walk::find_cookie;

fn zlib(data: &[u8]) -> Vec<u8> {
    let mut enc = flate2::write::ZlibEncoder::new(Vec::new(), flate2::Compression::default());
    std::io::Write::write_all(&mut enc, data).unwrap();
    enc.finish().unwrap()
}

fn hex_decode(hex: &str) -> Vec<u8> {
    let b = hex.as_bytes();
    let mut out = Vec::new();
    let val = |c: u8| -> u8 {
        match c {
            b'0'..=b'9' => c - b'0',
            b'a'..=b'f' => c - b'a' + 10,
            _ => panic!("bad hex digit"),
        }
    };
    assert!(b.len() % 2 == 0);
    let mut i = 0;
    while i < b.len() {
        out.push(val(b[i]) * 16 + val(b[i + 1]));
        i += 2;
    }
    out
}

fn blob_object(content: &[u8]) -> Vec<u8> {
    let mut o = format!("blob {}", content.len()).into_bytes();
    o.push(0);
    o.extend_from_slice(content);
    o
}

fn tree_object(entries: &[(&str, &str, &str)]) -> Vec<u8> {
    // entries: (mode text, name, 40-char hex hash)
    let mut body = Vec::new();
    for (mode, name, hash) in entries {
        body.extend_from_slice(mode.as_bytes());
        body.push(b' ');
        body.extend_from_slice(name.as_bytes());
        body.push(0);
        body.extend_from_slice(&hex_decode(hash));
    }
    let mut o = format!("tree {}", body.len()).into_bytes();
    o.push(0);
    o.extend_from_slice(&body);
    o
}

fn commit_object(tree: &str, parent: Option<&str>, author_line: &str) -> Vec<u8> {
    let mut text = format!("tree {}\n", tree);
    if let Some(p) = parent {
        text.push_str(&format!("parent {}\n", p));
    }
    text.push_str(author_line);
    text.push('\n');
    let mut o = format!("commit {}", text.len()).into_bytes();
    o.push(0);
    o.extend_from_slice(text.as_bytes());
    o
}

fn object_path(hash: &str) -> String {
    format!(".git/objects/{}/{}", &hash[..2], &hash[2..])
}

fn tar_archive(entries: &[(String, Vec<u8>)]) -> Vec<u8> {
    let mut builder = tar::Builder::new(Vec::new());
    for (path, data) in entries {
        let mut header = tar::Header::new_gnu();
        header.set_size(data.len() as u64);
        header.set_mode(0o644);
        header.set_cksum();
        builder.append_data(&mut header, path, data.as_slice()).unwrap();
    }
    builder.into_inner().unwrap()
}

const SANTA_AUTHOR: &str = "author Santa Claus <santa@northpole.example> 1700000000 +0000";

const BLOB_HASH: &str = "aaaaaaaaaaaaaaaaaaaaaaaaaaaaaaaaaaaaaaaa";
const TREE_HASH: &str = "bbbbbbbbbbbbbbbbbbbbbbbbbbbbbbbbbbbbbbbb";
const C1_HASH: &str = "1111111111111111111111111111111111111111";
const C2_HASH: &str = "2222222222222222222222222222222222222222";
const C3_HASH: &str = "3333333333333333333333333333333333333333";
const SUB_HASH: &str = "cccccccccccccccccccccccccccccccccccccccc";
const EMPTY_TREE_HASH: &str = "dddddddddddddddddddddddddddddddddddddddd";

fn one_commit_archive(santa_body: &[u8]) -> Vec<u8> {
    let blob = zlib(&blob_object(santa_body));
    let tree = zlib(&tree_object(&[("100644", "santa.txt", BLOB_HASH)]));
    let commit = zlib(&commit_object(TREE_HASH, None, SANTA_AUTHOR));
    tar_archive(&[
        (object_path(BLOB_HASH), blob),
        (object_path(TREE_HASH), tree),
        (object_path(C1_HASH), commit),
        (".git/refs/heads/christmas".to_string(), format!("{}\n", C1_HASH).into_bytes()),
    ])
}

#[test]
fn one_commit_without_cookie_is_not_found() {
    let tar = one_commit_archive(b"Nothing to see here, please go away");
    let r = find_cookie(&tar, b"christmas");
    assert_eq!(r, Err(SearchError::CookieNotFound));
}

#[test]
fn one_commit_with_cookie_reports_author_and_hash() {
    let tar = one_commit_archive(b"COOKIE");
    let r = find_cookie(&tar, b"christmas").unwrap();
    assert_eq!(
        String::from_utf8(r).unwrap(),
        format!("Santa Claus {}", C1_HASH)
    );
}

#[test]
fn cookie_in_ancestor_reports_the_ancestor() {
    // C3 -> C2 -> C1, head = C3; only C1's tree has the cookie file.
    let cookie_blob = zlib(&blob_object(b"has a COOKIE inside"));
    let cookie_tree = zlib(&tree_object(&[("100644", "santa.txt", BLOB_HASH)]));
    let empty_tree = zlib(&tree_object(&[]));
    let c1 = zlib(&commit_object(TREE_HASH, None, SANTA_AUTHOR));
    let c2 = zlib(&commit_object(EMPTY_TREE_HASH, Some(C1_HASH), "author Elf <elf@example> 1 +0000"));
    let c3 = zlib(&commit_object(EMPTY_TREE_HASH, Some(C2_HASH), "author Elf <elf@example> 2 +0000"));
    let tar = tar_archive(&[
        (object_path(BLOB_HASH), cookie_blob),
        (object_path(TREE_HASH), cookie_tree),
        (object_path(EMPTY_TREE_HASH), empty_tree),
        (object_path(C1_HASH), c1),
        (object_path(C2_HASH), c2),
        (object_path(C3_HASH), c3),
        (".git/refs/heads/christmas".to_string(), format!("{}\n", C3_HASH).into_bytes()),
    ]);
    let r = find_cookie(&tar, b"christmas").unwrap();
    assert_eq!(
        String::from_utf8(r).unwrap(),
        format!("Santa Claus {}", C1_HASH)
    );
}

#[test]
fn when_head_and_ancestor_both_match_the_head_wins() {
    // C2 -> C1; both trees hold the cookie file. The walk starts at the
    // head, so the head commit is the answer.
    let blob = zlib(&blob_object(b"COOKIE"));
    let tree = zlib(&tree_object(&[("100644", "santa.txt", BLOB_HASH)]));
    let c1 = zlib(&commit_object(TREE_HASH, None, "author Elder <e@x> 1 +0000"));
    let c2 = zlib(&commit_object(TREE_HASH, Some(C1_HASH), "author Newer <n@x> 2 +0000"));
    let tar = tar_archive(&[
        (object_path(BLOB_HASH), blob),
        (object_path(TREE_HASH), tree),
        (object_path(C1_HASH), c1),
        (object_path(C2_HASH), c2),
        (".git/refs/heads/christmas".to_string(), format!("{}\n", C2_HASH).into_bytes()),
    ]);
    let r = find_cookie(&tar, b"christmas").unwrap();
    assert_eq!(String::from_utf8(r).unwrap(), format!("Newer {}", C2_HASH));
}

#[test]
fn truncated_tree_fails_with_eof() {
    // The tree record ends before the 20 hash bytes of its last entry.
    let mut tree_bytes = tree_object(&[("100644", "santa.txt", BLOB_HASH)]);
    tree_bytes.truncate(tree_bytes.len() - 10);
    let tree = zlib(&tree_bytes);
    let commit = zlib(&commit_object(TREE_HASH, None, SANTA_AUTHOR));
    let tar = tar_archive(&[
        (object_path(TREE_HASH), tree),
        (object_path(C1_HASH), commit),
        (".git/refs/heads/christmas".to_string(), format!("{}\n", C1_HASH).into_bytes()),
    ]);
    let r = find_cookie(&tar, b"christmas");
    assert_eq!(r, Err(SearchError::UnexpectedEof));
}

#[test]
fn empty_branch_ref_is_exhausted_not_a_crash() {
    let tar = tar_archive(&[
        (".git/refs/heads/christmas".to_string(), b"\n".to_vec()),
    ]);
    let r = find_cookie(&tar, b"christmas");
    assert_eq!(r, Err(SearchError::CookieNotFound));
}

#[test]
fn missing_ref_file_is_exhausted() {
    let tar = tar_archive(&[(object_path(BLOB_HASH), zlib(&blob_object(b"x")))]);
    let r = find_cookie(&tar, b"christmas");
    assert_eq!(r, Err(SearchError::CookieNotFound));
}

#[test]
fn find_is_idempotent_on_the_same_buffer() {
    let tar = one_commit_archive(b"COOKIE");
    let r1 = find_cookie(&tar, b"christmas");
    let r2 = find_cookie(&tar, b"christmas");
    assert_eq!(r1, r2);
    let tar2 = one_commit_archive(b"nothing");
    let r3 = find_cookie(&tar2, b"christmas");
    let r4 = find_cookie(&tar2, b"christmas");
    assert_eq!(r3, r4);
}

#[test]
fn shared_subtree_without_cookie_is_exhausted() {
    // Two commits share the same cookie-free subtree under different roots.
    let leaf = zlib(&blob_object(b"plain file"));
    let sub = zlib(&tree_object(&[("100644", "note.txt", BLOB_HASH)]));
    let root1 = zlib(&tree_object(&[("40000", "shared", SUB_HASH)]));
    let c1 = zlib(&commit_object(TREE_HASH, None, SANTA_AUTHOR));
    let c2 = zlib(&commit_object(TREE_HASH, Some(C1_HASH), "author Elf <e@x> 2 +0000"));
    let tar = tar_archive(&[
        (object_path(BLOB_HASH), leaf),
        (object_path(SUB_HASH), sub),
        (object_path(TREE_HASH), root1),
        (object_path(C1_HASH), c1),
        (object_path(C2_HASH), c2),
        (".git/refs/heads/christmas".to_string(), format!("{}\n", C2_HASH).into_bytes()),
    ]);
    let r = find_cookie(&tar, b"christmas");
    assert_eq!(r, Err(SearchError::CookieNotFound));
}

#[test]
fn cookie_in_nested_subtree_is_found() {
    let cookie_blob = zlib(&blob_object(b"a COOKIE, deep down"));
    let sub = zlib(&tree_object(&[("100644", "santa.txt", BLOB_HASH)]));
    let root = zlib(&tree_object(&[("40000", "nested", SUB_HASH)]));
    let c1 = zlib(&commit_object(TREE_HASH, None, SANTA_AUTHOR));
    let tar = tar_archive(&[
        (object_path(BLOB_HASH), cookie_blob),
        (object_path(SUB_HASH), sub),
        (object_path(TREE_HASH), root),
        (object_path(C1_HASH), c1),
        (".git/refs/heads/christmas".to_string(), format!("{}\n", C1_HASH).into_bytes()),
    ]);
    let r = find_cookie(&tar, b"christmas").unwrap();
    assert_eq!(String::from_utf8(r).unwrap(), format!("Santa Claus {}", C1_HASH));
}

#[test]
fn padded_target_name_is_trimmed_before_matching() {
    let blob = zlib(&blob_object(b"COOKIE"));
    let tree = zlib(&tree_object(&[("100644", " santa.txt ", BLOB_HASH)]));
    let commit = zlib(&commit_object(TREE_HASH, None, SANTA_AUTHOR));
    let tar = tar_archive(&[
        (object_path(BLOB_HASH), blob),
        (object_path(TREE_HASH), tree),
        (object_path(C1_HASH), commit),
        (".git/refs/heads/christmas".to_string(), format!("{}\n", C1_HASH).into_bytes()),
    ]);
    let r = find_cookie(&tar, b"christmas").unwrap();
    assert_eq!(String::from_utf8(r).unwrap(), format!("Santa Claus {}", C1_HASH));
}

#[test]
fn commit_pointing_at_missing_tree_is_object_not_found() {
    let commit = zlib(&commit_object(TREE_HASH, None, SANTA_AUTHOR));
    let tar = tar_archive(&[
        (object_path(C1_HASH), commit),
        (".git/refs/heads/christmas".to_string(), format!("{}\n", C1_HASH).into_bytes()),
    ]);
    let r = find_cookie(&tar, b"christmas");
    assert_eq!(r, Err(SearchError::ObjectNotFound));
}

#[test]
fn garbage_object_bytes_fail_decompression() {
    let commit = b"not compressed at all".to_vec();
    let tar = tar_archive(&[
        (object_path(C1_HASH), commit),
        (".git/refs/heads/christmas".to_string(), format!("{}\n", C1_HASH).into_bytes()),
    ]);
    let r = find_cookie(&tar, b"christmas");
    assert_eq!(r, Err(SearchError::DecompressionError));
}

#[test]
fn ref_pointing_at_non_commit_fails() {
    let blob = zlib(&blob_object(b"just a blob"));
    let tar = tar_archive(&[
        (object_path(C1_HASH), blob),
        (".git/refs/heads/christmas".to_string(), format!("{}\n", C1_HASH).into_bytes()),
    ]);
    let r = find_cookie(&tar, b"christmas");
    assert_eq!(r, Err(SearchError::NotACommit));
}

#[test]
fn tree_hash_pointing_at_non_tree_fails() {
    let not_tree = zlib(&blob_object(b"oops"));
    let commit = zlib(&commit_object(TREE_HASH, None, SANTA_AUTHOR));
    let tar = tar_archive(&[
        (object_path(TREE_HASH), not_tree),
        (object_path(C1_HASH), commit),
        (".git/refs/heads/christmas".to_string(), format!("{}\n", C1_HASH).into_bytes()),
    ]);
    let r = find_cookie(&tar, b"christmas");
    assert_eq!(r, Err(SearchError::NotATree));
}

#[test]
fn commit_without_tree_line_fails() {
    let text = "author Someone <s@x> 1 +0000\n";
    let mut o = format!("commit {}", text.len()).into_bytes();
    o.push(0);
    o.extend_from_slice(text.as_bytes());
    let tar = tar_archive(&[
        (object_path(C1_HASH), zlib(&o)),
        (".git/refs/heads/christmas".to_string(), format!("{}\n", C1_HASH).into_bytes()),
    ]);
    let r = find_cookie(&tar, b"christmas");
    assert_eq!(r, Err(SearchError::MissingTreeField));
}

#[test]
fn commit_without_author_line_fails() {
    let text = format!("tree {}\n", TREE_HASH);
    let mut o = format!("commit {}", text.len()).into_bytes();
    o.push(0);
    o.extend_from_slice(text.as_bytes());
    let tar = tar_archive(&[
        (object_path(C1_HASH), zlib(&o)),
        (".git/refs/heads/christmas".to_string(), format!("{}\n", C1_HASH).into_bytes()),
    ]);
    let r = find_cookie(&tar, b"christmas");
    assert_eq!(r, Err(SearchError::MissingAuthorField));
}

#[test]
fn tree_entry_without_space_is_malformed() {
    // One entry whose text has no space between mode and name.
    let mut body = Vec::new();
    body.extend_from_slice(b"100644santa.txt");
    body.push(0);
    body.extend_from_slice(&hex_decode(BLOB_HASH));
    let mut o = format!("tree {}", body.len()).into_bytes();
    o.push(0);
    o.extend_from_slice(&body);
    let commit = zlib(&commit_object(TREE_HASH, None, SANTA_AUTHOR));
    let tar = tar_archive(&[
        (object_path(TREE_HASH), zlib(&o)),
        (object_path(C1_HASH), commit),
        (".git/refs/heads/christmas".to_string(), format!("{}\n", C1_HASH).into_bytes()),
    ]);
    let r = find_cookie(&tar, b"christmas");
    assert_eq!(r, Err(SearchError::MalformedTreeEntry));
}

#[test]
fn short_loose_object_file_name_is_malformed_archive() {
    let tar = tar_archive(&[
        (".git/objects/ab/tooshort".to_string(), b"x".to_vec()),
        (".git/refs/heads/christmas".to_string(), format!("{}\n", C1_HASH).into_bytes()),
    ]);
    let r = find_cookie(&tar, b"christmas");
    assert_eq!(r, Err(SearchError::MalformedArchive));
}

#[test]
fn truncated_container_is_a_read_error() {
    let mut tar = one_commit_archive(b"COOKIE");
    tar.truncate(300);
    let r = find_cookie(&tar, b"christmas");
    assert_eq!(r, Err(SearchError::ArchiveReadError));
}

#[test]
fn parent_cycle_ends_as_exhausted() {
    // C1 and C2 point at each other; neither tree has the cookie.
    let empty_tree = zlib(&tree_object(&[]));
    let c1 = zlib(&commit_object(EMPTY_TREE_HASH, Some(C2_HASH), "author A <a@x> 1 +0000"));
    let c2 = zlib(&commit_object(EMPTY_TREE_HASH, Some(C1_HASH), "author B <b@x> 2 +0000"));
    let tar = tar_archive(&[
        (object_path(EMPTY_TREE_HASH), empty_tree),
        (object_path(C1_HASH), c1),
        (object_path(C2_HASH), c2),
        (".git/refs/heads/christmas".to_string(), format!("{}\n", C1_HASH).into_bytes()),
    ]);
    let r = find_cookie(&tar, b"christmas");
    assert_eq!(r, Err(SearchError::CookieNotFound));
}

#[test]
fn error_messages_are_descriptive() {
    assert_eq!(SearchError::CookieNotFound.message(), "cookie not found");
    assert_eq!(SearchError::NotACommit.message(), "not a commit entry");
}
