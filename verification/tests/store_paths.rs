//! Tests of loose-object key assembly, store shadowing, and the
//! visited-hash set.

use cookie_hunt::errors::SearchError;
use cookie_hunt::store::FoundSet;
use cookie_hunt::walk::find_cookie;

fn zlibc(data: &[u8]) -> Vec<u8> {
    let mut enc = flate2::write::ZlibEncoder::new(Vec::new(), flate2::Compression::default());
    std::io::Write::write_all(&mut enc, data).unwrap();
    enc.finish().unwrap()
}

fn commit_obj(tree: &str, author_line: &str) -> Vec<u8> {
    let text = format!("tree {}\n{}\n", tree, author_line);
    let mut o = format!("commit {}", text.len()).into_bytes();
    o.push(0);
    o.extend_from_slice(text.as_bytes());
    o
}

fn tree_obj_one(mode: &str, name: &str, hash20: &[u8; 20]) -> Vec<u8> {
    let mut body = Vec::new();
    body.extend_from_slice(mode.as_bytes());
    body.push(b' ');
    body.extend_from_slice(name.as_bytes());
    body.push(0);
    body.extend_from_slice(hash20);
    let mut o = format!("tree {}", body.len()).into_bytes();
    o.push(0);
    o.extend_from_slice(&body);
    o
}

fn archive_of(entries: &[(String, Vec<u8>)]) -> Vec<u8> {
    let mut builder = tar::Builder::new(Vec::new());
    for (path, data) in entries {
        let mut header = tar::Header::new_gnu();
        header.set_size(data.len() as u64);
        header.set_mode(0o644);
        header.set_cksum();
        builder.append_data(&mut header, path, data.as_slice()).unwrap();
    }
    builder.into_inner().unwrap()
}

const COMMIT_HASH: &str = "1212121212121212121212121212121212121212";
const TREE_HEX: &str = "abababababababababababababababababababab";
const BLOB_HEX: &str = "cdcdcdcdcdcdcdcdcdcdcdcdcdcdcdcdcdcdcdcd";

#[test]
fn key_joins_fanout_directory_and_file_name() {
    // The key of a loose object is its parent directory name followed by
    // its 38-character file name, wherever the pair sits below the object
    // directory.
    let tree = zlibc(&tree_obj_one("100644", "santa.txt", &[0xcd; 20]));
    let blob = zlibc(b"blob 8\0a COOKIE");
    let commit = zlibc(&commit_obj(TREE_HEX, "author Key Smith <k@x> 3 +0000"));
    let tar = archive_of(&[
        (format!(".git/objects/nested/{}/{}", &TREE_HEX[..2], &TREE_HEX[2..]), tree),
        (format!(".git/objects/{}/{}", &BLOB_HEX[..2], &BLOB_HEX[2..]), blob),
        (format!(".git/objects/{}/{}", &COMMIT_HASH[..2], &COMMIT_HASH[2..]), commit),
        (".git/refs/heads/christmas".to_string(), format!("{}\n", COMMIT_HASH).into_bytes()),
    ]);
    let r = find_cookie(&tar, b"christmas").unwrap();
    assert_eq!(String::from_utf8(r).unwrap(), format!("Key Smith {}", COMMIT_HASH));
}

#[test]
fn later_entry_for_the_same_path_shadows_the_earlier() {
    let garbage = b"not a zlib stream".to_vec();
    let commit = zlibc(&commit_obj(TREE_HEX, "author Late Entry <l@x> 4 +0000"));
    let tree = zlibc(&tree_obj_one("100644", "santa.txt", &[0xcd; 20]));
    let blob = zlibc(b"blob 6\0COOKIE");
    let commit_path = format!(".git/objects/{}/{}", &COMMIT_HASH[..2], &COMMIT_HASH[2..]);
    let tar = archive_of(&[
        (commit_path.clone(), garbage),
        (commit_path, commit),
        (format!(".git/objects/{}/{}", &TREE_HEX[..2], &TREE_HEX[2..]), tree),
        (format!(".git/objects/{}/{}", &BLOB_HEX[..2], &BLOB_HEX[2..]), blob),
        (".git/refs/heads/christmas".to_string(), format!("{}\n", COMMIT_HASH).into_bytes()),
    ]);
    let r = find_cookie(&tar, b"christmas").unwrap();
    assert_eq!(String::from_utf8(r).unwrap(), format!("Late Entry {}", COMMIT_HASH));
}

#[test]
fn ref_without_trailing_newline_is_honoured() {
    let tree = zlibc(&tree_obj_one("100644", "santa.txt", &[0xcd; 20]));
    let blob = zlibc(b"blob 6\0COOKIE");
    let commit = zlibc(&commit_obj(TREE_HEX, "author No Newline <n@x> 5 +0000"));
    let tar = archive_of(&[
        (format!(".git/objects/{}/{}", &TREE_HEX[..2], &TREE_HEX[2..]), tree),
        (format!(".git/objects/{}/{}", &BLOB_HEX[..2], &BLOB_HEX[2..]), blob),
        (format!(".git/objects/{}/{}", &COMMIT_HASH[..2], &COMMIT_HASH[2..]), commit),
        (".git/refs/heads/christmas".to_string(), COMMIT_HASH.as_bytes().to_vec()),
    ]);
    let r = find_cookie(&tar, b"christmas").unwrap();
    assert_eq!(String::from_utf8(r).unwrap(), format!("No Newline {}", COMMIT_HASH));
}

#[test]
fn other_branch_names_are_ignored() {
    let commit = zlibc(&commit_obj(TREE_HEX, "author Other <o@x> 6 +0000"));
    let tar = archive_of(&[
        (format!(".git/objects/{}/{}", &COMMIT_HASH[..2], &COMMIT_HASH[2..]), commit),
        (".git/refs/heads/main".to_string(), format!("{}\n", COMMIT_HASH).into_bytes()),
    ]);
    let r = find_cookie(&tar, b"christmas");
    assert_eq!(r, Err(SearchError::CookieNotFound));
}

#[test]
fn found_set_records_and_reports_members() {
    let mut s = FoundSet::new();
    assert!(!s.contains(b"abc"));
    assert!(s.insert(b"abc".to_vec()));
    assert!(!s.insert(b"abc".to_vec()));
    assert!(s.contains(b"abc"));
    let mut t = FoundSet::new();
    assert!(t.insert(b"xyz".to_vec()));
    t.extend_from(&s);
    assert!(t.contains(b"abc"));
    assert!(t.contains(b"xyz"));
    assert!(!t.contains(b"nope"));
}
