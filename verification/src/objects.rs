//! Parsing of inflated object bytes: commit records and tree records.
//!
//! A commit is its tag, a null byte, then text lines: the first `tree `,
//! `author ` and `parent ` lines carry its fields, and the author is the
//! text before the email's opening ` <`. A tree is its tag, a null byte,
//! then packed entries: `<decimal mode> <name>`, a null byte, and twenty
//! raw hash bytes, repeated until the record ends.

use vstd::prelude::*;
use vstd::slice::slice_subrange;
use crate::bytes::{find_from, lemma_find_from, find_byte, find_pair, find_pair_from, subvec,
    starts_with_spec, starts_with_bytes, split_lines_from, lines_from, first_with_prefix,
    find_line_value, spec_parse_u32, parse_u32_dec, spec_hex_of, hex_of_bytes};
use crate::errors::SearchError;
use crate::tokens::{commit_tag, tree_tag, author_prefix, parent_prefix, commit_tag_vec,
    tree_tag_vec, author_prefix_vec, parent_prefix_vec};

verus! {

/// The mathematical reading of a commit record.
pub struct CommitM {
    pub tree: Seq<u8>,
    pub author: Seq<u8>,
    pub parent: Option<Seq<u8>>,
}

/// A parsed commit: its tree hash, its author's display name, and its first
/// parent hash, if any.
#[derive(Debug)]
pub struct Commit {
    pub tree: Vec<u8>,
    pub author: Vec<u8>,
    pub parent: Option<Vec<u8>>,
}

impl View for Commit {
    type V = CommitM;

    open spec fn view(&self) -> CommitM {
        CommitM {
            tree: self.tree@,
            author: self.author@,
            parent: match self.parent {
                Some(p) => Some(p@),
                None => None,
            },
        }
    }
}

/// The author text before the email's opening ` <`, or the whole text when
/// no email follows.
pub open spec fn author_of(line: Seq<u8>) -> Seq<u8> {
    match find_pair_from(line, 32, 60, 0) {
        Some(j) => line.subrange(0, j),
        None => line,
    }
}

/// The reading of inflated bytes as a commit record: the tag and its null
/// terminator must be present, then the first `tree ` and `author ` lines
/// are required and the first `parent ` line, when present, is kept.
pub open spec fn spec_parse_commit(b: Seq<u8>) -> Result<CommitM, SearchError> {
    if !starts_with_spec(b, commit_tag()) {
        Err(SearchError::NotACommit)
    } else {
        match find_from(b, 0, 0) {
            None => Err(SearchError::UnexpectedEof),
            Some(p) => {
                let lines = split_lines_from(b, p + 1);
                match first_with_prefix(lines, tree_tag(), 0) {
                    None => Err(SearchError::MissingTreeField),
                    Some(t) => match first_with_prefix(lines, author_prefix(), 0) {
                        None => Err(SearchError::MissingAuthorField),
                        Some(araw) => Ok(
                            CommitM {
                                tree: t,
                                author: author_of(araw),
                                parent: first_with_prefix(lines, parent_prefix(), 0),
                            },
                        ),
                    },
                }
            },
        }
    }
}

/// Parses inflated object bytes as a commit record.
pub fn parse_commit(b: &[u8]) -> (r: Result<Commit, SearchError>)
    ensures
        match spec_parse_commit(b@) {
            Ok(cm) => r is Ok && r.unwrap()@ == cm,
            Err(e) => r == Err::<Commit, SearchError>(e),
        },
{
    let tag = commit_tag_vec();
    if !starts_with_bytes(b, tag.as_slice()) {
        return Err(SearchError::NotACommit);
    }
    let n = b.len();
    let p = match find_byte(b, 0, 0) {
        Some(p) => p,
        None => { return Err(SearchError::UnexpectedEof) },
    };
    proof {
        assert(p < n);
    }
    let lines = lines_from(b, p + 1);
    let treetag = tree_tag_vec();
    let tree = match find_line_value(&lines, treetag.as_slice()) {
        Some(t) => t,
        None => { return Err(SearchError::MissingTreeField) },
    };
    let authtag = author_prefix_vec();
    let araw = match find_line_value(&lines, authtag.as_slice()) {
        Some(a) => a,
        None => { return Err(SearchError::MissingAuthorField) },
    };
    let author = match find_pair(araw.as_slice(), 32, 60) {
        Some(j) => subvec(araw.as_slice(), 0, j),
        None => araw,
    };
    let partag = parent_prefix_vec();
    let parent = find_line_value(&lines, partag.as_slice());
    Ok(Commit { tree, author, parent })
}

/// The mathematical reading of one tree entry.
pub struct TreeEntryM {
    pub mode: u32,
    pub name: Seq<u8>,
    pub hash: Seq<u8>,
}

/// One tree entry: its mode, its name, and its object hash as 40 lowercase
/// hexadecimal characters.
#[derive(Debug)]
pub struct TreeEntry {
    pub mode: u32,
    pub name: Vec<u8>,
    pub hash: Vec<u8>,
}

impl View for TreeEntry {
    type V = TreeEntryM;

    open spec fn view(&self) -> TreeEntryM {
        TreeEntryM { mode: self.mode, name: self.name@, hash: self.hash@ }
    }
}

pub open spec fn entries_view(v: Seq<TreeEntry>) -> Seq<TreeEntryM> {
    v.map_values(|e: TreeEntry| e@)
}

/// The reading of one entry's text: the decimal mode before the first
/// space, the name after it.
pub open spec fn split_mode_name(t: Seq<u8>) -> Option<(u32, Seq<u8>)> {
    match find_from(t, 32, 0) {
        None => None,
        Some(s) => match spec_parse_u32(t.subrange(0, s)) {
            None => None,
            Some(mode) => Some((mode, t.subrange(s + 1, t.len() as int))),
        },
    }
}

/// The reading of a tree record's body from position `i` on: entries until
/// the record ends, each demanding its null terminator and its twenty hash
/// bytes.
pub open spec fn spec_parse_entries(b: Seq<u8>, i: int) -> Result<Seq<TreeEntryM>, SearchError>
    decreases b.len() - i,
{
    if !(0 <= i < b.len()) {
        Ok(Seq::empty())
    } else {
        match find_from(b, 0, i) {
            None => Err(SearchError::UnexpectedEof),
            Some(p) => {
                proof {
                    lemma_find_from(b, 0, i);
                }
                if b.len() < p + 21 {
                    Err(SearchError::UnexpectedEof)
                } else {
                    match split_mode_name(b.subrange(i, p)) {
                        None => Err(SearchError::MalformedTreeEntry),
                        Some(mn) => match spec_parse_entries(b, p + 21) {
                            Err(e) => Err(e),
                            Ok(rest) => Ok(
                                seq![
                                    TreeEntryM {
                                        mode: mn.0,
                                        name: mn.1,
                                        hash: spec_hex_of(b.subrange(p + 1, p + 21)),
                                    },
                                ] + rest,
                            ),
                        },
                    }
                }
            },
        }
    }
}

/// The reading of inflated bytes as a tree record: the tag and its null
/// terminator, then the packed entries.
pub open spec fn spec_parse_tree(b: Seq<u8>) -> Result<Seq<TreeEntryM>, SearchError> {
    if !starts_with_spec(b, tree_tag()) {
        Err(SearchError::NotATree)
    } else {
        match find_from(b, 0, 0) {
            None => Err(SearchError::UnexpectedEof),
            Some(p) => spec_parse_entries(b, p + 1),
        }
    }
}

/// Parses inflated object bytes as a tree record, in entry order.
#[verifier::loop_isolation(false)]
pub fn parse_git_tree(tree: &[u8]) -> (r: Result<Vec<TreeEntry>, SearchError>)
    ensures
        match spec_parse_tree(tree@) {
            Ok(es) => r is Ok && entries_view(r.unwrap()@) == es,
            Err(e) => r == Err::<Vec<TreeEntry>, SearchError>(e),
        },
{
    let tag = tree_tag_vec();
    if !starts_with_bytes(tree, tag.as_slice()) {
        return Err(SearchError::NotATree);
    }
    let hp = match find_byte(tree, 0, 0) {
        Some(p) => p,
        None => { return Err(SearchError::UnexpectedEof) },
    };
    let n = tree.len();
    let mut out: Vec<TreeEntry> = Vec::new();
    let mut cur = hp + 1;
    proof {
        assert(entries_view(out@) =~= Seq::<TreeEntryM>::empty());
    }
    while cur < n
        invariant
            cur <= n == tree@.len(),
            match spec_parse_entries(tree@, cur as int) {
                Ok(rest) => spec_parse_entries(tree@, hp + 1) == Ok::<
                    Seq<TreeEntryM>,
                    SearchError,
                >(entries_view(out@) + rest),
                Err(e) => spec_parse_entries(tree@, hp + 1) == Err::<
                    Seq<TreeEntryM>,
                    SearchError,
                >(e),
            },
        decreases n - cur,
    {
        let p = match find_byte(tree, 0, cur) {
            Some(p) => p,
            None => { return Err(SearchError::UnexpectedEof) },
        };
        if n - p < 21 {
            return Err(SearchError::UnexpectedEof);
        }
        let text = subvec(tree, cur, p);
        let s = match find_byte(text.as_slice(), 32, 0) {
            Some(s) => s,
            None => { return Err(SearchError::MalformedTreeEntry) },
        };
        let mode = match parse_u32_dec(slice_subrange(text.as_slice(), 0, s)) {
            Some(m) => m,
            None => { return Err(SearchError::MalformedTreeEntry) },
        };
        let name = subvec(text.as_slice(), s + 1, text.len());
        let hash = hex_of_bytes(slice_subrange(tree, p + 1, p + 21));
        let ghost prev = out@;
        let ghost em = TreeEntryM {
            mode,
            name: tree@.subrange(cur as int, p as int).subrange(s + 1, p - cur),
            hash: spec_hex_of(tree@.subrange(p + 1, p + 21)),
        };
        out.push(TreeEntry { mode, name, hash });
        proof {
            let e = out@[out@.len() - 1];
            assert(e@ == em);
            assert(entries_view(out@) =~= entries_view(prev) + seq![em]);
            match spec_parse_entries(tree@, p + 21) {
                Ok(rest2) => {
                    assert(entries_view(out@) + rest2 =~= entries_view(prev) + (seq![em] + rest2));
                },
                Err(_) => {},
            }
        }
        cur = p + 21;
    }
    proof {
        assert(entries_view(out@) + Seq::<TreeEntryM>::empty() =~= entries_view(out@));
    }
    Ok(out)
}

} // verus!
