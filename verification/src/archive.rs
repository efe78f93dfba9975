//! From a tar archive to an object store.
//!
//! The tar container itself is read by an outside crate; everything after
//! that — recognising loose-object paths, assembling their 40-character
//! keys, extracting the branch ref — is verified against the path model
//! below.

use vstd::prelude::*;
use crate::bytes::{find_from, lemma_find_from, find_byte, subvec, bytes_eq, append_bytes};
use crate::errors::SearchError;
use crate::store::ObjectStore;
use crate::tokens::{dot_git, objects_seg, ref_heads_prefix, dot_git_vec, objects_seg_vec,
    ref_heads_prefix_vec};

verus! {

/// One tar entry, as the container reader reports it: its raw path bytes,
/// the offset of its data in the archive, and the data's size.
pub struct TarEntry {
    pub path: Vec<u8>,
    pub offset: u64,
    pub size: u64,
}

/// The entry list of a well-formed tar archive: a function of the archive
/// bytes alone. Each element is a path, a data offset, and a data size.
pub uninterp spec fn tar_entry_list(data: Seq<u8>) -> Option<Seq<(Seq<u8>, u64, u64)>>;

/// Whether an entry vector carries exactly the listed paths, offsets and
/// sizes.
pub open spec fn entries_match(v: Seq<TarEntry>, l: Seq<(Seq<u8>, u64, u64)>) -> bool {
    v.len() == l.len() && forall|i: int|
        0 <= i < v.len() ==> (#[trigger] v[i]).path@ == l[i].0 && v[i].offset == l[i].1
            && v[i].size == l[i].2
}

/// Relies on `tar::Archive::entries` with `Entry::path_bytes`,
/// `Entry::raw_file_position` and `Entry::size`: iterating a tar archive
/// held in memory reports each entry's raw path bytes and the offset and
/// size of its data, from the archive bytes alone; iteration fails on a
/// malformed container.
#[verifier::external_body]
pub(crate) fn read_tar_entries(data: &[u8]) -> (r: Option<Vec<TarEntry>>)
    ensures
        r is Some <==> tar_entry_list(data@) is Some,
        r is Some ==> entries_match(r.unwrap()@, tar_entry_list(data@).unwrap()),
{
    let mut archive = tar::Archive::new(data);
    let entries = match archive.entries() {
        Ok(e) => e,
        Err(_) => return None,
    };
    let mut out: Vec<TarEntry> = Vec::new();
    for e in entries {
        let ent = match e {
            Ok(ent) => ent,
            Err(_) => return None,
        };
        let path = ent.path_bytes().to_vec();
        out.push(TarEntry { path, offset: ent.raw_file_position(), size: ent.size() });
    }
    Some(out)
}

/// The non-empty segments of a path from position `i` on, split at slashes.
pub open spec fn seg_split_from(p: Seq<u8>, i: int) -> Seq<Seq<u8>>
    decreases p.len() - i,
{
    if !(0 <= i < p.len()) {
        Seq::empty()
    } else {
        match find_from(p, 47, i) {
            None => seq![p.subrange(i, p.len() as int)],
            Some(j) => {
                proof {
                    lemma_find_from(p, 47, i);
                }
                if j == i {
                    seg_split_from(p, i + 1)
                } else {
                    seq![p.subrange(i, j)] + seg_split_from(p, j + 1)
                }
            },
        }
    }
}

/// Splits a path into its non-empty segments.
#[verifier::loop_isolation(false)]
pub fn segs_of(p: &[u8]) -> (r: Vec<Vec<u8>>)
    ensures
        r.deep_view() == seg_split_from(p@, 0),
{
    let n = p.len();
    let mut acc: Vec<Vec<u8>> = Vec::new();
    let mut cur: usize = 0;
    while cur < n
        invariant
            cur <= n == p@.len(),
            acc.deep_view() + seg_split_from(p@, cur as int) == seg_split_from(p@, 0),
        decreases n - cur,
    {
        let ghost prev = acc.deep_view();
        match find_byte(p, 47, cur) {
            Some(j) => {
                if j > cur {
                    let seg = subvec(p, cur, j);
                    acc.push(seg);
                    proof {
                        assert(acc.deep_view() =~~= prev + seq![p@.subrange(cur as int, j as int)]);
                    }
                }
                cur = j + 1;
            },
            None => {
                let seg = subvec(p, cur, n);
                acc.push(seg);
                proof {
                    assert(acc.deep_view() =~~= prev + seq![p@.subrange(cur as int, n as int)]);
                }
                cur = n;
            },
        }
    }
    proof {
        assert(acc.deep_view() =~= acc.deep_view() + seg_split_from(p@, cur as int));
    }
    acc
}

/// Whether `p` names a file below the `.git/objects` directory: its first
/// two segments are `.git` and `objects`, a third segment exists, and the
/// path does not end in a slash (a directory marker).
pub open spec fn is_under_objects(p: Seq<u8>) -> bool {
    let s = seg_split_from(p, 0);
    s.len() >= 3 && s[0] == dot_git() && s[1] == objects_seg() && p.len() > 0 && p.last() != 47
}

/// The 40-character store key of a loose-object path: the fan-out directory
/// name followed by the file name.
pub open spec fn object_key_of(p: Seq<u8>) -> Seq<u8> {
    let s = seg_split_from(p, 0);
    s[s.len() - 2] + s[s.len() - 1]
}

/// The full path of the branch ref for `branch`.
pub open spec fn ref_path(branch: Seq<u8>) -> Seq<u8> {
    ref_heads_prefix() + branch
}

/// The ref content with one trailing newline removed, if present.
pub open spec fn trim_ref(s: Seq<u8>) -> Seq<u8> {
    if s.len() > 0 && s.last() == 10 {
        s.drop_last()
    } else {
        s
    }
}

/// The outcome of scanning the tar entries from index `i` on, with the
/// ranges recorded so far in `m` and the branch ref text seen so far in `r`:
/// each loose object's byte range is recorded under its key, the branch
/// ref's trimmed content is kept, a file under the object directory without
/// the loose-object shape is malformed, and a range past the end of the
/// buffer is a read error.
pub open spec fn spec_build(
    entries: Seq<(Seq<u8>, u64, u64)>,
    buf: Seq<u8>,
    branch: Seq<u8>,
    i: int,
    m: Map<Seq<u8>, (int, int)>,
    r: Seq<u8>,
) -> Result<(Map<Seq<u8>, (int, int)>, Seq<u8>), SearchError>
    decreases entries.len() - i,
{
    if !(0 <= i < entries.len()) {
        Ok((m, r))
    } else {
        let p = entries[i].0;
        let off = entries[i].1 as int;
        let sz = entries[i].2 as int;
        if is_under_objects(p) {
            let s = seg_split_from(p, 0);
            if s.last().len() == 38 {
                if off + sz <= buf.len() {
                    spec_build(
                        entries,
                        buf,
                        branch,
                        i + 1,
                        m.insert(object_key_of(p), (off, off + sz)),
                        r,
                    )
                } else {
                    Err(SearchError::ArchiveReadError)
                }
            } else {
                Err(SearchError::MalformedArchive)
            }
        } else if p == ref_path(branch) {
            if off + sz <= buf.len() {
                spec_build(entries, buf, branch, i + 1, m, trim_ref(buf.subrange(off, off + sz)))
            } else {
                Err(SearchError::ArchiveReadError)
            }
        } else {
            spec_build(entries, buf, branch, i + 1, m, r)
        }
    }
}

/// The store map that the scan produces has a finite domain.
pub proof fn lemma_spec_build_finite(
    entries: Seq<(Seq<u8>, u64, u64)>,
    buf: Seq<u8>,
    branch: Seq<u8>,
    i: int,
    m: Map<Seq<u8>, (int, int)>,
    r: Seq<u8>,
)
    requires
        m.dom().finite(),
    ensures
        match spec_build(entries, buf, branch, i, m, r) {
            Ok(sr) => sr.0.dom().finite(),
            Err(_) => true,
        },
    decreases entries.len() - i,
{
    if 0 <= i < entries.len() {
        let p = entries[i].0;
        let off = entries[i].1 as int;
        let sz = entries[i].2 as int;
        if is_under_objects(p) {
            if seg_split_from(p, 0).last().len() == 38 && off + sz <= buf.len() {
                lemma_spec_build_finite(
                    entries,
                    buf,
                    branch,
                    i + 1,
                    m.insert(object_key_of(p), (off, off + sz)),
                    r,
                );
            }
        } else if p == ref_path(branch) {
            if off + sz <= buf.len() {
                lemma_spec_build_finite(
                    entries,
                    buf,
                    branch,
                    i + 1,
                    m,
                    trim_ref(buf.subrange(off, off + sz)),
                );
            }
        } else {
            lemma_spec_build_finite(entries, buf, branch, i + 1, m, r);
        }
    }
}

/// Scans the tar entries and builds the object store and the branch ref.
#[verifier::loop_isolation(false)]
pub fn build_object_store(buf: &[u8], entries: &Vec<TarEntry>, branch: &[u8]) -> (r: Result<
    (ObjectStore, Vec<u8>),
    SearchError,
>)
    ensures
        match spec_build(
            entries@.map_values(|e: TarEntry| (e.path@, e.offset, e.size)),
            buf@,
            branch@,
            0,
            Map::empty(),
            Seq::empty(),
        ) {
            Ok(res) => r is Ok && r.unwrap().0@ == res.0 && r.unwrap().1@ == res.1 && r.unwrap().0.bounded(
                buf@.len() as int,
            ),
            Err(e) => r == Err::<(ObjectStore, Vec<u8>), SearchError>(e),
        },
{
    let ghost ev = entries@.map_values(|e: TarEntry| (e.path@, e.offset, e.size));
    let dotgit = dot_git_vec();
    let objects = objects_seg_vec();
    let mut refpath = ref_heads_prefix_vec();
    append_bytes(&mut refpath, branch);
    proof {
        assert(refpath@ == ref_path(branch@));
    }
    let n = entries.len();
    let mut store = ObjectStore::new();
    let mut refv: Vec<u8> = Vec::new();
    let mut i: usize = 0;
    while i < n
        invariant
            i <= n == entries@.len(),
            ev == entries@.map_values(|e: TarEntry| (e.path@, e.offset, e.size)),
            refpath@ == ref_path(branch@),
            dotgit@ == dot_git(),
            objects@ == objects_seg(),
            store.bounded(buf@.len() as int),
            spec_build(ev, buf@, branch@, i as int, store@, refv@) == spec_build(
                ev,
                buf@,
                branch@,
                0,
                Map::empty(),
                Seq::empty(),
            ),
        decreases n - i,
    {
        let entry = &entries[i];
        proof {
            assert(ev[i as int] == (entry.path@, entry.offset, entry.size));
        }
        let segs = segs_of(entry.path.as_slice());
        let m = segs.len();
        let under_objects = m >= 3 && bytes_eq(segs[0].as_slice(), dotgit.as_slice()) && bytes_eq(
            segs[1].as_slice(),
            objects.as_slice(),
        ) && entry.path.len() > 0 && entry.path[entry.path.len() - 1] != 47;
        proof {
            if m >= 2 {
                assert(segs.deep_view()[0] =~~= segs@[0]@);
                assert(segs.deep_view()[1] =~~= segs@[1]@);
            }
            assert(under_objects == is_under_objects(entry.path@));
        }
        if under_objects {
            proof {
                assert(segs.deep_view()[m - 1] =~~= segs@[m - 1]@);
                assert(segs.deep_view()[m - 2] =~~= segs@[m - 2]@);
            }
            if segs[m - 1].len() != 38 {
                return Err(SearchError::MalformedArchive);
            }
            let off = entry.offset;
            let sz = entry.size;
            if (off as u128) + (sz as u128) > (buf.len() as u128) {
                return Err(SearchError::ArchiveReadError);
            }
            let start = off as usize;
            let end = ((off as u128) + (sz as u128)) as usize;
            let mut key = subvec(segs[m - 2].as_slice(), 0, segs[m - 2].len());
            append_bytes(&mut key, segs[m - 1].as_slice());
            proof {
                assert(key@ == object_key_of(entry.path@));
            }
            store.insert(key, start, end);
        } else {
            if bytes_eq(entry.path.as_slice(), refpath.as_slice()) {
                let off = entry.offset;
                let sz = entry.size;
                if (off as u128) + (sz as u128) > (buf.len() as u128) {
                    return Err(SearchError::ArchiveReadError);
                }
                let start = off as usize;
                let end = ((off as u128) + (sz as u128)) as usize;
                let content = subvec(buf, start, end);
                let stripped = if content.len() > 0 && content[content.len() - 1] == 10 {
                    subvec(buf, start, end - 1)
                } else {
                    content
                };
                proof {
                    if buf@.subrange(start as int, end as int).len() > 0 && buf@.subrange(
                        start as int,
                        end as int,
                    ).last() == 10 {
                        assert(buf@.subrange(start as int, end as int).drop_last() =~= buf@.subrange(
                            start as int,
                            end as int - 1,
                        ));
                    }
                    assert(stripped@ == trim_ref(buf@.subrange(start as int, end as int)));
                }
                refv = stripped;
            }
        }
        i = i + 1;
    }
    Ok((store, refv))
}

} // verus!
