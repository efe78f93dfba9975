//! The history walker: from the branch ref along first-parent links until a
//! commit's tree holds the target, the history ends, or a structural fault
//! stops the walk.
//!
//! The walk keeps two sets: the hashes proven empty by earlier tree
//! searches, folded forward so no subtree is read twice across commits, and
//! the commit hashes already walked, so a cycle among parent links ends the
//! walk as exhausted instead of running forever. The whole pipeline is
//! pinned to the interpreter `spec_find` below.

use vstd::prelude::*;
use vstd::slice::slice_subrange;
use crate::archive::{tar_entry_list, read_tar_entries, spec_build, build_object_store, TarEntry};
use crate::bytes::{subvec, append_bytes};
use crate::errors::SearchError;
use crate::inflate::{inflate_of, uncompress_obj};
use crate::objects::{spec_parse_commit, parse_commit, spec_parse_tree};
use crate::search::{SearchRes, spec_search, spec_search_entries, find_file_with_cookie, entry_hits, lemma_scan_finds_match};
use crate::store::{ObjectStore, FoundSet};

verus! {

/// The walk from commit `h`: parse the commit, search its tree, and either
/// report its author with its own hash, step to its first parent with the
/// returned set folded into `g`, or end as exhausted when the commit is
/// missing, already walked, or without a parent.
pub open spec fn spec_walk(
    buf: Seq<u8>,
    store: Map<Seq<u8>, (int, int)>,
    h: Seq<u8>,
    g: Set<Seq<u8>>,
    walked: Set<Seq<u8>>,
) -> Result<Seq<u8>, SearchError>
    decreases store.dom().difference(walked).len(),
        when store.dom().finite()
{
    if !store.dom().contains(h) {
        Err(SearchError::CookieNotFound)
    } else if walked.contains(h) {
        Err(SearchError::CookieNotFound)
    } else {
        match inflate_of(buf.subrange(store[h].0, store[h].1)) {
            None => Err(SearchError::DecompressionError),
            Some(cb) => match spec_parse_commit(cb) {
                Err(e) => Err(e),
                Ok(cm) => match spec_search(buf, store, cm.tree, g, Set::empty()) {
                    SearchRes::Fail(e) => Err(e),
                    SearchRes::Found => Ok(cm.author + seq![32u8] + h),
                    SearchRes::NotFound(v) => match cm.parent {
                        None => Err(SearchError::CookieNotFound),
                        Some(ph) => {
                            proof {
                                store.dom().lemma_set_insert_diff_decreases(walked, h);
                            }
                            spec_walk(buf, store, ph, g.union(v), walked.insert(h))
                        },
                    },
                },
            },
        }
    }
}

/// The store and branch ref that an archive yields: the tar entry list,
/// when the container is well formed, scanned into the object store.
pub open spec fn built_of(data: Seq<u8>, branch: Seq<u8>) -> Result<
    (Map<Seq<u8>, (int, int)>, Seq<u8>),
    SearchError,
> {
    match tar_entry_list(data) {
        None => Err(SearchError::ArchiveReadError),
        Some(es) => spec_build(es, data, branch, 0, Map::empty(), Seq::empty()),
    }
}

/// The whole search over an archive: list the tar entries, build the store
/// and the branch ref, and walk the history from the ref.
pub open spec fn spec_find(data: Seq<u8>, branch: Seq<u8>) -> Result<Seq<u8>, SearchError> {
    match built_of(data, branch) {
        Err(e) => Err(e),
        Ok(sr) => spec_walk(data, sr.0, sr.1, Set::empty(), Set::empty()),
    }
}

/// Searches the archive `tar_data` for the first commit along first-parent
/// history from the branch ref whose tree holds `santa.txt` with the token
/// `COOKIE`, and reports `<author> <commit hash>` as one line of bytes.
#[verifier::loop_isolation(false)]
pub fn find_cookie(tar_data: &[u8], branch: &[u8]) -> (r: Result<Vec<u8>, SearchError>)
    ensures
        match spec_find(tar_data@, branch@) {
            Ok(line) => r is Ok && r.unwrap()@ == line,
            Err(e) => r == Err::<Vec<u8>, SearchError>(e),
        },
{
    let entries = match read_tar_entries(tar_data) {
        Some(es) => es,
        None => { return Err(SearchError::ArchiveReadError) },
    };
    proof {
        let l = tar_entry_list(tar_data@).unwrap();
        assert(entries@.map_values(|e: TarEntry| (e.path@, e.offset, e.size)) =~= l);
    }
    let (store, refv) = match build_object_store(tar_data, &entries, branch) {
        Ok(p) => p,
        Err(e) => { return Err(e) },
    };
    proof {
        store.lemma_dom_finite();
    }
    let mut found = FoundSet::new();
    let mut walked = FoundSet::new();
    let mut cur = refv;
    loop
        invariant
            store.bounded(tar_data@.len() as int),
            store@.dom().finite(),
            spec_walk(tar_data@, store@, cur@, found@, walked@) == spec_find(
                tar_data@,
                branch@,
            ),
        decreases store@.dom().difference(walked@).len(),
    {
        let span = match store.get(cur.as_slice()) {
            Some(s) => s,
            None => { return Err(SearchError::CookieNotFound) },
        };
        if walked.contains(cur.as_slice()) {
            return Err(SearchError::CookieNotFound);
        }
        proof {
            store.lemma_bounded_map(tar_data@.len() as int);
        }
        let raw = slice_subrange(tar_data, span.0, span.1);
        let cb = match uncompress_obj(raw) {
            Some(c) => c,
            None => { return Err(SearchError::DecompressionError) },
        };
        let commit = match parse_commit(cb.as_slice()) {
            Ok(c) => c,
            Err(e) => { return Err(e) },
        };
        match find_file_with_cookie(tar_data, &store, &commit.tree, &found) {
            Err(e) => { return Err(e) },
            Ok(Ok(())) => {
                let mut line = commit.author;
                line.push(32u8);
                append_bytes(&mut line, cur.as_slice());
                proof {
                    let cm = spec_parse_commit(cb@).unwrap();
                    assert(line@ =~= cm.author + seq![32u8] + cur@);
                }
                return Ok(line);
            },
            Ok(Err(vset)) => {
                found.extend_from(&vset);
                let ghost old_walked = walked@;
                let ccopy = subvec(cur.as_slice(), 0, cur.len());
                proof {
                    assert(ccopy@ =~= cur@);
                }
                let _ = walked.insert(ccopy);
                proof {
                    store@.dom().lemma_set_insert_diff_decreases(old_walked, cur@);
                }
                match commit.parent {
                    None => { return Err(SearchError::CookieNotFound) },
                    Some(p) => {
                        cur = p;
                    },
                }
            },
        }
    }
}

/// The search is a function of the archive bytes and the branch name alone:
/// two runs over the same buffer see the same outcome.
pub proof fn lemma_find_idempotent(
    data: Seq<u8>,
    branch: Seq<u8>,
    r1: Result<Seq<u8>, SearchError>,
    r2: Result<Seq<u8>, SearchError>,
)
    requires
        r1 == spec_find(data, branch),
        r2 == spec_find(data, branch),
    ensures
        r1 == r2,
{
}

/// A branch ref that names no stored object — an empty ref included — ends
/// the walk as exhausted, not as a structural fault.
pub proof fn lemma_walk_absent_ref(
    buf: Seq<u8>,
    store: Map<Seq<u8>, (int, int)>,
    h: Seq<u8>,
    g: Set<Seq<u8>>,
    walked: Set<Seq<u8>>,
)
    requires
        store.dom().finite(),
        !store.dom().contains(h),
    ensures
        spec_walk(buf, store, h, g, walked) == Err::<Seq<u8>, SearchError>(
            SearchError::CookieNotFound,
        ),
{
}

/// The commit bytes stored under `h`, if the hash is stored and inflates.
pub open spec fn commit_bytes_at(buf: Seq<u8>, store: Map<Seq<u8>, (int, int)>, h: Seq<u8>)
    -> Option<Seq<u8>> {
    if store.dom().contains(h) {
        inflate_of(buf.subrange(store[h].0, store[h].1))
    } else {
        None
    }
}

/// A commit whose tree search reports the find ends the walk at that
/// commit, with that commit's author and its own hash — not a tree hash,
/// and not an ancestor's.
pub proof fn lemma_walk_stops_at_find(
    buf: Seq<u8>,
    store: Map<Seq<u8>, (int, int)>,
    h: Seq<u8>,
    g: Set<Seq<u8>>,
    walked: Set<Seq<u8>>,
)
    requires
        store.dom().finite(),
        !walked.contains(h),
        commit_bytes_at(buf, store, h) is Some,
        spec_parse_commit(commit_bytes_at(buf, store, h).unwrap()) is Ok,
        spec_search(
            buf,
            store,
            spec_parse_commit(commit_bytes_at(buf, store, h).unwrap()).unwrap().tree,
            g,
            Set::empty(),
        ) is Found,
    ensures
        spec_walk(buf, store, h, g, walked) == Ok::<Seq<u8>, SearchError>(
            spec_parse_commit(commit_bytes_at(buf, store, h).unwrap()).unwrap().author + seq![
                32u8,
            ] + h,
        ),
{
}

/// When the head commit's tree itself holds an entry named for the target
/// whose blob carries the token — and no structural fault stops the scan
/// earlier — the walk ends at that commit on the first step, reporting its
/// author and its own hash.
pub proof fn lemma_find_in_head_tree(
    buf: Seq<u8>,
    store: Map<Seq<u8>, (int, int)>,
    h: Seq<u8>,
    g: Set<Seq<u8>>,
    walked: Set<Seq<u8>>,
    j: int,
)
    requires
        store.dom().finite(),
        !walked.contains(h),
        commit_bytes_at(buf, store, h) is Some,
        spec_parse_commit(commit_bytes_at(buf, store, h).unwrap()) is Ok,
        ({
            let cm = spec_parse_commit(commit_bytes_at(buf, store, h).unwrap()).unwrap();
            &&& commit_bytes_at(buf, store, cm.tree) is Some
            &&& spec_parse_tree(commit_bytes_at(buf, store, cm.tree).unwrap()) is Ok
            &&& 0 <= j < spec_parse_tree(
                commit_bytes_at(buf, store, cm.tree).unwrap(),
            ).unwrap().len()
            &&& entry_hits(
                buf,
                store,
                spec_parse_tree(commit_bytes_at(buf, store, cm.tree).unwrap()).unwrap(),
                j,
            )
            &&& !(spec_search(buf, store, cm.tree, g, Set::empty()) is Fail)
        }),
    ensures
        spec_walk(buf, store, h, g, walked) == Ok::<Seq<u8>, SearchError>(
            spec_parse_commit(commit_bytes_at(buf, store, h).unwrap()).unwrap().author + seq![
                32u8,
            ] + h,
        ),
{
    let cm = spec_parse_commit(commit_bytes_at(buf, store, h).unwrap()).unwrap();
    let tb = commit_bytes_at(buf, store, cm.tree).unwrap();
    let entries = spec_parse_tree(tb).unwrap();
    lemma_scan_finds_match(buf, store, entries, 0, j, g, Set::empty());
    assert(spec_search(buf, store, cm.tree, g, Set::empty()) == spec_search_entries(
        buf,
        store,
        entries,
        0,
        g,
        Set::empty(),
    ));
    lemma_walk_stops_at_find(buf, store, h, g, walked);
}

/// The conditions along a first-parent chain `hs` with found-set states
/// `gs`, walked from a state whose walked set is `w0`: the hashes are
/// distinct and unwalked, and every commit before the last parses, reports
/// no find for its tree, links to the next hash, and folds its scanned
/// hashes into the next found set.
pub open spec fn chain_steps(
    buf: Seq<u8>,
    store: Map<Seq<u8>, (int, int)>,
    hs: Seq<Seq<u8>>,
    gs: Seq<Set<Seq<u8>>>,
    w0: Set<Seq<u8>>,
) -> bool {
    &&& hs.len() >= 1
    &&& gs.len() == hs.len()
    &&& (forall|i: int, j: int| 0 <= i < j < hs.len() ==> hs[i] != hs[j])
    &&& (forall|i: int| 0 <= i < hs.len() ==> !w0.contains(#[trigger] hs[i]))
    &&& (forall|i: int|
        0 <= i < hs.len() - 1 ==> {
            &&& commit_bytes_at(buf, store, #[trigger] hs[i]) is Some
            &&& spec_parse_commit(commit_bytes_at(buf, store, hs[i]).unwrap()) is Ok
            &&& ({
                let cm = spec_parse_commit(commit_bytes_at(buf, store, hs[i]).unwrap()).unwrap();
                &&& cm.parent == Some(hs[i + 1])
                &&& match spec_search(buf, store, cm.tree, gs[i], Set::empty()) {
                    SearchRes::NotFound(v) => gs[i + 1] == gs[i].union(v),
                    _ => false,
                }
            })
        })
}

/// Along a first-parent chain whose commits before the last all report no
/// find and whose last commit's tree search reports the find, the walk
/// started at the chain's head answers with the last commit's author and
/// hash: every commit nearer the head is consulted first, and an ancestor
/// is reported only when every nearer commit reported none.
pub proof fn lemma_walk_follows_chain(
    buf: Seq<u8>,
    store: Map<Seq<u8>, (int, int)>,
    hs: Seq<Seq<u8>>,
    gs: Seq<Set<Seq<u8>>>,
    w0: Set<Seq<u8>>,
)
    requires
        store.dom().finite(),
        chain_steps(buf, store, hs, gs, w0),
        commit_bytes_at(buf, store, hs[hs.len() - 1]) is Some,
        spec_parse_commit(commit_bytes_at(buf, store, hs[hs.len() - 1]).unwrap()) is Ok,
        spec_search(
            buf,
            store,
            spec_parse_commit(
                commit_bytes_at(buf, store, hs[hs.len() - 1]).unwrap(),
            ).unwrap().tree,
            gs[hs.len() - 1],
            Set::empty(),
        ) is Found,
    ensures
        spec_walk(buf, store, hs[0], gs[0], w0) == Ok::<Seq<u8>, SearchError>(
            spec_parse_commit(
                commit_bytes_at(buf, store, hs[hs.len() - 1]).unwrap(),
            ).unwrap().author + seq![32u8] + hs[hs.len() - 1],
        ),
    decreases hs.len(),
{
    if hs.len() == 1 {
        lemma_walk_stops_at_find(buf, store, hs[0], gs[0], w0);
    } else {
        assert(commit_bytes_at(buf, store, hs[0]) is Some);
        lemma_walk_steps_past(buf, store, hs[0], gs[0], w0);
        let hs2 = hs.drop_first();
        let gs2 = gs.drop_first();
        let w02 = w0.insert(hs[0]);
        assert forall|i: int| 0 <= i < hs2.len() implies !w02.contains(#[trigger] hs2[i]) by {
            assert(hs2[i] == hs[i + 1]);
        }
        assert forall|i: int| 0 <= i < hs2.len() - 1 implies {
            &&& commit_bytes_at(buf, store, #[trigger] hs2[i]) is Some
            &&& spec_parse_commit(commit_bytes_at(buf, store, hs2[i]).unwrap()) is Ok
            &&& ({
                let cm = spec_parse_commit(commit_bytes_at(buf, store, hs2[i]).unwrap()).unwrap();
                &&& cm.parent == Some(hs2[i + 1])
                &&& match spec_search(buf, store, cm.tree, gs2[i], Set::empty()) {
                    SearchRes::NotFound(v) => gs2[i + 1] == gs2[i].union(v),
                    _ => false,
                }
            })
        } by {
            assert(hs2[i] == hs[i + 1]);
            assert(hs2[i + 1] == hs[i + 2]);
            assert(gs2[i] == gs[i + 1]);
            assert(gs2[i + 1] == gs[i + 2]);
        }
        assert(hs2[hs2.len() - 1] == hs[hs.len() - 1]);
        assert(gs2[hs2.len() - 1] == gs[hs.len() - 1]);
        lemma_walk_follows_chain(buf, store, hs2, gs2, w02);
    }
}

/// A commit whose tree search reports no find passes the walk to its first
/// parent, folding the scanned hashes forward — so a commit nearer the head
/// is never passed over in favour of an ancestor — and a commit without a
/// parent ends the walk as exhausted.
pub proof fn lemma_walk_steps_past(
    buf: Seq<u8>,
    store: Map<Seq<u8>, (int, int)>,
    h: Seq<u8>,
    g: Set<Seq<u8>>,
    walked: Set<Seq<u8>>,
)
    requires
        store.dom().finite(),
        !walked.contains(h),
        commit_bytes_at(buf, store, h) is Some,
        spec_parse_commit(commit_bytes_at(buf, store, h).unwrap()) is Ok,
        spec_search(
            buf,
            store,
            spec_parse_commit(commit_bytes_at(buf, store, h).unwrap()).unwrap().tree,
            g,
            Set::empty(),
        ) is NotFound,
    ensures
        ({
            let cm = spec_parse_commit(commit_bytes_at(buf, store, h).unwrap()).unwrap();
            match spec_search(buf, store, cm.tree, g, Set::empty()) {
                SearchRes::NotFound(v) => match cm.parent {
                    Some(ph) => spec_walk(buf, store, h, g, walked) == spec_walk(
                        buf,
                        store,
                        ph,
                        g.union(v),
                        walked.insert(h),
                    ),
                    None => spec_walk(buf, store, h, g, walked) == Err::<Seq<u8>, SearchError>(
                        SearchError::CookieNotFound,
                    ),
                },
                _ => true,
            }
        }),
{
}

/// An archive that builds cleanly but whose branch ref names no stored
/// object — a missing or empty ref file included — is exhausted at once.
pub proof fn lemma_find_exhausted_on_absent_ref(data: Seq<u8>, branch: Seq<u8>)
    requires
        built_of(data, branch) is Ok,
        !built_of(data, branch).unwrap().0.dom().contains(built_of(data, branch).unwrap().1),
    ensures
        spec_find(data, branch) == Err::<Seq<u8>, SearchError>(SearchError::CookieNotFound),
{
    let sr = built_of(data, branch).unwrap();
    crate::archive::lemma_spec_build_finite(
        tar_entry_list(data).unwrap(),
        data,
        branch,
        0,
        Map::empty(),
        Seq::empty(),
    );
    lemma_walk_absent_ref(data, sr.0, sr.1, Set::empty(), Set::empty());
}

/// An archive that builds cleanly, whose head commit parses and whose tree
/// itself holds an entry named for the target with the token in its blob,
/// is answered at the head commit on the first step, unless a structural
/// fault stops the head tree's scan first.
pub proof fn lemma_find_stops_at_head(data: Seq<u8>, branch: Seq<u8>, j: int)
    requires
        built_of(data, branch) is Ok,
        ({
            let sr = built_of(data, branch).unwrap();
            let m = sr.0;
            let h = sr.1;
            &&& commit_bytes_at(data, m, h) is Some
            &&& spec_parse_commit(commit_bytes_at(data, m, h).unwrap()) is Ok
            &&& ({
                let cm = spec_parse_commit(commit_bytes_at(data, m, h).unwrap()).unwrap();
                &&& commit_bytes_at(data, m, cm.tree) is Some
                &&& spec_parse_tree(commit_bytes_at(data, m, cm.tree).unwrap()) is Ok
                &&& 0 <= j < spec_parse_tree(
                    commit_bytes_at(data, m, cm.tree).unwrap(),
                ).unwrap().len()
                &&& entry_hits(
                    data,
                    m,
                    spec_parse_tree(commit_bytes_at(data, m, cm.tree).unwrap()).unwrap(),
                    j,
                )
                &&& !(spec_search(data, m, cm.tree, Set::empty(), Set::empty()) is Fail)
            })
        }),
    ensures
        ({
            let sr = built_of(data, branch).unwrap();
            spec_find(data, branch) == Ok::<Seq<u8>, SearchError>(
                spec_parse_commit(
                    commit_bytes_at(data, sr.0, sr.1).unwrap(),
                ).unwrap().author + seq![32u8] + sr.1,
            )
        }),
{
    let sr = built_of(data, branch).unwrap();
    crate::archive::lemma_spec_build_finite(
        tar_entry_list(data).unwrap(),
        data,
        branch,
        0,
        Map::empty(),
        Seq::empty(),
    );
    lemma_find_in_head_tree(data, sr.0, sr.1, Set::empty(), Set::empty(), j);
}

} // verus!
