//! The tree searcher: a depth-first, short-circuiting walk over a tree
//! object and its subtrees, looking for the target file with the target
//! content.
//!
//! Two sets bound the work. The caller's `found` set holds hashes proven
//! empty of the target by earlier searches and is never descended into
//! again; the `visited` set grows during one search and keeps a shared
//! subtree from being read twice. The whole search is pinned to the
//! interpreter `spec_search` below.

use vstd::prelude::*;
use vstd::slice::slice_subrange;
use vstd::set_lib::lemma_len_subset;
use crate::bytes::{trim_spec, trim_bytes, bytes_eq, subvec, contains_token, contains_bytes};
use crate::errors::SearchError;
use crate::inflate::{inflate_of, uncompress_obj};
use crate::objects::{TreeEntryM, spec_parse_tree, parse_git_tree, entries_view};
use crate::store::{ObjectStore, FoundSet};
use crate::tokens::{santa_name, cookie_token, santa_name_vec, cookie_token_vec};

verus! {

/// The outcome of searching one tree: the target was found, or it was not
/// and the set of hashes now proven empty is handed back, or a structural
/// fault stopped the search.
pub enum SearchRes {
    Found,
    NotFound(Set<Seq<u8>>),
    Fail(SearchError),
}

/// How many stored objects a search may still visit.
pub open spec fn search_measure(store: Map<Seq<u8>, (int, int)>, v: Set<Seq<u8>>) -> int {
    store.dom().difference(v).len() as int
}

/// Growing the visited set never grows the measure.
pub proof fn lemma_diff_len_mono(dom: Set<Seq<u8>>, v1: Set<Seq<u8>>, v2: Set<Seq<u8>>)
    requires
        dom.finite(),
        v1.subset_of(v2),
    ensures
        dom.difference(v2).len() <= dom.difference(v1).len(),
{
    assert(dom.difference(v1).subset_of(dom));
    lemma_len_subset(dom.difference(v1), dom);
    assert(dom.difference(v2).subset_of(dom.difference(v1)));
    lemma_len_subset(dom.difference(v2), dom.difference(v1));
}

/// The search of the tree at `h`: look its range up, inflate it, parse it,
/// and scan its entries.
pub open spec fn spec_search(
    buf: Seq<u8>,
    store: Map<Seq<u8>, (int, int)>,
    h: Seq<u8>,
    g: Set<Seq<u8>>,
    v: Set<Seq<u8>>,
) -> SearchRes
    decreases search_measure(store, v) + 1, 0int, 0int,
        when store.dom().finite()
{
    if !store.dom().contains(h) {
        SearchRes::Fail(SearchError::ObjectNotFound)
    } else {
        match inflate_of(buf.subrange(store[h].0, store[h].1)) {
            None => SearchRes::Fail(SearchError::DecompressionError),
            Some(t) => match spec_parse_tree(t) {
                Err(e) => SearchRes::Fail(e),
                Ok(entries) => spec_search_entries(buf, store, entries, 0, g, v),
            },
        }
    }
}

/// The scan of a tree's entries from index `i` on. Every entry's name is
/// tested against the target, whatever the sets hold; a matching stored
/// blob is inflated and searched for the token, and a hit short-circuits
/// the whole search.
pub open spec fn spec_search_entries(
    buf: Seq<u8>,
    store: Map<Seq<u8>, (int, int)>,
    entries: Seq<TreeEntryM>,
    i: int,
    g: Set<Seq<u8>>,
    v: Set<Seq<u8>>,
) -> SearchRes
    decreases search_measure(store, v), entries.len() - i, 1int,
        when store.dom().finite() && 0 <= i
{
    if i >= entries.len() {
        SearchRes::NotFound(v)
    } else {
        let e = entries[i];
        if trim_spec(e.name) == santa_name() && store.dom().contains(e.hash) {
            match inflate_of(buf.subrange(store[e.hash].0, store[e.hash].1)) {
                None => SearchRes::Fail(SearchError::DecompressionError),
                Some(content) => if contains_token(content, cookie_token()) {
                    SearchRes::Found
                } else {
                    spec_search_rest(buf, store, entries, i, g, v)
                },
            }
        } else {
            spec_search_rest(buf, store, entries, i, g, v)
        }
    }
}

/// The bookkeeping after the name test of entry `i`: a hash in neither set
/// is recorded as visited, and a directory among them is descended into,
/// with the subtree's returned set folded into the visited set.
pub open spec fn spec_search_rest(
    buf: Seq<u8>,
    store: Map<Seq<u8>, (int, int)>,
    entries: Seq<TreeEntryM>,
    i: int,
    g: Set<Seq<u8>>,
    v: Set<Seq<u8>>,
) -> SearchRes
    decreases search_measure(store, v), entries.len() - i, 0int,
        when store.dom().finite() && 0 <= i < entries.len()
{
    let e = entries[i];
    if !g.contains(e.hash) && !v.contains(e.hash) {
        let v2 = v.insert(e.hash);
        if e.mode == 40000u32 {
            if !store.dom().contains(e.hash) {
                SearchRes::Fail(SearchError::ObjectNotFound)
            } else {
                proof {
                    store.dom().lemma_set_insert_diff_decreases(v, e.hash);
                }
                match spec_search(buf, store, e.hash, g, v2) {
                    SearchRes::Found => SearchRes::Found,
                    SearchRes::Fail(err) => SearchRes::Fail(err),
                    SearchRes::NotFound(v3) => {
                        proof {
                            assert(v.subset_of(v2.union(v3)));
                            lemma_diff_len_mono(store.dom(), v, v2.union(v3));
                        }
                        spec_search_entries(buf, store, entries, i + 1, g, v2.union(v3))
                    },
                }
            }
        } else {
            proof {
                assert(v.subset_of(v2));
                lemma_diff_len_mono(store.dom(), v, v2);
            }
            spec_search_entries(buf, store, entries, i + 1, g, v2)
        }
    } else {
        spec_search_entries(buf, store, entries, i + 1, g, v)
    }
}

/// A search that reports no find hands back a visited set that contains
/// everything it was given.
pub proof fn lemma_search_grows(
    buf: Seq<u8>,
    store: Map<Seq<u8>, (int, int)>,
    h: Seq<u8>,
    g: Set<Seq<u8>>,
    v: Set<Seq<u8>>,
)
    requires
        store.dom().finite(),
    ensures
        match spec_search(buf, store, h, g, v) {
            SearchRes::NotFound(v3) => v.subset_of(v3),
            _ => true,
        },
    decreases search_measure(store, v) + 1, 0int, 0int,
{
    if store.dom().contains(h) {
        match inflate_of(buf.subrange(store[h].0, store[h].1)) {
            Some(t) => match spec_parse_tree(t) {
                Ok(entries) => lemma_entries_grows(buf, store, entries, 0, g, v),
                Err(_) => {},
            },
            None => {},
        }
    }
}

pub proof fn lemma_entries_grows(
    buf: Seq<u8>,
    store: Map<Seq<u8>, (int, int)>,
    entries: Seq<TreeEntryM>,
    i: int,
    g: Set<Seq<u8>>,
    v: Set<Seq<u8>>,
)
    requires
        store.dom().finite(),
        0 <= i,
    ensures
        match spec_search_entries(buf, store, entries, i, g, v) {
            SearchRes::NotFound(v3) => v.subset_of(v3),
            _ => true,
        },
    decreases search_measure(store, v), entries.len() - i, 1int,
{
    if i < entries.len() {
        let e = entries[i];
        if trim_spec(e.name) == santa_name() && store.dom().contains(e.hash) {
            match inflate_of(buf.subrange(store[e.hash].0, store[e.hash].1)) {
                Some(content) => {
                    if !contains_token(content, cookie_token()) {
                        lemma_rest_grows(buf, store, entries, i, g, v);
                    }
                },
                None => {},
            }
        } else {
            lemma_rest_grows(buf, store, entries, i, g, v);
        }
    }
}

pub proof fn lemma_rest_grows(
    buf: Seq<u8>,
    store: Map<Seq<u8>, (int, int)>,
    entries: Seq<TreeEntryM>,
    i: int,
    g: Set<Seq<u8>>,
    v: Set<Seq<u8>>,
)
    requires
        store.dom().finite(),
        0 <= i < entries.len(),
    ensures
        match spec_search_rest(buf, store, entries, i, g, v) {
            SearchRes::NotFound(v3) => v.subset_of(v3),
            _ => true,
        },
    decreases search_measure(store, v), entries.len() - i, 0int,
{
    let e = entries[i];
    if !g.contains(e.hash) && !v.contains(e.hash) {
        let v2 = v.insert(e.hash);
        if e.mode == 40000u32 {
            if store.dom().contains(e.hash) {
                store.dom().lemma_set_insert_diff_decreases(v, e.hash);
                lemma_search_grows(buf, store, e.hash, g, v2);
                match spec_search(buf, store, e.hash, g, v2) {
                    SearchRes::NotFound(v3) => {
                        assert(v.subset_of(v2.union(v3)));
                        lemma_diff_len_mono(store.dom(), v, v2.union(v3));
                        lemma_entries_grows(buf, store, entries, i + 1, g, v2.union(v3));
                    },
                    _ => {},
                }
            }
        } else {
            assert(v.subset_of(v2));
            lemma_diff_len_mono(store.dom(), v, v2);
            lemma_entries_grows(buf, store, entries, i + 1, g, v2);
        }
    } else {
        lemma_entries_grows(buf, store, entries, i + 1, g, v);
    }
}

/// Whether entry `j` names the target file and its stored blob holds the
/// token.
pub open spec fn entry_hits(
    buf: Seq<u8>,
    store: Map<Seq<u8>, (int, int)>,
    entries: Seq<TreeEntryM>,
    j: int,
) -> bool {
    &&& trim_spec(entries[j].name) == santa_name()
    &&& store.dom().contains(entries[j].hash)
    &&& inflate_of(buf.subrange(store[entries[j].hash].0, store[entries[j].hash].1)) is Some
    &&& contains_token(
        inflate_of(buf.subrange(store[entries[j].hash].0, store[entries[j].hash].1)).unwrap(),
        cookie_token(),
    )
}

/// A scan over entries among which some entry names the target and holds
/// the token never ends empty-handed: it reports the find, or stops on a
/// structural fault met on the way, whatever the two sets hold.
pub proof fn lemma_scan_finds_match(
    buf: Seq<u8>,
    store: Map<Seq<u8>, (int, int)>,
    entries: Seq<TreeEntryM>,
    i: int,
    j: int,
    g: Set<Seq<u8>>,
    v: Set<Seq<u8>>,
)
    requires
        store.dom().finite(),
        0 <= i <= j < entries.len(),
        entry_hits(buf, store, entries, j),
    ensures
        !(spec_search_entries(buf, store, entries, i, g, v) is NotFound),
    decreases j - i, 1int,
{
    if i < j {
        let e = entries[i];
        if trim_spec(e.name) == santa_name() && store.dom().contains(e.hash) {
            match inflate_of(buf.subrange(store[e.hash].0, store[e.hash].1)) {
                Some(content) => {
                    if !contains_token(content, cookie_token()) {
                        lemma_scan_rest_finds_match(buf, store, entries, i, j, g, v);
                    }
                },
                None => {},
            }
        } else {
            lemma_scan_rest_finds_match(buf, store, entries, i, j, g, v);
        }
    }
}

pub proof fn lemma_scan_rest_finds_match(
    buf: Seq<u8>,
    store: Map<Seq<u8>, (int, int)>,
    entries: Seq<TreeEntryM>,
    i: int,
    j: int,
    g: Set<Seq<u8>>,
    v: Set<Seq<u8>>,
)
    requires
        store.dom().finite(),
        0 <= i < j < entries.len(),
        entry_hits(buf, store, entries, j),
    ensures
        !(spec_search_rest(buf, store, entries, i, g, v) is NotFound),
    decreases j - i, 0int,
{
    let e = entries[i];
    if !g.contains(e.hash) && !v.contains(e.hash) {
        let v2 = v.insert(e.hash);
        if e.mode == 40000u32 {
            if store.dom().contains(e.hash) {
                match spec_search(buf, store, e.hash, g, v2) {
                    SearchRes::NotFound(v3) => {
                        lemma_scan_finds_match(buf, store, entries, i + 1, j, g, v2.union(v3));
                    },
                    _ => {},
                }
            }
        } else {
            lemma_scan_finds_match(buf, store, entries, i + 1, j, g, v2);
        }
    } else {
        lemma_scan_finds_match(buf, store, entries, i + 1, j, g, v);
    }
}

/// At an entry that names the target and holds the token, the scan is
/// already decided: it reports the find at once, consulting neither the
/// entries after it nor any sibling subtree.
pub proof fn lemma_scan_short_circuits(
    buf: Seq<u8>,
    store: Map<Seq<u8>, (int, int)>,
    entries: Seq<TreeEntryM>,
    j: int,
    g: Set<Seq<u8>>,
    v: Set<Seq<u8>>,
)
    requires
        store.dom().finite(),
        0 <= j < entries.len(),
        entry_hits(buf, store, entries, j),
    ensures
        spec_search_entries(buf, store, entries, j, g, v) == SearchRes::Found,
{
}

/// An entry whose hash is already recorded in either set is never descended
/// into again: the bookkeeping step moves straight on to the next entry
/// with both sets unchanged, so a shared subtree is read at most once
/// across the whole walk.
pub proof fn lemma_search_skips_found(
    buf: Seq<u8>,
    store: Map<Seq<u8>, (int, int)>,
    entries: Seq<TreeEntryM>,
    i: int,
    g: Set<Seq<u8>>,
    v: Set<Seq<u8>>,
)
    requires
        store.dom().finite(),
        0 <= i < entries.len(),
        g.contains(entries[i].hash) || v.contains(entries[i].hash),
    ensures
        spec_search_rest(buf, store, entries, i, g, v) == spec_search_entries(
            buf,
            store,
            entries,
            i + 1,
            g,
            v,
        ),
{
}

/// Searches the tree at `h`, threading the visited set through the
/// recursion by value.
#[verifier::loop_isolation(false)]
fn search_tree(buf: &[u8], store: &ObjectStore, h: &Vec<u8>, found: &FoundSet, local: FoundSet)
    -> (r: Result<(bool, FoundSet), SearchError>)
    requires
        store.bounded(buf@.len() as int),
    ensures
        match spec_search(buf@, store@, h@, found@, local@) {
            SearchRes::Found => r is Ok && r.unwrap().0 == true,
            SearchRes::NotFound(v3) => r is Ok && r.unwrap().0 == false && r.unwrap().1@ == v3,
            SearchRes::Fail(e) => r == Err::<(bool, FoundSet), SearchError>(e),
        },
    decreases store@.dom().difference(local@).len(),
{
    let ghost v0 = local@;
    proof {
        store.lemma_dom_finite();
        store.lemma_bounded_map(buf@.len() as int);
    }
    let span = match store.get(h.as_slice()) {
        Some(s) => s,
        None => { return Err(SearchError::ObjectNotFound) },
    };
    let raw = slice_subrange(buf, span.0, span.1);
    let tree_bytes = match uncompress_obj(raw) {
        Some(t) => t,
        None => { return Err(SearchError::DecompressionError) },
    };
    let entries = match parse_git_tree(tree_bytes.as_slice()) {
        Ok(es) => es,
        Err(e) => { return Err(e) },
    };
    let ghost ev = entries_view(entries@);
    proof {
        assert(spec_search(buf@, store@, h@, found@, v0) == spec_search_entries(
            buf@,
            store@,
            ev,
            0,
            found@,
            v0,
        ));
    }
    let santa = santa_name_vec();
    let cookie = cookie_token_vec();
    let n = entries.len();
    let mut local = local;
    let mut i: usize = 0;
    while i < n
        invariant
            i <= n == entries@.len(),
            v0.subset_of(local@),
            spec_search_entries(buf@, store@, ev, i as int, found@, local@) == spec_search_entries(
                buf@,
                store@,
                ev,
                0,
                found@,
                v0,
            ),
        decreases n - i,
    {
        let e = &entries[i];
        proof {
            assert(ev[i as int] == e@);
        }
        let trimmed = trim_bytes(e.name.as_slice());
        if bytes_eq(trimmed.as_slice(), santa.as_slice()) {
            match store.get(e.hash.as_slice()) {
                Some(bspan) => {
                    let braw = slice_subrange(buf, bspan.0, bspan.1);
                    match uncompress_obj(braw) {
                        None => { return Err(SearchError::DecompressionError) },
                        Some(content) => {
                            if contains_bytes(content.as_slice(), cookie.as_slice()) {
                                return Ok((true, local));
                            }
                        },
                    }
                },
                None => {},
            }
        }
        proof {
            assert(spec_search_entries(buf@, store@, ev, i as int, found@, local@)
                == spec_search_rest(buf@, store@, ev, i as int, found@, local@));
        }
        if !found.contains(e.hash.as_slice()) && !local.contains(e.hash.as_slice()) {
            let ghost lv = local@;
            let hcopy = subvec(e.hash.as_slice(), 0, e.hash.len());
            proof {
                assert(hcopy@ =~= e.hash@);
            }
            let _ = local.insert(hcopy);
            if e.mode == 40000 {
                match store.get(e.hash.as_slice()) {
                    None => { return Err(SearchError::ObjectNotFound) },
                    Some(_) => {
                        proof {
                            store@.dom().lemma_set_insert_diff_decreases(lv, e.hash@);
                            lemma_diff_len_mono(store@.dom(), v0, lv);
                        }
                        match search_tree(buf, store, &e.hash, found, local) {
                            Err(err) => { return Err(err) },
                            Ok((hit, l)) => {
                                if hit {
                                    return Ok((true, l));
                                }
                                proof {
                                    lemma_search_grows(buf@, store@, e.hash@, found@, lv.insert(
                                        e.hash@,
                                    ));
                                    assert(lv.insert(e.hash@).union(l@) =~= l@);
                                }
                                local = l;
                            },
                        }
                    },
                }
            }
        }
        i = i + 1;
    }
    Ok((false, local))
}

/// Searches the tree named `tree_hash` for the target file. `Ok(Ok(()))`
/// reports a find; `Ok(Err(set))` reports none, handing back the hashes now
/// proven empty so the caller can skip them later; a structural fault is an
/// error.
pub fn find_file_with_cookie(
    buf: &[u8],
    store: &ObjectStore,
    tree_hash: &Vec<u8>,
    found: &FoundSet,
) -> (r: Result<Result<(), FoundSet>, SearchError>)
    requires
        store.bounded(buf@.len() as int),
    ensures
        match spec_search(buf@, store@, tree_hash@, found@, Set::empty()) {
            SearchRes::Found => r is Ok && r.unwrap() is Ok,
            SearchRes::NotFound(v) => r is Ok && r.unwrap() is Err && r.unwrap().unwrap_err()@
                == v,
            SearchRes::Fail(e) => r == Err::<Result<(), FoundSet>, SearchError>(e),
        },
{
    let local = FoundSet::new();
    match search_tree(buf, store, tree_hash, found, local) {
        Err(e) => Err(e),
        Ok((true, _)) => Ok(Ok(())),
        Ok((false, l)) => Ok(Err(l)),
    }
}

} // verus!
