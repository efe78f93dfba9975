//! The fixed byte strings of the object formats and of the search target,
//! each as a specification sequence and as a builder of the same bytes.

use vstd::prelude::*;

verus! {

/// The ASCII bytes of `"commit"`.
pub open spec fn commit_tag() -> Seq<u8> {
    seq![99u8, 111u8, 109u8, 109u8, 105u8, 116u8]
}

/// The ASCII bytes of `"tree "`, with its trailing space.
pub open spec fn tree_tag() -> Seq<u8> {
    seq![116u8, 114u8, 101u8, 101u8, 32u8]
}

/// The ASCII bytes of `"author "`.
pub open spec fn author_prefix() -> Seq<u8> {
    seq![97u8, 117u8, 116u8, 104u8, 111u8, 114u8, 32u8]
}

/// The ASCII bytes of `"parent "`.
pub open spec fn parent_prefix() -> Seq<u8> {
    seq![112u8, 97u8, 114u8, 101u8, 110u8, 116u8, 32u8]
}

/// The ASCII bytes of `".git"`.
pub open spec fn dot_git() -> Seq<u8> {
    seq![46u8, 103u8, 105u8, 116u8]
}

/// The ASCII bytes of `"objects"`.
pub open spec fn objects_seg() -> Seq<u8> {
    seq![111u8, 98u8, 106u8, 101u8, 99u8, 116u8, 115u8]
}

/// The ASCII bytes of `".git/refs/heads/"`.
pub open spec fn ref_heads_prefix() -> Seq<u8> {
    seq![
        46u8,
        103u8,
        105u8,
        116u8,
        47u8,
        114u8,
        101u8,
        102u8,
        115u8,
        47u8,
        104u8,
        101u8,
        97u8,
        100u8,
        115u8,
        47u8,
    ]
}

/// The ASCII bytes of the target file name `"santa.txt"`.
pub open spec fn santa_name() -> Seq<u8> {
    seq![115u8, 97u8, 110u8, 116u8, 97u8, 46u8, 116u8, 120u8, 116u8]
}

/// The ASCII bytes of the content token `"COOKIE"`.
pub open spec fn cookie_token() -> Seq<u8> {
    seq![67u8, 79u8, 79u8, 75u8, 73u8, 69u8]
}

pub fn commit_tag_vec() -> (r: Vec<u8>)
    ensures
        r@ == commit_tag(),
{
    let r: Vec<u8> = vec![99u8, 111u8, 109u8, 109u8, 105u8, 116u8];
    proof {
        assert(r@ =~= commit_tag());
    }
    r
}

pub fn tree_tag_vec() -> (r: Vec<u8>)
    ensures
        r@ == tree_tag(),
{
    let r: Vec<u8> = vec![116u8, 114u8, 101u8, 101u8, 32u8];
    proof {
        assert(r@ =~= tree_tag());
    }
    r
}

pub fn author_prefix_vec() -> (r: Vec<u8>)
    ensures
        r@ == author_prefix(),
{
    let r: Vec<u8> = vec![97u8, 117u8, 116u8, 104u8, 111u8, 114u8, 32u8];
    proof {
        assert(r@ =~= author_prefix());
    }
    r
}

pub fn parent_prefix_vec() -> (r: Vec<u8>)
    ensures
        r@ == parent_prefix(),
{
    let r: Vec<u8> = vec![112u8, 97u8, 114u8, 101u8, 110u8, 116u8, 32u8];
    proof {
        assert(r@ =~= parent_prefix());
    }
    r
}

pub fn dot_git_vec() -> (r: Vec<u8>)
    ensures
        r@ == dot_git(),
{
    let r: Vec<u8> = vec![46u8, 103u8, 105u8, 116u8];
    proof {
        assert(r@ =~= dot_git());
    }
    r
}

pub fn objects_seg_vec() -> (r: Vec<u8>)
    ensures
        r@ == objects_seg(),
{
    let r: Vec<u8> = vec![111u8, 98u8, 106u8, 101u8, 99u8, 116u8, 115u8];
    proof {
        assert(r@ =~= objects_seg());
    }
    r
}

pub fn ref_heads_prefix_vec() -> (r: Vec<u8>)
    ensures
        r@ == ref_heads_prefix(),
{
    let r: Vec<u8> = vec![
        46u8,
        103u8,
        105u8,
        116u8,
        47u8,
        114u8,
        101u8,
        102u8,
        115u8,
        47u8,
        104u8,
        101u8,
        97u8,
        100u8,
        115u8,
        47u8,
    ];
    proof {
        assert(r@ =~= ref_heads_prefix());
    }
    r
}

pub fn santa_name_vec() -> (r: Vec<u8>)
    ensures
        r@ == santa_name(),
{
    let r: Vec<u8> = vec![115u8, 97u8, 110u8, 116u8, 97u8, 46u8, 116u8, 120u8, 116u8];
    proof {
        assert(r@ =~= santa_name());
    }
    r
}

pub fn cookie_token_vec() -> (r: Vec<u8>)
    ensures
        r@ == cookie_token(),
{
    let r: Vec<u8> = vec![67u8, 79u8, 79u8, 75u8, 73u8, 69u8];
    proof {
        assert(r@ =~= cookie_token());
    }
    r
}

} // verus!
