//! Byte-level helpers shared by the object parsers: scanning for a byte,
//! prefix tests, line splitting, whitespace trimming, decimal parsing, token
//! search, and lowercase hexadecimal formatting.

use vstd::prelude::*;
use vstd::slice::{slice_subrange, slice_to_vec};

verus! {

/// The lowercase hexadecimal digit for a value below sixteen.
pub open spec fn spec_hex_digit(n: u8) -> u8 {
    if n < 10 {
        (48 + n) as u8
    } else {
        (87 + n) as u8
    }
}

/// Formats one nibble as its lowercase hexadecimal digit.
pub fn hex_digit(n: u8) -> (r: u8)
    requires
        n < 16,
    ensures
        r == spec_hex_digit(n),
{
    if n < 10 {
        48 + n
    } else {
        87 + n
    }
}

/// The first index at or after `i` holding the byte `x`, if any.
pub open spec fn find_from(b: Seq<u8>, x: u8, i: int) -> Option<int>
    decreases b.len() - i,
{
    if !(0 <= i < b.len()) {
        None
    } else if b[i] == x {
        Some(i)
    } else {
        find_from(b, x, i + 1)
    }
}

pub proof fn lemma_find_from(b: Seq<u8>, x: u8, i: int)
    requires
        0 <= i <= b.len(),
    ensures
        match find_from(b, x, i) {
            Some(j) => i <= j < b.len() && b[j] == x && (forall|k: int|
                i <= k < j ==> b[k] != x),
            None => forall|k: int| i <= k < b.len() ==> b[k] != x,
        },
    decreases b.len() - i,
{
    if i < b.len() && b[i] != x {
        lemma_find_from(b, x, i + 1);
    }
}

/// Finds the first occurrence of `x` in `b` at or after `start`.
#[verifier::loop_isolation(false)]
pub fn find_byte(b: &[u8], x: u8, start: usize) -> (r: Option<usize>)
    requires
        start <= b@.len(),
    ensures
        match r {
            Some(j) => find_from(b@, x, start as int) == Some(j as int) && start <= j
                < b@.len(),
            None => find_from(b@, x, start as int) is None,
        },
{
    let n = b.len();
    let mut i = start;
    while i < n
        invariant
            start <= i <= n == b@.len(),
            find_from(b@, x, start as int) == find_from(b@, x, i as int),
        decreases n - i,
    {
        if b[i] == x {
            return Some(i);
        }
        i = i + 1;
    }
    None
}

/// Whether `b` begins with the prefix `p`.
pub open spec fn starts_with_spec(b: Seq<u8>, p: Seq<u8>) -> bool {
    p.len() <= b.len() && b.subrange(0, p.len() as int) == p
}

/// Compares two byte slices for equality.
#[verifier::loop_isolation(false)]
pub fn bytes_eq(a: &[u8], b: &[u8]) -> (r: bool)
    ensures
        r == (a@ == b@),
{
    let n = a.len();
    if n != b.len() {
        return false;
    }
    let mut i: usize = 0;
    while i < n
        invariant
            i <= n,
            n == a@.len() == b@.len(),
            forall|k: int| 0 <= k < i ==> a@[k] == b@[k],
        decreases n - i,
    {
        if a[i] != b[i] {
            return false;
        }
        i = i + 1;
    }
    proof {
        assert(a@ =~= b@);
    }
    true
}

/// Tests whether `b` begins with `p`.
pub fn starts_with_bytes(b: &[u8], p: &[u8]) -> (r: bool)
    ensures
        r == starts_with_spec(b@, p@),
{
    if p.len() > b.len() {
        return false;
    }
    bytes_eq(slice_subrange(b, 0, p.len()), p)
}

/// Copies the byte range `[i, j)` of `b` into a fresh vector.
pub fn subvec(b: &[u8], i: usize, j: usize) -> (r: Vec<u8>)
    requires
        i <= j <= b@.len(),
    ensures
        r@ == b@.subrange(i as int, j as int),
{
    slice_to_vec(slice_subrange(b, i, j))
}

/// Appends every byte of `src` to `dst`.
#[verifier::loop_isolation(false)]
pub fn append_bytes(dst: &mut Vec<u8>, src: &[u8])
    ensures
        final(dst)@ == old(dst)@ + src@,
{
    let n = src.len();
    let mut i: usize = 0;
    while i < n
        invariant
            i <= n == src@.len(),
            dst@ == old(dst)@ + src@.subrange(0, i as int),
        decreases n - i,
    {
        dst.push(src[i]);
        proof {
            assert(dst@ =~= old(dst)@ + src@.subrange(0, i + 1));
        }
        i = i + 1;
    }
    proof {
        assert(old(dst)@ + src@.subrange(0, n as int) =~= old(dst)@ + src@);
    }
}

/// A line with one trailing carriage return removed, as a text splitter does.
pub open spec fn strip_cr(s: Seq<u8>) -> Seq<u8> {
    if s.len() > 0 && s.last() == 13 {
        s.drop_last()
    } else {
        s
    }
}

/// The lines of `b` from position `i` on: segments between newline bytes,
/// each with a trailing carriage return removed, and no empty segment after a
/// final newline.
pub open spec fn split_lines_from(b: Seq<u8>, i: int) -> Seq<Seq<u8>>
    decreases b.len() - i,
{
    if !(0 <= i < b.len()) {
        Seq::empty()
    } else {
        match find_from(b, 10, i) {
            None => seq![strip_cr(b.subrange(i, b.len() as int))],
            Some(j) => {
                proof {
                    lemma_find_from(b, 10, i);
                }
                seq![strip_cr(b.subrange(i, j))] + split_lines_from(b, j + 1)
            },
        }
    }
}

/// Splits `b` into lines starting at `start`.
#[verifier::loop_isolation(false)]
pub fn lines_from(b: &[u8], start: usize) -> (r: Vec<Vec<u8>>)
    requires
        start <= b@.len(),
    ensures
        r.deep_view() == split_lines_from(b@, start as int),
{
    let n = b.len();
    let mut acc: Vec<Vec<u8>> = Vec::new();
    let mut cur = start;
    while cur < n
        invariant
            start <= cur <= n == b@.len(),
            acc.deep_view() + split_lines_from(b@, cur as int) == split_lines_from(
                b@,
                start as int,
            ),
        decreases n - cur,
    {
        let ghost prev = acc.deep_view();
        match find_byte(b, 10, cur) {
            Some(j) => {
                let e = if j > cur && b[j - 1] == 13 {
                    j - 1
                } else {
                    j
                };
                proof {
                    if j > cur && b@[j - 1] == 13 {
                        assert(b@.subrange(cur as int, j as int).drop_last() =~= b@.subrange(
                            cur as int,
                            j as int - 1,
                        ));
                    }
                    assert(strip_cr(b@.subrange(cur as int, j as int)) =~= b@.subrange(
                        cur as int,
                        e as int,
                    ));
                }
                let line = subvec(b, cur, e);
                acc.push(line);
                proof {
                    assert(acc.deep_view() =~~= prev + seq![b@.subrange(cur as int, e as int)]);
                    assert(split_lines_from(b@, cur as int) =~= seq![
                        strip_cr(b@.subrange(cur as int, j as int)),
                    ] + split_lines_from(b@, j + 1));
                }
                cur = j + 1;
            },
            None => {
                let e = if n > cur && b[n - 1] == 13 {
                    n - 1
                } else {
                    n
                };
                proof {
                    if n > cur && b@[n - 1] == 13 {
                        assert(b@.subrange(cur as int, n as int).drop_last() =~= b@.subrange(
                            cur as int,
                            n as int - 1,
                        ));
                    }
                    assert(strip_cr(b@.subrange(cur as int, n as int)) =~= b@.subrange(
                        cur as int,
                        e as int,
                    ));
                }
                let line = subvec(b, cur, e);
                acc.push(line);
                proof {
                    assert(acc.deep_view() =~~= prev + seq![b@.subrange(cur as int, e as int)]);
                    assert(split_lines_from(b@, cur as int) =~= seq![
                        strip_cr(b@.subrange(cur as int, n as int)),
                    ]);
                }
                cur = n;
            },
        }
    }
    proof {
        assert(acc.deep_view() =~= acc.deep_view() + split_lines_from(b@, cur as int));
    }
    acc
}

/// The value carried by the first line that begins with `p`, from index `i`
/// on: the line with the prefix removed.
pub open spec fn first_with_prefix(lines: Seq<Seq<u8>>, p: Seq<u8>, i: int) -> Option<Seq<u8>>
    decreases lines.len() - i,
{
    if !(0 <= i < lines.len()) {
        None
    } else if starts_with_spec(lines[i], p) {
        Some(lines[i].subrange(p.len() as int, lines[i].len() as int))
    } else {
        first_with_prefix(lines, p, i + 1)
    }
}

/// Scans `lines` for the first line beginning with `p` and returns the rest
/// of that line.
#[verifier::loop_isolation(false)]
pub fn find_line_value(lines: &Vec<Vec<u8>>, p: &[u8]) -> (r: Option<Vec<u8>>)
    ensures
        match r {
            Some(v) => first_with_prefix(lines.deep_view(), p@, 0) == Some(v@),
            None => first_with_prefix(lines.deep_view(), p@, 0) is None,
        },
{
    let n = lines.len();
    let mut i: usize = 0;
    while i < n
        invariant
            i <= n == lines.deep_view().len(),
            first_with_prefix(lines.deep_view(), p@, 0) == first_with_prefix(
                lines.deep_view(),
                p@,
                i as int,
            ),
        decreases n - i,
    {
        let line = &lines[i];
        proof {
            assert(lines.deep_view()[i as int] =~~= line@);
        }
        if starts_with_bytes(line.as_slice(), p) {
            let v = subvec(line.as_slice(), p.len(), line.len());
            return Some(v);
        }
        i = i + 1;
    }
    None
}

/// The first index at or after `i` where the two-byte pair `x`, `y` occurs.
pub open spec fn find_pair_from(b: Seq<u8>, x: u8, y: u8, i: int) -> Option<int>
    decreases b.len() - i,
{
    if !(0 <= i && i + 1 < b.len()) {
        None
    } else if b[i] == x && b[i + 1] == y {
        Some(i)
    } else {
        find_pair_from(b, x, y, i + 1)
    }
}

/// Finds the first occurrence of the byte pair `x`, `y`.
#[verifier::loop_isolation(false)]
pub fn find_pair(b: &[u8], x: u8, y: u8) -> (r: Option<usize>)
    ensures
        match r {
            Some(j) => find_pair_from(b@, x, y, 0) == Some(j as int) && j + 1 < b@.len(),
            None => find_pair_from(b@, x, y, 0) is None,
        },
{
    let n = b.len();
    if n < 2 {
        return None;
    }
    let mut i: usize = 0;
    while i < n - 1
        invariant
            i <= n - 1,
            n == b@.len(),
            n >= 2,
            find_pair_from(b@, x, y, 0) == find_pair_from(b@, x, y, i as int),
        decreases n - i,
    {
        if b[i] == x && b[i + 1] == y {
            return Some(i);
        }
        i = i + 1;
    }
    None
}

/// Whether `c` is an ASCII whitespace byte.
pub open spec fn spec_is_ws(c: u8) -> bool {
    c == 9 || c == 10 || c == 11 || c == 12 || c == 13 || c == 32
}

/// The first index at or after `i` holding a non-whitespace byte, or the
/// length of `b`.
pub open spec fn trim_start_idx(b: Seq<u8>, i: int) -> int
    decreases b.len() - i,
{
    if !(0 <= i < b.len()) {
        i
    } else if spec_is_ws(b[i]) {
        trim_start_idx(b, i + 1)
    } else {
        i
    }
}

/// The index one past the last non-whitespace byte strictly before `j`.
pub open spec fn trim_end_idx(b: Seq<u8>, j: int) -> int
    decreases j,
{
    if j <= 0 {
        0
    } else if j <= b.len() && spec_is_ws(b[j - 1]) {
        trim_end_idx(b, j - 1)
    } else {
        j
    }
}

/// `b` with leading and trailing ASCII whitespace removed.
pub open spec fn trim_spec(b: Seq<u8>) -> Seq<u8> {
    let s = trim_start_idx(b, 0);
    let e = trim_end_idx(b, b.len() as int);
    if s < e {
        b.subrange(s, e)
    } else {
        Seq::empty()
    }
}

/// Removes leading and trailing ASCII whitespace.
#[verifier::loop_isolation(false)]
pub fn trim_bytes(b: &[u8]) -> (r: Vec<u8>)
    ensures
        r@ == trim_spec(b@),
{
    let n = b.len();
    let mut s: usize = 0;
    while s < n && (b[s] == 9 || b[s] == 10 || b[s] == 11 || b[s] == 12 || b[s] == 13 || b[s]
        == 32)
        invariant
            s <= n == b@.len(),
            trim_start_idx(b@, 0) == trim_start_idx(b@, s as int),
        decreases n - s,
    {
        s = s + 1;
    }
    let mut e: usize = n;
    while e > 0 && (b[e - 1] == 9 || b[e - 1] == 10 || b[e - 1] == 11 || b[e - 1] == 12 || b[e
        - 1] == 13 || b[e - 1] == 32)
        invariant
            e <= n == b@.len(),
            trim_end_idx(b@, n as int) == trim_end_idx(b@, e as int),
        decreases e,
    {
        e = e - 1;
    }
    if s < e {
        subvec(b, s, e)
    } else {
        Vec::new()
    }
}

/// Whether `c` is an ASCII decimal digit.
pub open spec fn is_digit(c: u8) -> bool {
    48 <= c <= 57
}

/// The value of a digit string read left to right.
pub open spec fn digits_val(s: Seq<u8>) -> int
    decreases s.len(),
{
    if s.len() == 0 {
        0
    } else {
        digits_val(s.drop_last()) * 10 + (s.last() - 48)
    }
}

pub open spec fn all_digits(s: Seq<u8>) -> bool {
    forall|k: int| 0 <= k < s.len() ==> is_digit(s[k])
}

/// The unsigned decimal reading of `s`: an optional leading plus sign, then
/// one or more digits, with a value that fits in 32 bits.
pub open spec fn spec_parse_u32(s: Seq<u8>) -> Option<u32> {
    let t = if s.len() > 0 && s[0] == 43 {
        s.drop_first()
    } else {
        s
    };
    if t.len() > 0 && all_digits(t) && digits_val(t) <= u32::MAX {
        Some(digits_val(t) as u32)
    } else {
        None
    }
}

/// Once the value of a digit prefix exceeds the 32-bit range, the value of
/// any extension does too.
proof fn lemma_digits_val_grows(t: Seq<u8>, m: int)
    requires
        0 <= m <= t.len(),
        digits_val(t.subrange(0, m)) > u32::MAX,
    ensures
        digits_val(t) > u32::MAX,
    decreases t.len() - m,
{
    if m == t.len() {
        assert(t.subrange(0, m) =~= t);
    } else {
        let p = t.subrange(0, m + 1);
        assert(p.drop_last() =~= t.subrange(0, m));
        assert(digits_val(p) == digits_val(t.subrange(0, m)) * 10 + (p.last() - 48));
        assert(digits_val(t.subrange(0, m)) * 10 >= digits_val(t.subrange(0, m)) + 9
            * 0x1_0000_0000) by {
            assert(digits_val(t.subrange(0, m)) >= 0x1_0000_0000);
        }
        lemma_digits_val_grows(t, m + 1);
    }
}

/// Parses an unsigned 32-bit decimal number, as the standard integer parser
/// reads it.
#[verifier::loop_isolation(false)]
pub fn parse_u32_dec(s: &[u8]) -> (r: Option<u32>)
    ensures
        r == spec_parse_u32(s@),
{
    let n = s.len();
    let start: usize = if n > 0 && s[0] == 43 {
        1
    } else {
        0
    };
    let ghost t = if s@.len() > 0 && s@[0] == 43 {
        s@.drop_first()
    } else {
        s@
    };
    proof {
        assert(t =~= s@.subrange(start as int, n as int));
    }
    if start >= n {
        return None;
    }
    let mut acc: u64 = 0;
    let mut j = start;
    while j < n
        invariant
            start <= j <= n == s@.len(),
            start < n,
            t =~= s@.subrange(start as int, n as int),
            acc <= u32::MAX,
            acc as int == digits_val(t.subrange(0, j - start)),
            forall|k: int| 0 <= k < j - start ==> is_digit(t[k]),
        decreases n - j,
    {
        let c = s[j];
        if c < 48 || c > 57 {
            proof {
                assert(t[j - start] == c);
                assert(!all_digits(t));
            }
            return None;
        }
        proof {
            let p = t.subrange(0, j - start + 1);
            assert(p.drop_last() =~= t.subrange(0, j - start));
            assert(p.last() == c);
        }
        acc = acc * 10 + ((c - 48) as u64);
        if acc > 0xffff_ffff {
            proof {
                lemma_digits_val_grows(t, j - start + 1);
            }
            return None;
        }
        j = j + 1;
    }
    proof {
        assert(t.subrange(0, n - start) =~= t);
    }
    Some(acc as u32)
}

/// Whether `needle` occurs in `hay` starting at `i`.
pub open spec fn match_at(hay: Seq<u8>, needle: Seq<u8>, i: int) -> bool {
    0 <= i && i + needle.len() <= hay.len() && hay.subrange(i, i + needle.len() as int)
        == needle
}

/// Whether `needle` occurs anywhere in `hay`.
pub open spec fn contains_token(hay: Seq<u8>, needle: Seq<u8>) -> bool {
    exists|i: int| match_at(hay, needle, i)
}

/// Searches `hay` for `needle` as a contiguous run of bytes.
#[verifier::loop_isolation(false)]
pub fn contains_bytes(hay: &[u8], needle: &[u8]) -> (r: bool)
    ensures
        r == contains_token(hay@, needle@),
{
    let hn = hay.len();
    let nn = needle.len();
    if nn > hn {
        proof {
            assert(forall|i: int| !match_at(hay@, needle@, i));
        }
        return false;
    }
    if nn == 0 {
        proof {
            assert(hay@.subrange(0, 0) =~= needle@);
            assert(match_at(hay@, needle@, 0));
        }
        return true;
    }
    let mut i: usize = 0;
    while i <= hn - nn
        invariant
            i <= hn - nn + 1,
            hn == hay@.len(),
            nn == needle@.len() <= hn,
            forall|k: int| 0 <= k < i ==> !match_at(hay@, needle@, k),
        decreases hn - nn - i + 1,
    {
        if bytes_eq(slice_subrange(hay, i, i + nn), needle) {
            proof {
                assert(match_at(hay@, needle@, i as int));
            }
            return true;
        }
        i = i + 1;
    }
    proof {
        assert(forall|k: int| match_at(hay@, needle@, k) ==> 0 <= k < i) by {
            assert(forall|k: int| k + nn > hn ==> !match_at(hay@, needle@, k));
        }
        assert(!contains_token(hay@, needle@));
    }
    false
}

/// The two lowercase hexadecimal digits of one byte.
pub open spec fn spec_hex_pair(b: u8) -> Seq<u8> {
    seq![spec_hex_digit(b / 16), spec_hex_digit(b % 16)]
}

/// The lowercase hexadecimal rendering of a byte string, two digits a byte.
pub open spec fn spec_hex_of(s: Seq<u8>) -> Seq<u8>
    decreases s.len(),
{
    if s.len() == 0 {
        Seq::empty()
    } else {
        spec_hex_of(s.drop_last()) + spec_hex_pair(s.last())
    }
}

/// Renders `s` as lowercase hexadecimal text.
#[verifier::loop_isolation(false)]
pub fn hex_of_bytes(s: &[u8]) -> (r: Vec<u8>)
    ensures
        r@ == spec_hex_of(s@),
{
    let n = s.len();
    let mut out: Vec<u8> = Vec::new();
    let mut i: usize = 0;
    while i < n
        invariant
            i <= n == s@.len(),
            out@ == spec_hex_of(s@.subrange(0, i as int)),
        decreases n - i,
    {
        let b = s[i];
        out.push(hex_digit(b / 16));
        out.push(hex_digit(b % 16));
        proof {
            let p = s@.subrange(0, i + 1);
            assert(p.drop_last() =~= s@.subrange(0, i as int));
            assert(p.last() == b);
            assert(out@ =~= spec_hex_of(p));
        }
        i = i + 1;
    }
    proof {
        assert(s@.subrange(0, n as int) =~= s@);
    }
    out
}

} // verus!
