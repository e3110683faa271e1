//! Text: finding, replacing and splitting.

use crate::bytes::same;
use vstd::prelude::*;
use vstd::utf8::{decode_utf8, encode_utf8_decode_utf8, valid_utf8};

verus! {

/// `p` stands in `t` at place `i`.
pub open spec fn occurs_at(t: Seq<char>, p: Seq<char>, i: int) -> bool {
    0 <= i && i + p.len() <= t.len() && t.subrange(i, i + p.len()) == p
}

/// The first place from `i` on at which `p` stands in `t`.
pub open spec fn find_from(t: Seq<char>, p: Seq<char>, i: int) -> Option<int>
    decreases t.len() + 1 - i,
{
    if i + p.len() > t.len() {
        None
    } else if occurs_at(t, p, i) {
        Some(i)
    } else {
        find_from(t, p, i + 1)
    }
}

/// `t` without the first place at which `p` stands in it.
pub open spec fn remove_first(t: Seq<char>, p: Seq<char>) -> Seq<char> {
    match find_from(t, p, 0) {
        Some(i) => t.take(i) + t.skip(i + p.len()),
        None => t,
    }
}

/// What follows place `k` of `t`, with `w` wherever `p` stands, read from left to right.
pub open spec fn replace_from(t: Seq<char>, p: Seq<char>, w: Seq<char>, k: int) -> Seq<char>
    decreases t.len() - k,
{
    match find_from(t, p, k) {
        Some(i) => if 0 <= k <= i && p.len() > 0 && i + p.len() <= t.len() {
            t.subrange(k, i) + w + replace_from(t, p, w, i + p.len())
        } else {
            t.skip(k)
        },
        None => t.skip(k),
    }
}

/// `t` with `w` wherever `p` stands.
pub open spec fn replace_all(t: Seq<char>, p: Seq<char>, w: Seq<char>) -> Seq<char> {
    replace_from(t, p, w, 0)
}

/// `t` without the characters `c` at its end.
pub open spec fn trim_end(t: Seq<char>, c: char) -> Seq<char>
    decreases t.len(),
{
    if t.len() > 0 && t.last() == c {
        trim_end(t.drop_last(), c)
    } else {
        t
    }
}

/// The first place from `k` on at which `c` stands in `t`, or the end of `t`.
pub open spec fn next(t: Seq<char>, c: char, k: int) -> int
    decreases t.len() - k,
{
    if k >= t.len() {
        t.len() as int
    } else if t[k] == c {
        k
    } else {
        next(t, c, k + 1)
    }
}

pub open spec fn split_from(t: Seq<char>, c: char, k: int) -> Seq<Seq<char>>
    decreases t.len() - k,
{
    let e = next(t, c, k);
    if k < 0 || e < k || e >= t.len() {
        seq![t.skip(k)]
    } else {
        seq![t.subrange(k, e)] + split_from(t, c, e + 1)
    }
}

/// The pieces of `t` between the characters `c`.
pub open spec fn split(t: Seq<char>, c: char) -> Seq<Seq<char>> {
    split_from(t, c, 0)
}

pub proof fn lemma_next(t: Seq<char>, c: char, k: int)
    requires
        0 <= k <= t.len(),
    ensures
        k <= next(t, c, k) <= t.len(),
        next(t, c, k) < t.len() ==> t[next(t, c, k)] == c,
        forall|i: int| k <= i < next(t, c, k) ==> #[trigger] t[i] != c,
    decreases t.len() - k,
{
    if k < t.len() && t[k] != c {
        lemma_next(t, c, k + 1);
    }
}

pub proof fn lemma_find_from(t: Seq<char>, p: Seq<char>, i: int)
    requires
        0 <= i,
    ensures
        find_from(t, p, i) matches Some(k) ==> i <= k && occurs_at(t, p, k),
    decreases t.len() + 1 - i,
{
    if i + p.len() <= t.len() && !occurs_at(t, p, i) {
        lemma_find_from(t, p, i + 1);
    }
}

/// The characters of a text.
pub fn chars_of(s: &str) -> (r: Vec<char>)
    ensures
        r@ == s@,
{
    let mut r: Vec<char> = Vec::new();
    for c in it: s.chars()
        invariant
            r@ == it.seq().take(it.index() as int),
            it.seq() == s@,
    {
        r.push(c);
        assert(it.seq().take(it.index() + 1) =~= it.seq().take(it.index() as int).push(c));
    }
    assert(s@.take(s@.len() as int) =~= s@);
    r
}

/// Whether two texts are the same.
pub fn same_text(a: &str, b: &str) -> (r: bool)
    ensures
        r == (a@ == b@),
{
    proof {
        encode_utf8_decode_utf8(a@);
        encode_utf8_decode_utf8(b@);
    }
    same(a.as_bytes(), b.as_bytes())
}

/// Reads bytes as text with `std::str::from_utf8`, which gives a text exactly where the
/// bytes are valid UTF-8, and then the one that they encode.
#[verifier::external_body]
pub(crate) fn utf8_text(bytes: &[u8]) -> (r: Option<&str>)
    ensures
        r is Some <==> valid_utf8(bytes@),
        r matches Some(s) ==> s@ == decode_utf8(bytes@),
{
    std::str::from_utf8(bytes).ok()
}

fn is_at(t: &Vec<char>, p: &Vec<char>, i: usize) -> (r: bool)
    requires
        i + p@.len() <= t@.len(),
    ensures
        r == occurs_at(t@, p@, i as int),
{
    let n: usize = t.len();
    let mut k: usize = 0;
    while k < p.len()
        invariant
            n == t@.len(),
            i + p@.len() <= t@.len(),
            k <= p.len(),
            forall|j: int| 0 <= j < k ==> t@[i + j] == p@[j],
        decreases p.len() - k,
    {
        if t[i + k] != p[k] {
            assert(t@.subrange(i as int, i + p@.len())[k as int] != p@[k as int]);
            return false;
        }
        k += 1;
    }
    assert(t@.subrange(i as int, i + p@.len()) =~= p@);
    true
}

fn found_from(t: &Vec<char>, p: &Vec<char>, i: usize) -> (r: Option<usize>)
    requires
        i <= t@.len(),
    ensures
        match r {
            Some(k) => find_from(t@, p@, i as int) == Some(k as int),
            None => find_from(t@, p@, i as int) is None,
        },
{
    if p.len() > t.len() {
        return None;
    }
    let last: usize = t.len() - p.len();
    let mut k: usize = i;
    while k <= last
        invariant
            i <= k <= t@.len(),
            last + p@.len() == t@.len(),
            find_from(t@, p@, i as int) == find_from(t@, p@, k as int),
        decreases t@.len() - k,
    {
        if is_at(t, p, k) {
            return Some(k);
        }
        if k == t.len() {
            assert(find_from(t@, p@, k + 1) is None);
            return None;
        }
        k += 1;
    }
    None
}

/// `s` without the first place at which `p` stands in it.
pub fn without_first(s: &str, p: &str) -> (r: String)
    ensures
        r@ == remove_first(s@, p@),
{
    let t = chars_of(s);
    let q = chars_of(p);
    match found_from(&t, &q, 0) {
        None => s.to_owned(),
        Some(i) => {
            proof {
                lemma_find_from(s@, p@, 0);
            }
            let n: usize = t.len();
            let mut r: String = s.substring_char(0, i).to_owned();
            r.append(s.substring_char(i + q.len(), n));
            assert(r@ =~= s@.take(i as int) + s@.skip(i + q@.len()));
            r
        },
    }
}

/// `s` with `w` wherever `p` stands.
pub fn replaced_all(s: &str, p: &str, w: &str) -> (r: String)
    requires
        p@.len() > 0,
    ensures
        r@ == replace_all(s@, p@, w@),
{
    let t = chars_of(s);
    let q = chars_of(p);
    let n: usize = t.len();
    let mut r: String = String::new();
    let mut k: usize = 0;
    assert(r@ + replace_from(s@, p@, w@, 0) =~= replace_all(s@, p@, w@));
    loop
        invariant
            t@ == s@,
            n == t@.len(),
            q@ == p@,
            p@.len() > 0,
            k <= t@.len(),
            r@ + replace_from(s@, p@, w@, k as int) == replace_all(s@, p@, w@),
        decreases t@.len() - k,
    {
        match found_from(&t, &q, k) {
            None => {
                r.append(s.substring_char(k, t.len()));
                assert(s@.subrange(k as int, t@.len() as int) =~= s@.skip(k as int));
                return r;
            },
            Some(i) => {
                proof {
                    lemma_find_from(s@, p@, k as int);
                }
                r.append(s.substring_char(k, i));
                r.append(w);
                k = i + q.len();
                assert(r@ + replace_from(s@, p@, w@, k as int) =~= replace_all(s@, p@, w@));
            },
        }
    }
}

/// `s` without the characters `c` at its end.
pub fn trimmed_end(s: &str, c: char) -> (r: String)
    ensures
        r@ == trim_end(s@, c),
{
    let t = chars_of(s);
    let mut n: usize = t.len();
    assert(s@.take(n as int) =~= s@);
    while n > 0 && t[n - 1] == c
        invariant
            t@ == s@,
            n <= t@.len(),
            trim_end(s@, c) == trim_end(s@.take(n as int), c),
        decreases n,
    {
        assert(s@.take(n as int).drop_last() =~= s@.take(n - 1));
        n -= 1;
    }
    assert(s@.subrange(0, n as int) =~= s@.take(n as int));
    s.substring_char(0, n).to_owned()
}

/// The texts of a list as values.
pub open spec fn texts(v: Seq<String>) -> Seq<Seq<char>> {
    Seq::new(v.len(), |i: int| v[i]@)
}

fn next_from(t: &Vec<char>, c: char, k: usize) -> (r: usize)
    requires
        k <= t@.len(),
    ensures
        r == next(t@, c, k as int),
        k <= r <= t@.len(),
{
    let mut i: usize = k;
    while i < t.len() && t[i] != c
        invariant
            k <= i <= t@.len(),
            next(t@, c, k as int) == next(t@, c, i as int),
        decreases t@.len() - i,
    {
        i += 1;
    }
    i
}

/// The pieces of `s` between the characters `c`.
pub fn pieces(s: &str, c: char) -> (r: Vec<String>)
    ensures
        texts(r@) == split(s@, c),
{
    let t = chars_of(s);
    let mut r: Vec<String> = Vec::new();
    let mut k: usize = 0;
    assert(texts(r@) + split_from(s@, c, 0) =~= split(s@, c));
    loop
        invariant
            t@ == s@,
            k <= t@.len(),
            texts(r@) + split_from(s@, c, k as int) == split(s@, c),
        decreases t@.len() - k,
    {
        let e: usize = next_from(&t, c, k);
        let ghost before = texts(r@);
        let piece: String = s.substring_char(k, e).to_owned();
        r.push(piece);
        assert(texts(r@) =~= before.push(s@.subrange(k as int, e as int)));
        if e == t.len() {
            assert(s@.subrange(k as int, e as int) =~= s@.skip(k as int));
            assert(texts(r@) =~= before + split_from(s@, c, k as int));
            return r;
        }
        assert(texts(r@) + split_from(s@, c, e + 1) =~= before + split_from(s@, c, k as int));
        k = e + 1;
    }
}

} // verus!
