//! What holds of finding, replacing and splitting in texts.

use crate::text::{
    find_from, lemma_find_from, lemma_next, next, occurs_at, remove_first, replace_all,
    replace_from, split, split_from, trim_end,
};
use vstd::prelude::*;

verus! {

/// Nowhere in `t` before place `k` does a copy of `p` start.
pub open spec fn none_before(t: Seq<char>, p: Seq<char>, k: int) -> bool {
    forall|i: int|
        0 <= i < k && i + p.len() <= t.len() ==> #[trigger] t.subrange(i, i + p.len()) != p
}

proof fn lemma_find_at(t: Seq<char>, p: Seq<char>, i: int, k: int)
    requires
        0 <= i <= k,
        k + p.len() <= t.len(),
        t.subrange(k, k + p.len()) == p,
        none_before(t, p, k),
    ensures
        find_from(t, p, i) == Some(k),
    decreases k - i,
{
    if i < k {
        assert(t.subrange(i, i + p.len()) != p);
        lemma_find_at(t, p, i + 1, k);
    }
}

proof fn lemma_find_nowhere(t: Seq<char>, p: Seq<char>, i: int)
    requires
        0 <= i,
        none_before(t, p, t.len() as int),
        p.len() > 0,
    ensures
        find_from(t, p, i) is None,
{
    lemma_find_from(t, p, i);
    if let Some(k) = find_from(t, p, i) {
        assert(t.subrange(k, k + p.len()) == p);
    }
}

proof fn lemma_find_shift(t: Seq<char>, p: Seq<char>, k: int, i: int)
    requires
        0 <= k <= t.len(),
        0 <= i,
    ensures
        find_from(t.skip(k), p, i) == match find_from(t, p, k + i) {
            Some(j) => Some(j - k),
            None => None,
        },
    decreases t.len() + 1 - k - i,
{
    let s = t.skip(k);
    if i + p.len() <= s.len() {
        assert(s.subrange(i, i + p.len()) =~= t.subrange(k + i, k + i + p.len()));
        if !occurs_at(s, p, i) {
            lemma_find_shift(t, p, k, i + 1);
        }
    }
}

proof fn lemma_replace_shift(t: Seq<char>, p: Seq<char>, w: Seq<char>, k: int, j: int)
    requires
        0 <= k <= t.len(),
        0 <= j <= t.len() - k,
    ensures
        replace_from(t.skip(k), p, w, j) == replace_from(t, p, w, k + j),
    decreases t.len() - k - j,
{
    let s = t.skip(k);
    lemma_find_shift(t, p, k, j);
    lemma_find_from(t, p, k + j);
    assert(s.skip(j) =~= t.skip(k + j));
    if let Some(i) = find_from(t, p, k + j) {
        if p.len() > 0 {
            assert(s.subrange(j, i - k) =~= t.subrange(k + j, i));
            lemma_replace_shift(t, p, w, k, i - k + p.len());
        }
    }
}

/// A text in which another does not stand is not changed by taking that one out, or by
/// putting something in its place.
pub proof fn law_replace_nothing(t: Seq<char>, p: Seq<char>, w: Seq<char>)
    requires
        none_before(t, p, t.len() as int),
        p.len() > 0,
    ensures
        remove_first(t, p) == t,
        replace_all(t, p, w) == t,
{
    lemma_find_nowhere(t, p, 0);
    assert(t.skip(0) =~= t);
}

/// Taking out a text takes out its first copy and leaves the rest alone.
pub proof fn law_remove_first(a: Seq<char>, p: Seq<char>, b: Seq<char>)
    requires
        none_before(a + p + b, p, a.len() as int),
    ensures
        remove_first(a + p + b, p) == a + b,
{
    let t = a + p + b;
    let k = a.len() as int;
    assert(t.subrange(k, k + p.len()) =~= p);
    lemma_find_at(t, p, 0, k);
    assert(t.take(k) =~= a);
    assert(t.skip(k + p.len()) =~= b);
}

/// Each copy of a text is replaced, from left to right, and what was put in its place is not
/// read again.
pub proof fn law_replace_first(a: Seq<char>, p: Seq<char>, w: Seq<char>, b: Seq<char>)
    requires
        p.len() > 0,
        none_before(a + p + b, p, a.len() as int),
    ensures
        replace_all(a + p + b, p, w) == a + w + replace_all(b, p, w),
{
    let t = a + p + b;
    let k = a.len() as int;
    let e = k + p.len();
    assert(t.subrange(k, e) =~= p);
    lemma_find_at(t, p, 0, k);
    assert(t.subrange(0, k) =~= a);
    assert(t.skip(e) =~= b);
    lemma_replace_shift(t, p, w, e, 0);
}

/// The first place at which a copy starts, where one starts before `k`.
pub proof fn lemma_first_copy(t: Seq<char>, p: Seq<char>, k: int) -> (r: int)
    requires
        0 <= k,
        !none_before(t, p, k),
    ensures
        0 <= r < k,
        r + p.len() <= t.len(),
        t.subrange(r, r + p.len()) == p,
        none_before(t, p, r),
    decreases k,
{
    if none_before(t, p, k - 1) {
        let i = choose|i: int|
            0 <= i < k && i + p.len() <= t.len() && #[trigger] t.subrange(i, i + p.len()) == p;
        assert(i == k - 1);
        i
    } else {
        lemma_first_copy(t, p, k - 1)
    }
}

/// What comes before the first copy of a text is not changed by replacing that text.
pub proof fn law_replace_after(a: Seq<char>, b: Seq<char>, p: Seq<char>, w: Seq<char>)
    requires
        p.len() > 0,
        none_before(a + b, p, a.len() as int),
    ensures
        replace_all(a + b, p, w) == a + replace_all(b, p, w),
{
    let t = a + b;
    let len = a.len() as int;
    assert forall|i: int| len <= i && i + p.len() <= t.len() implies #[trigger] t.subrange(
        i,
        i + p.len(),
    ) == b.subrange(i - len, i - len + p.len()) by {
        assert(t.subrange(i, i + p.len()) =~= b.subrange(i - len, i - len + p.len()));
    }
    if none_before(b, p, b.len() as int) {
        assert forall|i: int|
            0 <= i < t.len() && i + p.len() <= t.len() implies #[trigger] t.subrange(
            i,
            i + p.len(),
        ) != p by {
            if i >= len {
                assert(b.subrange(i - len, i - len + p.len()) != p);
            }
        }
        law_replace_nothing(t, p, w);
        law_replace_nothing(b, p, w);
    } else {
        let k = lemma_first_copy(b, p, b.len() as int);
        let x = b.take(k);
        let y = b.skip(k + p.len());
        let z = a + x;
        assert(b =~= x + p + y);
        law_replace_first(x, p, w, y);
        assert(t =~= z + p + y);
        assert forall|i: int|
            0 <= i < z.len() && i + p.len() <= t.len() implies #[trigger] t.subrange(
            i,
            i + p.len(),
        ) != p by {
            if i >= len {
                assert(b.subrange(i - len, i - len + p.len()) != p);
            }
        }
        law_replace_first(z, p, w, y);
        assert(z + w + replace_all(y, p, w) =~= a + (x + w + replace_all(y, p, w)));
    }
}

/// All copies of a character at the end are left out, and nothing else is.
pub proof fn law_trim_end(t: Seq<char>, c: char)
    ensures
        trim_end(t.push(c), c) == trim_end(t, c),
        t.len() == 0 || t.last() != c ==> trim_end(t, c) == t,
{
    assert(t.push(c).drop_last() =~= t);
}

proof fn lemma_next_shift(t: Seq<char>, c: char, k: int, j: int)
    requires
        0 <= k <= t.len(),
        0 <= j <= t.len() - k,
    ensures
        next(t.skip(k), c, j) + k == next(t, c, k + j),
    decreases t.len() - k - j,
{
    if j < t.len() - k && t[k + j] != c {
        lemma_next_shift(t, c, k, j + 1);
    }
}

pub proof fn lemma_split_shift(t: Seq<char>, c: char, k: int, j: int)
    requires
        0 <= k <= t.len(),
        0 <= j <= t.len() - k,
    ensures
        split_from(t.skip(k), c, j) == split_from(t, c, k + j),
    decreases t.len() - k - j,
{
    let s = t.skip(k);
    lemma_next_shift(t, c, k, j);
    lemma_next(t, c, k + j);
    let e = next(t, c, k + j);
    assert(s.skip(j) =~= t.skip(k + j));
    if e < t.len() {
        assert(s.subrange(j, e - k) =~= t.subrange(k + j, e));
        lemma_split_shift(t, c, k, e - k + 1);
    }
}

proof fn lemma_next_at(t: Seq<char>, c: char, k: int, e: int)
    requires
        0 <= k <= e <= t.len(),
        forall|i: int| k <= i < e ==> #[trigger] t[i] != c,
        e < t.len() ==> t[e] == c,
    ensures
        next(t, c, k) == e,
    decreases e - k,
{
    if k < e {
        lemma_next_at(t, c, k + 1, e);
    }
}

/// A text without the separator is one piece. Otherwise the first piece is what stands before
/// the first separator, and the others are the pieces of what follows it. No piece is left
/// out, not even an empty one.
pub proof fn law_split(a: Seq<char>, c: char, b: Seq<char>)
    requires
        forall|i: int| 0 <= i < a.len() ==> #[trigger] a[i] != c,
    ensures
        split(a, c) == seq![a],
        split(a.push(c) + b, c) == seq![a] + split(b, c),
{
    let t = a.push(c) + b;
    let e = a.len() as int;
    lemma_next_at(a, c, 0, e);
    assert(a.skip(0) =~= a);
    assert forall|i: int| 0 <= i < e implies #[trigger] t[i] != c by {
        assert(t[i] == a[i]);
    }
    assert(t[e] == c);
    lemma_next_at(t, c, 0, e);
    assert(t.subrange(0, e) =~= a);
    assert(t.skip(e + 1) =~= b);
    lemma_split_shift(t, c, e + 1, 0);
}

} // verus!
