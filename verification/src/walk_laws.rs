//! In which order the commits of a history stand.

use crate::arena::CommitView;
use crate::walk::{
    finished, history, in_order, lemma_finished_order, lemma_visited_order, visited_from,
};
use vstd::prelude::*;

verus! {

/// The commits in `s` that are not in `base`, in their order.
pub open spec fn minus(s: Seq<CommitView>, base: Seq<CommitView>) -> Seq<CommitView>
    decreases s.len(),
{
    if s.len() == 0 {
        Seq::empty()
    } else if base.contains(s.last()) {
        minus(s.drop_last(), base)
    } else {
        minus(s.drop_last(), base).push(s.last())
    }
}

/// The commits in `base`, and then those in `s` that are not among them.
pub open spec fn then_new(base: Seq<CommitView>, s: Seq<CommitView>) -> Seq<CommitView> {
    base + minus(s, base)
}

proof fn lemma_minus(s: Seq<CommitView>, base: Seq<CommitView>, x: CommitView)
    ensures
        minus(s, base).contains(x) <==> s.contains(x) && !base.contains(x),
    decreases s.len(),
{
    if s.len() > 0 {
        let front = s.drop_last();
        lemma_minus(front, base, x);
        let m = minus(front, base);
        assert(s =~= front.push(s.last()));
        if s.contains(x) && x != s.last() {
            let i = s.index_of(x);
            assert(front[i] == x);
        }
        if front.contains(x) {
            let i = front.index_of(x);
            assert(s[i] == x);
        }
        if !base.contains(s.last()) {
            let w = m.push(s.last());
            assert(w[m.len() as int] == s.last());
            assert(s[s.len() - 1] == s.last());
            if m.contains(x) {
                let i = m.index_of(x);
                assert(w[i] == x);
            }
            if w.contains(x) && x != s.last() {
                let i = w.index_of(x);
                assert(m[i] == x);
            }
        }
    }
}

proof fn lemma_then_new(base: Seq<CommitView>, s: Seq<CommitView>, x: CommitView)
    ensures
        then_new(base, s).contains(x) <==> base.contains(x) || s.contains(x),
{
    let m = minus(s, base);
    let w = then_new(base, s);
    lemma_minus(s, base, x);
    if base.contains(x) {
        let i = base.index_of(x);
        assert(w[i] == x);
    }
    if m.contains(x) {
        let i = m.index_of(x);
        assert(w[base.len() + i] == x);
    }
    if w.contains(x) {
        let i = w.index_of(x);
        if i < base.len() {
            assert(base[i] == x);
        } else {
            assert(m[i - base.len()] == x);
        }
    }
}

/// Where nothing new follows, nothing is added.
proof fn lemma_minus_known(s: Seq<CommitView>, news: Seq<CommitView>, base: Seq<CommitView>)
    requires
        forall|i: int| 0 <= i < news.len() ==> base.contains(#[trigger] news[i]),
    ensures
        minus(s + news, base) == minus(s, base),
    decreases news.len(),
{
    let t = s + news;
    if news.len() == 0 {
        assert(t =~= s);
    } else {
        let less = news.drop_last();
        assert forall|i: int| 0 <= i < less.len() implies base.contains(#[trigger] less[i]) by {
            assert(less[i] == news[i]);
        }
        lemma_minus_known(s, less, base);
        assert(t.drop_last() =~= s + less);
        assert(t.last() == news[news.len() - 1]);
    }
}

/// What leads to a commit is there already, or in a list that has all that its commits
/// follow, if that has the commit.
proof fn lemma_visited_known(
    c: CommitView,
    seen: Seq<CommitView>,
    j: int,
    base: Seq<CommitView>,
    x: CommitView,
)
    requires
        in_order(base),
        0 <= j <= c.parents.len(),
        base.contains(c),
        visited_from(c, seen, j).contains(x),
    ensures
        seen.contains(x) || base.contains(x),
    decreases c, 0int, c.parents.len() - j,
{
    if j < c.parents.len() {
        let p = c.parents[j];
        lemma_visited_known(c, finished(p, seen), j + 1, base, x);
        let i = base.index_of(c);
        assert(base.take(i).contains(base[i].parents[j]));
        let k = base.take(i).index_of(p);
        assert(base[k] == p);
        if finished(p, seen).contains(x) {
            lemma_finished_known(p, seen, base, x);
        }
    }
}

proof fn lemma_finished_known(
    c: CommitView,
    seen: Seq<CommitView>,
    base: Seq<CommitView>,
    x: CommitView,
)
    requires
        in_order(base),
        base.contains(c),
        finished(c, seen).contains(x),
    ensures
        seen.contains(x) || base.contains(x),
    decreases c, 1int, 0int,
{
    if !seen.contains(c) {
        let v = visited_from(c, seen, 0);
        let i = v.push(c).index_of(x);
        if i < v.len() {
            assert(v[i] == x);
            lemma_visited_known(c, seen, 0, base, x);
        }
    }
}

proof fn lemma_visited_after(c: CommitView, seen: Seq<CommitView>, j: int, base: Seq<CommitView>)
    requires
        in_order(base),
        in_order(seen),
        0 <= j <= c.parents.len(),
    ensures
        visited_from(c, then_new(base, seen), j) == then_new(base, visited_from(c, seen, j)),
    decreases c, 0int, c.parents.len() - j,
{
    if j < c.parents.len() {
        let p = c.parents[j];
        lemma_finished_after(p, seen, base);
        lemma_finished_order(p, seen);
        lemma_visited_after(c, finished(p, seen), j + 1, base);
    }
}

/// What is visited after more commits were seen is what is new of what is visited after
/// fewer.
proof fn lemma_finished_after(c: CommitView, seen: Seq<CommitView>, base: Seq<CommitView>)
    requires
        in_order(base),
        in_order(seen),
    ensures
        finished(c, then_new(base, seen)) == then_new(base, finished(c, seen)),
    decreases c, 1int, 0int,
{
    lemma_then_new(base, seen, c);
    if !seen.contains(c) {
        let v = visited_from(c, seen, 0);
        let w = v.push(c);
        assert(w.drop_last() =~= v);
        if base.contains(c) {
            lemma_finished_order(c, seen);
            let news = w.skip(seen.len() as int);
            assert(w =~= seen + news) by {
                assert(w.take(seen.len() as int) == seen);
            }
            assert forall|i: int| 0 <= i < news.len() implies base.contains(#[trigger] news[i]) by {
                let x = news[i];
                assert(w[seen.len() + i] == x);
                assert(w.contains(x));
                lemma_finished_known(c, seen, base, x);
                if seen.contains(x) {
                    let k = seen.index_of(x);
                    assert(w.take(seen.len() as int)[k] == x);
                    assert(w[k] == x);
                    assert(w.no_duplicates());
                }
            }
            lemma_minus_known(seen, news, base);
        } else {
            lemma_visited_after(c, seen, 0, base);
            assert(then_new(base, w) =~= then_new(base, v).push(c));
        }
    }
}

/// The commits that lead to all parents lead to all but the last, and then to the last.
proof fn lemma_visited_last(c: CommitView, d: CommitView, seen: Seq<CommitView>, j: int)
    requires
        c.parents.len() > 0,
        d.parents == c.parents.drop_last(),
        0 <= j <= d.parents.len(),
    ensures
        visited_from(c, seen, j) == finished(c.parents.last(), visited_from(d, seen, j)),
    decreases d.parents.len() - j,
{
    if j < d.parents.len() {
        assert(d.parents[j] == c.parents[j]);
        lemma_visited_last(c, d, finished(c.parents[j], seen), j + 1);
    } else {
        assert(visited_from(c, finished(c.parents[j], seen), j + 1) == finished(
            c.parents[j],
            seen,
        ));
    }
}

proof fn lemma_history_visited(c: CommitView)
    ensures
        history(c) == visited_from(c, Seq::empty(), 0).push(c),
        in_order(visited_from(c, Seq::empty(), 0)),
{
    let none = Seq::<CommitView>::empty();
    assert(in_order(none));
    lemma_visited_order(c, none, 0);
}

/// The history of a commit that follows none is the commit. That of another is what a commit
/// with the same parents but the last follows, then what is new in the history of the last
/// parent, in the order of that, and then the commit. So what leads to the first parent
/// stands first, and no commit that is followed is left out.
pub proof fn law_history_parents(c: CommitView, d: CommitView)
    requires
        c.parents.len() > 0 ==> d.parents == c.parents.drop_last(),
    ensures
        c.parents.len() == 0 ==> history(c) == seq![c],
        c.parents.len() > 0 ==> history(c) == then_new(
            history(d).drop_last(),
            history(c.parents.last()),
        ).push(c),
{
    let none = Seq::<CommitView>::empty();
    lemma_history_visited(c);
    if c.parents.len() == 0 {
        assert(none.push(c) =~= seq![c]);
    } else {
        let p = c.parents.last();
        let v = visited_from(d, none, 0);
        lemma_history_visited(d);
        assert(v.push(d).drop_last() =~= v);
        lemma_visited_last(c, d, none, 0);
        assert(in_order(none));
        lemma_finished_after(p, none, v);
        assert(then_new(v, none) =~= v);
    }
}

/// The history of a commit has the commit, and what the histories of its parents have, and
/// nothing else.
pub proof fn law_history_members(c: CommitView, x: CommitView)
    ensures
        history(c).contains(x) <==> x == c || exists|j: int|
            0 <= j < c.parents.len() && #[trigger] history(c.parents[j]).contains(x),
{
    lemma_history_visited(c);
    let none = Seq::<CommitView>::empty();
    let v = visited_from(c, none, 0);
    let h = v.push(c);
    assert(h[v.len() as int] == c);
    assert(in_order(none));
    lemma_visited_members(c, none, 0, x);
    if h.contains(x) && x != c {
        let i = h.index_of(x);
        assert(v[i] == x);
    }
    if v.contains(x) {
        let i = v.index_of(x);
        assert(h[i] == x);
    }
}

proof fn lemma_visited_members(c: CommitView, seen: Seq<CommitView>, j: int, x: CommitView)
    requires
        in_order(seen),
        0 <= j <= c.parents.len(),
    ensures
        visited_from(c, seen, j).contains(x) <==> seen.contains(x) || exists|i: int|
            j <= i < c.parents.len() && #[trigger] history(c.parents[i]).contains(x),
    decreases c.parents.len() - j,
{
    if j < c.parents.len() {
        let p = c.parents[j];
        let none = Seq::<CommitView>::empty();
        let mid = finished(p, seen);
        assert(in_order(none));
        lemma_finished_order(p, seen);
        lemma_finished_after(p, none, seen);
        assert(then_new(seen, none) =~= seen);
        lemma_then_new(seen, history(p), x);
        lemma_visited_members(c, mid, j + 1, x);
        if exists|i: int|
            j <= i < c.parents.len() && #[trigger] history(c.parents[i]).contains(x) {
            let i = choose|i: int|
                j <= i < c.parents.len() && #[trigger] history(c.parents[i]).contains(x);
            if i == j {
                assert(mid.contains(x));
            }
        }
    }
}

} // verus!
