//! The history of a commit, oldest first.

use crate::arena::{at, commit, is_commit, lemma_commit_injective, Arena, CommitView, Oid};
use crate::repo::{commits, Repo};
use vstd::prelude::*;

verus! {

/// The commits in `seen`, then those that lead to the parents of `c` from the `j`th on.
pub open spec fn visited_from(c: CommitView, seen: Seq<CommitView>, j: int) -> Seq<CommitView>
    decreases c, 0int, c.parents.len() - j,
{
    if 0 <= j < c.parents.len() {
        visited_from(c, finished(c.parents[j], seen), j + 1)
    } else {
        seen
    }
}

/// The commits in `seen`, then those that lead to `c`, then `c`.
pub open spec fn finished(c: CommitView, seen: Seq<CommitView>) -> Seq<CommitView>
    decreases c, 1int, 0int,
{
    if seen.contains(c) {
        seen
    } else {
        visited_from(c, seen, 0).push(c)
    }
}

/// The commit and all that it follows, each once, with none before one that it follows.
pub open spec fn history(c: CommitView) -> Seq<CommitView> {
    finished(c, Seq::empty())
}

/// The greatest number of the first `k` parents, one of which follows the other.
pub open spec fn parents_depth(c: CommitView, k: int) -> nat
    decreases c, 0int, k,
{
    if 0 < k <= c.parents.len() {
        let d = depth(c.parents[k - 1]);
        let e = parents_depth(c, k - 1);
        if d > e {
            d
        } else {
            e
        }
    } else {
        0
    }
}

/// How many commits there are in the longest row of which each follows the next.
pub open spec fn depth(c: CommitView) -> nat
    decreases c, 1int, 0int,
{
    parents_depth(c, c.parents.len() as int) + 1
}

proof fn lemma_parents_depth(c: CommitView, k: int, j: int)
    requires
        0 <= j < k <= c.parents.len(),
    ensures
        depth(c.parents[j]) <= parents_depth(c, k),
    decreases k,
{
    if j < k - 1 {
        lemma_parents_depth(c, k - 1, j);
    }
}

/// A commit is deeper than those that it follows.
pub proof fn lemma_depth(c: CommitView, j: int)
    requires
        0 <= j < c.parents.len(),
    ensures
        depth(c.parents[j]) < depth(c),
{
    lemma_parents_depth(c, c.parents.len() as int, j);
}

proof fn lemma_visited_depth(c: CommitView, seen: Seq<CommitView>, j: int, x: CommitView)
    requires
        visited_from(c, seen, j).contains(x),
    ensures
        seen.contains(x) || depth(x) < depth(c),
    decreases c, 0int, c.parents.len() - j,
{
    if 0 <= j < c.parents.len() {
        lemma_visited_depth(c, finished(c.parents[j], seen), j + 1, x);
        if finished(c.parents[j], seen).contains(x) {
            lemma_finished_depth(c.parents[j], seen, x);
            lemma_depth(c, j);
        }
    }
}

/// The commits that lead to `c` are no deeper than it.
pub proof fn lemma_finished_depth(c: CommitView, seen: Seq<CommitView>, x: CommitView)
    requires
        finished(c, seen).contains(x),
    ensures
        seen.contains(x) || depth(x) <= depth(c),
    decreases c, 1int, 0int,
{
    if !seen.contains(c) {
        let v = visited_from(c, seen, 0);
        let i = v.push(c).index_of(x);
        if i < v.len() {
            assert(v[i] == x);
            lemma_visited_depth(c, seen, 0, x);
        }
    }
}

/// Each commit stands once, and after those that it follows.
pub open spec fn in_order(cs: Seq<CommitView>) -> bool {
    &&& cs.no_duplicates()
    &&& forall|i: int, j: int|
        0 <= i < cs.len() && 0 <= j < cs[i].parents.len() ==> cs.take(i).contains(
            #[trigger] cs[i].parents[j],
        )
}

pub proof fn lemma_visited_order(c: CommitView, seen: Seq<CommitView>, j: int)
    requires
        in_order(seen),
        0 <= j <= c.parents.len(),
    ensures
        ({
            let v = visited_from(c, seen, j);
            &&& in_order(v)
            &&& seen.len() <= v.len()
            &&& v.take(seen.len() as int) == seen
            &&& forall|i: int| j <= i < c.parents.len() ==> v.contains(#[trigger] c.parents[i])
        }),
    decreases c, 0int, c.parents.len() - j,
{
    if j < c.parents.len() {
        let p = c.parents[j];
        let mid = finished(p, seen);
        lemma_finished_order(p, seen);
        lemma_visited_order(c, mid, j + 1);
        let v = visited_from(c, mid, j + 1);
        assert(v.take(seen.len() as int) =~= mid.take(seen.len() as int)) by {
            assert forall|i: int| 0 <= i < seen.len() implies v[i] == mid[i] by {
                assert(v.take(mid.len() as int)[i] == mid[i]);
            }
        }
        assert(v.contains(p)) by {
            let i = mid.index_of(p);
            assert(v.take(mid.len() as int)[i] == mid[i]);
            assert(v[i] == p);
        }
    } else {
        assert(seen.take(seen.len() as int) =~= seen);
    }
}

pub proof fn lemma_finished_order(c: CommitView, seen: Seq<CommitView>)
    requires
        in_order(seen),
    ensures
        ({
            let v = finished(c, seen);
            &&& in_order(v)
            &&& seen.len() <= v.len()
            &&& v.take(seen.len() as int) == seen
            &&& v.contains(c)
        }),
    decreases c, 1int, 0int,
{
    if seen.contains(c) {
        assert(seen.take(seen.len() as int) =~= seen);
    } else {
        let w = visited_from(c, seen, 0);
        let v = w.push(c);
        lemma_visited_order(c, seen, 0);
        assert(!w.contains(c)) by {
            if w.contains(c) {
                lemma_visited_depth(c, seen, 0, c);
            }
        }
        assert(v[w.len() as int] == c);
        assert(v.take(seen.len() as int) =~= w.take(seen.len() as int));
        assert(v.no_duplicates()) by {
            assert forall|i: int, k: int| 0 <= i < k < v.len() implies v[i] != v[k] by {
                if k == w.len() {
                    assert(w.contains(w[i]));
                }
            }
        }
        assert forall|i: int, j: int|
            0 <= i < v.len() && 0 <= j < v[i].parents.len() implies v.take(i).contains(
            #[trigger] v[i].parents[j],
        ) by {
            if i < w.len() {
                assert(w.take(i).contains(w[i].parents[j]));
                assert(v.take(i) =~= w.take(i));
            } else {
                assert(w.contains(c.parents[j]));
                assert(v.take(i) =~= w);
            }
        }
    }
}

/// The history of a commit has each commit once, after all that it follows, and ends with
/// the commit.
pub proof fn law_history_order(c: CommitView)
    ensures
        in_order(history(c)),
        history(c).len() > 0,
        history(c).last() == c,
{
    let none = Seq::<CommitView>::empty();
    assert(in_order(none));
    lemma_finished_order(c, none);
}

/// A commit on the way: its parents before `next` have been visited.
pub struct Step {
    pub oid: Oid,
    pub parents: Vec<Oid>,
    pub next: usize,
}

/// What the list becomes once all commits on the way were finished.
pub open spec fn completed(a: Arena, stack: Seq<Step>, seen: Seq<CommitView>) -> Seq<CommitView>
    decreases stack.len(),
{
    if stack.len() == 0 {
        seen
    } else {
        let c = commit(a, stack.last().oid);
        completed(a, stack.drop_last(), visited_from(c, seen, stack.last().next as int).push(c))
    }
}

/// How many of the marks are not set.
pub open spec fn unset(marks: Seq<bool>) -> nat
    decreases marks.len(),
{
    if marks.len() == 0 {
        0
    } else {
        unset(marks.drop_last()) + if marks.last() {
            0nat
        } else {
            1nat
        }
    }
}

proof fn lemma_unset(marks: Seq<bool>, i: int)
    requires
        0 <= i < marks.len(),
        !marks[i],
    ensures
        unset(marks.update(i, true)) + 1 == unset(marks),
    decreases marks.len(),
{
    let m = marks.update(i, true);
    if i == marks.len() - 1 {
        assert(m.drop_last() =~= marks.drop_last());
    } else {
        assert(m.drop_last() =~= marks.drop_last().update(i, true));
        lemma_unset(marks.drop_last(), i);
    }
}

/// The steps lead from a commit to ever older ones.
pub open spec fn steps_wf(a: Arena, stack: Seq<Step>) -> bool {
    forall|i: int|
        0 <= i < stack.len() ==> {
            let s = #[trigger] stack[i];
            &&& is_commit(a, s.oid)
            &&& commits(a, s.parents@) == commit(a, s.oid).parents
            &&& s.next <= s.parents@.len()
            &&& forall|j: int|
                0 <= j < s.parents@.len() ==> is_commit(a, #[trigger] s.parents@[j]) && at(
                    s.parents@[j],
                ) < at(s.oid)
        }
}

/// The steps before the last are at commits that lead on to the last.
pub open spec fn steps_descend(stack: Seq<Step>) -> bool {
    forall|i: int, j: int|
        0 <= i < j < stack.len() ==> at((#[trigger] stack[j]).oid) < at((#[trigger] stack[i]).oid)
}

/// The marks tell which commits are in the list.
pub open spec fn marked(a: Arena, marks: Seq<bool>, out: Seq<Oid>) -> bool {
    &&& marks.len() == a.len()
    &&& forall|i: int|
        0 <= i < marks.len() ==> (#[trigger] marks[i] <==> out.contains(Oid::Object(i as usize)))
    &&& forall|i: int| 0 <= i < out.len() ==> is_commit(a, #[trigger] out[i])
}

proof fn lemma_marked(a: Arena, marks: Seq<bool>, out: Seq<Oid>, o: Oid)
    requires
        crate::arena::arena_wf(a),
        marked(a, marks, out),
        is_commit(a, o),
    ensures
        marks[at(o)] == commits(a, out).contains(commit(a, o)),
{
    let cs = commits(a, out);
    if marks[at(o)] {
        assert(out.contains(Oid::Object(at(o) as usize)));
        let i = out.index_of(o);
        assert(cs[i] == commit(a, o));
    }
    if cs.contains(commit(a, o)) {
        let i = cs.index_of(commit(a, o));
        assert(is_commit(a, out[i]));
        lemma_commit_injective(a, out[i], o);
        assert(out[i] == o);
        assert(out.contains(o));
    }
}

/// The commit and all that it follows, oldest first.
pub fn revwalk(repo: &Repo, start: Oid) -> (r: Vec<Oid>)
    requires
        repo.wf(),
        is_commit(repo@, start),
    ensures
        forall|i: int| 0 <= i < r@.len() ==> is_commit(repo@, #[trigger] r@[i]),
        commits(repo@, r@) == history(commit(repo@, start)),
{
    let ghost a = repo@;
    let ghost whole = history(commit(a, start));
    let n: usize = repo.count();
    let mut marks: Vec<bool> = Vec::new();
    while marks.len() < n
        invariant
            marks@.len() <= n,
            forall|i: int| 0 <= i < marks@.len() ==> !#[trigger] marks@[i],
        decreases n - marks@.len(),
    {
        marks.push(false);
    }
    let mut out: Vec<Oid> = Vec::new();
    let mut stack: Vec<Step> = Vec::new();
    let first = repo.parents_of(start);
    stack.push(Step { oid: start, parents: first, next: 0 });
    proof {
        assert(commits(a, out@) =~= Seq::<CommitView>::empty());
        assert(stack@.drop_last() =~= Seq::<Step>::empty());
        assert(completed(a, stack@.drop_last(), whole) == whole);
        assert(completed(a, stack@, commits(a, out@)) == whole);
    }
    while stack.len() > 0
        invariant
            repo.wf(),
            a == repo@,
            n == a.len(),
            whole == history(commit(a, start)),
            steps_wf(a, stack@),
            steps_descend(stack@),
            marked(a, marks@, out@),
            forall|i: int| 0 <= i < stack@.len() ==> !marks@[at((#[trigger] stack@[i]).oid)],
            completed(a, stack@, commits(a, out@)) == whole,
        decreases
            unset(marks@),
            (if stack@.len() > 0 {
                at(stack@.last().oid)
            } else {
                0int
            }),
            (if stack@.len() > 0 {
                stack@.last().parents@.len() - stack@.last().next
            } else {
                0int
            }),
    {
        let top = match stack.pop() {
            Some(top) => top,
            None => {
                return out;
            },
        };
        let ghost rest = stack@;
        let ghost c = commit(a, top.oid);
        let ghost seen = commits(a, out@);
        assert(steps_wf(a, rest.push(top)));
        assert(rest.push(top)[rest.len() as int] == top);
        assert(rest.push(top).drop_last() =~= rest);
        let Step { oid, parents, next } = top;
        if next < parents.len() {
            let p: Oid = parents[next];
            let k: usize = match p {
                Oid::Object(k) => k,
                Oid::Zero => 0,
            };
            proof {
                lemma_marked(a, marks@, out@, p);
                assert(commits(a, parents@)[next as int] == commit(a, p));
            }
            let ghost old_top = top;
            stack.push(Step { oid, parents, next: next + 1 });
            let ghost mid = stack@;
            proof {
                assert(mid.drop_last() =~= rest);
                let more = finished(commit(a, p), seen);
                assert(c.parents[next as int] == commit(a, p));
                assert(visited_from(c, seen, next as int) == visited_from(c, more, next + 1));
                assert(completed(a, mid, more) == whole);
                assert(steps_wf(a, mid)) by {
                    assert forall|i: int| 0 <= i < mid.len() implies {
                        let s = #[trigger] mid[i];
                        &&& is_commit(a, s.oid)
                        &&& commits(a, s.parents@) == commit(a, s.oid).parents
                        &&& s.next <= s.parents@.len()
                        &&& forall|j: int|
                            0 <= j < s.parents@.len() ==> is_commit(
                                a,
                                #[trigger] s.parents@[j],
                            ) && at(
                                s.parents@[j],
                            ) < at(s.oid)
                    } by {
                        if i < rest.len() {
                            assert(mid[i] == rest.push(old_top)[i]);
                        }
                    }
                }
                assert(steps_descend(mid)) by {
                    assert forall|i: int, j: int| 0 <= i < j < mid.len() implies at(
                        (#[trigger] mid[j]).oid,
                    ) < at((#[trigger] mid[i]).oid) by {
                        assert(rest.push(old_top)[i].oid == mid[i].oid);
                        assert(rest.push(old_top)[j].oid == mid[j].oid);
                    }
                }
            }
            if !marks[k] {
                let grand = repo.parents_of(p);
                stack.push(Step { oid: p, parents: grand, next: 0 });
                proof {
                    assert(stack@.drop_last() =~= mid);
                    assert(stack@.last().next == 0);
                    assert(finished(commit(a, p), seen) == visited_from(commit(a, p), seen, 0).push(
                        commit(a, p),
                    ));
                }
            }
        } else {
            let k: usize = match oid {
                Oid::Object(k) => k,
                Oid::Zero => 0,
            };
            proof {
                lemma_unset(marks@, k as int);
                assert forall|i: int| 0 <= i < rest.len() implies at(
                    (#[trigger] rest[i]).oid,
                ) != k by {
                    assert(rest.push(top)[i] == rest[i]);
                    assert(at(rest.push(top)[rest.len() as int].oid) < at(rest.push(top)[i].oid));
                }
            }
            let ghost was = out@;
            marks.set(k, true);
            out.push(oid);
            proof {
                assert(commits(a, out@) =~= seen.push(c));
                assert forall|i: int| 0 <= i < marks@.len() implies (#[trigger] marks@[i]
                    <==> out@.contains(Oid::Object(i as usize))) by {
                    let x = Oid::Object(i as usize);
                    if was.contains(x) {
                        let j = was.index_of(x);
                        assert(out@[j] == x);
                    }
                    if i == k {
                        assert(out@[was.len() as int] == x);
                    }
                    if out@.contains(x) {
                        let j = out@.index_of(x);
                        if j < was.len() {
                            assert(was[j] == x);
                        }
                    }
                }
            }
        }
    }
    out
}

} // verus!
