//! A chain all of whose parts but one keep everything has the text of that part, and shares
//! with it what is known. Filtering history by such a chain keeps what is known forward and
//! what is known backward in step.

use crate::apply::{apply_tree, workspace};
use crate::arena::CommitView;
use crate::commits::{
    apply_commit, cached, created, distinct, filtered_list, filtered_parents, folded, height, known,
    lines_text, mount_texts, present, recalled, recorded, rewritten, selected_parents,
    with_new_mounts, workspace_commit, workspace_parents, workspace_tree_and_parents, MapsView,
    WorkspaceParents,
};
use crate::error::ErrorView;
use crate::filter::{combine_text, spec_text, values_text, CombineView, FilterView};
use crate::grammar::checked_combine;
use crate::history_laws::{
    all_linked, inherited, lemma_linked_apply, lemma_linked_cached, lemma_present_all,
    lemma_present_in, outcome, rooted, Link,
};
use crate::node::{Dir, Rules};
use crate::step_laws::{
    is_over_nothing, lemma_frame_apply, lemma_frame_cached, lemma_frame_new_mounts,
    lemma_over_nothing, lemma_step, lemma_workspace_own_text, records, same_under,
};
use crate::text::trim_end;
use crate::walk::{
    depth, finished, history, in_order, law_history_order, lemma_depth, lemma_finished_depth,
    visited_from,
};
use vstd::prelude::*;

verus! {

/// A filter whose results are known under its own text.
pub open spec fn is_leaf(f: FilterView) -> bool {
    !(f is Chain) && !(f is Cutoff)
}

/// The filtered commits that are known under the text have files at their roots.
pub open spec fn rooted_values(s: MapsView, text: Seq<char>) -> bool {
    forall|x: CommitView| #[trigger]
        known(s, text, x) ==> (recalled(s, text, x) matches Some(y) ==> rooted(y))
}

/// The filtered commits that are known for the filter have files at their roots, as all
/// those have that filtering makes; for a workspace, also those that are known for what new
/// mounts find.
pub open spec fn values_right(s: MapsView, f: FilterView) -> bool {
    &&& rooted_values(s, spec_text(f))
    &&& f is Workspace ==> forall|u: Seq<char>| is_over_nothing(u) ==> #[trigger] rooted_values(
        s,
        u,
    )
}

/// What was known under the text stays known. Where the backward map changed, it leads to a
/// commit for which the filtered commit is known; with files at its root, where all commits
/// that were filtered have such.
pub open spec fn gains(s: MapsView, t: MapsView, text: Seq<char>, root: bool) -> bool {
    &&& forall|x: CommitView|
        known(s, text, x) ==> #[trigger] known(t, text, x) && recalled(t, text, x) == recalled(
            s,
            text,
            x,
        )
    &&& forall|v: Option<CommitView>|
        s.backward.dom().contains((text, v)) ==> #[trigger] t.backward.dom().contains((text, v))
    &&& forall|v: Option<CommitView>| #[trigger]
        t.backward.dom().contains((text, v)) ==> {
            ||| s.backward.dom().contains((text, v)) && t.backward[(text, v)] == s.backward[(
                text,
                v,
            )]
            ||| t.backward[(text, v)] matches Some(q) && known(t, text, q) && recalled(t, text, q)
                == v && (root ==> rooted(q))
        }
}

/// What became known under the text is no deeper than the bound.
pub open spec fn fresh(s: MapsView, t: MapsView, text: Seq<char>, bound: int) -> bool {
    forall|x: CommitView|
        !known(s, text, x) && #[trigger] known(t, text, x) ==> depth(x) <= bound
}

proof fn lemma_gains_on(s: MapsView, t: MapsView, u: MapsView, text: Seq<char>, root: bool)
    requires
        gains(s, t, text, root),
        gains(t, u, text, root),
    ensures
        gains(s, u, text, root),
{
    assert forall|x: CommitView| known(s, text, x) implies #[trigger] known(u, text, x)
        && recalled(u, text, x) == recalled(s, text, x) by {
        assert(known(t, text, x));
        assert(known(u, text, x));
    }
    assert forall|v: Option<CommitView>|
        s.backward.dom().contains((text, v)) implies #[trigger] u.backward.dom().contains(
            (text, v),
        ) by {
        assert(t.backward.dom().contains((text, v)));
    }
    assert forall|v: Option<CommitView>| #[trigger] u.backward.dom().contains((text, v)) implies {
        ||| s.backward.dom().contains((text, v)) && u.backward[(text, v)] == s.backward[(text, v)]
        ||| u.backward[(text, v)] matches Some(q) && known(u, text, q) && recalled(u, text, q) == v
            && (root ==> rooted(q))
    } by {
        if t.backward.dom().contains((text, v)) && u.backward[(text, v)] == t.backward[(text, v)] {
            if let Some(q) = t.backward[(text, v)] {
                if known(t, text, q) {
                    assert(known(u, text, q));
                }
            }
        }
    }
}

proof fn lemma_fresh_on(s: MapsView, t: MapsView, u: MapsView, text: Seq<char>, bound: int)
    requires
        fresh(s, t, text, bound),
        fresh(t, u, text, bound),
    ensures
        fresh(s, u, text, bound),
{
    assert forall|x: CommitView|
        !known(s, text, x) && #[trigger] known(u, text, x) implies depth(x) <= bound by {
        if known(t, text, x) {
        }
    }
}

proof fn lemma_same_gains(s: MapsView, t: MapsView, text: Seq<char>, root: bool, bound: int)
    requires
        same_under(s, t, text),
    ensures
        gains(s, t, text, root),
        fresh(s, t, text, bound),
        rooted_values(s, text) ==> rooted_values(t, text),
{
    assert forall|x: CommitView| #[trigger] known(t, text, x) == known(s, text, x) && recalled(
        t,
        text,
        x,
    ) == recalled(s, text, x) by {
        assert(t.forward.dom().contains((text, Some(x))) == s.forward.dom().contains(
            (text, Some(x)),
        ));
    }
}

proof fn lemma_created_rooted(c: CommitView, parents: Seq<CommitView>, tree: Dir)
    requires
        forall|i: int| 0 <= i < parents.len() ==> rooted(#[trigger] parents[i]),
    ensures
        created(c, parents, tree) matches Some(y) ==> rooted(y),
{
    let selected = selected_parents(c, tree, parents);
    if selected.len() == 0 && parents.len() > 0 {
        assert(rooted(parents[0]));
    } else {
        let y = rewritten(c, selected, tree);
        assert(selected == parents || selected.len() == 0);
        assert forall|i: int| 0 <= i < y.parents.len() implies rooted(#[trigger] y.parents[i]) by {
            assert(y.parents[i] == parents[i]);
        }
    }
}

proof fn lemma_present_rooted(vs: Seq<Option<CommitView>>)
    requires
        forall|i: int| 0 <= i < vs.len() ==> (#[trigger] vs[i] matches Some(y) ==> rooted(y)),
    ensures
        forall|j: int|
            0 <= j < present(vs, vs.len() as int).len() ==> rooted(
                #[trigger] present(vs, vs.len() as int)[j],
            ),
{
    let ps = present(vs, vs.len() as int);
    assert forall|j: int| 0 <= j < ps.len() implies rooted(#[trigger] ps[j]) by {
        lemma_present_in(vs, vs.len() as int, j);
        let i = choose|i: int| 0 <= i < vs.len() && #[trigger] vs[i] == Some(ps[j]);
        assert(vs[i] matches Some(y) ==> rooted(y));
    }
}

proof fn lemma_visited_rooted(c: CommitView, seen: Seq<CommitView>, j: int, x: CommitView)
    requires
        visited_from(c, seen, j).contains(x),
        rooted(c),
    ensures
        seen.contains(x) || rooted(x),
    decreases c, 0int, c.parents.len() - j,
{
    if 0 <= j < c.parents.len() {
        lemma_visited_rooted(c, finished(c.parents[j], seen), j + 1, x);
        if finished(c.parents[j], seen).contains(x) {
            assert(rooted(c.parents[j]));
            lemma_finished_rooted(c.parents[j], seen, x);
        }
    }
}

/// Where the first commits of a history have files, this is so of each commit in it.
proof fn lemma_finished_rooted(c: CommitView, seen: Seq<CommitView>, x: CommitView)
    requires
        finished(c, seen).contains(x),
        rooted(c),
    ensures
        seen.contains(x) || rooted(x),
    decreases c, 1int, 0int,
{
    if !seen.contains(c) {
        let v = visited_from(c, seen, 0);
        let i = v.push(c).index_of(x);
        if i < v.len() {
            assert(v[i] == x);
            lemma_visited_rooted(c, seen, 0, x);
        }
    }
}

proof fn lemma_own_parents(
    rules: Rules,
    f: FilterView,
    c: CommitView,
    s: MapsView,
    n: nat,
    k: int,
    root: bool,
)
    requires
        is_leaf(f),
        root ==> rooted(c),
        0 <= k <= c.parents.len(),
    ensures
        ({
            let ps = filtered_parents(rules, f, c, s, n, k);
            &&& gains(s, ps.1, spec_text(f), root)
            &&& fresh(s, ps.1, spec_text(f), depth(c) - 1)
            &&& ps.0.len() == k
            &&& values_right(s, f) ==> values_right(ps.1, f) && forall|i: int|
                0 <= i < k ==> (#[trigger] ps.0[i] matches Some(y) ==> rooted(y))
        }),
    decreases height(f), depth(c), 0int, k,
{
    let text = spec_text(f);
    if k > 0 {
        lemma_own_parents(rules, f, c, s, n, k - 1, root);
        lemma_depth(c, k - 1);
        let ps = filtered_parents(rules, f, c, s, n, k - 1);
        let p = c.parents[k - 1];
        assert(root ==> rooted(p));
        lemma_own_cached(rules, f, p, ps.1, n, root);
        let x = cached(rules, f, p, ps.1, n);
        assert(filtered_parents(rules, f, c, s, n, k) == (ps.0.push(x.0), x.1));
        lemma_gains_on(s, ps.1, x.1, text, root);
        lemma_fresh_on(s, ps.1, x.1, text, depth(c) - 1);
    }
}

proof fn lemma_own_workspace_parents(
    rules: Rules,
    path: Seq<char>,
    c: CommitView,
    s: MapsView,
    n: nat,
    lines: Seq<Seq<char>>,
    k: int,
    root: bool,
)
    requires
        root ==> rooted(c),
        0 <= k <= c.parents.len(),
    ensures
        ({
            let f = FilterView::Workspace(path);
            let ps = workspace_parents(rules, path, c, s, n, lines, k);
            &&& gains(s, ps.1, spec_text(f), root)
            &&& fresh(s, ps.1, spec_text(f), depth(c) - 1)
            &&& values_right(s, f) ==> values_right(ps.1, f) && (ps.0 matches Ok(w) ==> forall|
                i: int,
            |
                0 <= i < w.commits.len() ==> rooted(#[trigger] w.commits[i]))
        }),
    decreases 1nat, depth(c), 0int, k,
{
    let f = FilterView::Workspace(path);
    let text = spec_text(f);
    if k > 0 {
        lemma_own_workspace_parents(rules, path, c, s, n, lines, k - 1, root);
        lemma_depth(c, k - 1);
        let before = workspace_parents(rules, path, c, s, n, lines, k - 1);
        if before.0 is Ok {
            let p = c.parents[k - 1];
            assert(root ==> rooted(p));
            lemma_own_cached(rules, f, p, before.1, n, root);
            let x = cached(rules, f, p, before.1, n);
            assert(workspace_parents(rules, path, c, s, n, lines, k).1 == x.1);
            lemma_gains_on(s, before.1, x.1, text, root);
            lemma_fresh_on(s, before.1, x.1, text, depth(c) - 1);
        }
    }
}

/// What new mounts find leaves the text of the workspace alone.
proof fn lemma_own_new_mounts(
    rules: Rules,
    path: Seq<char>,
    c: CommitView,
    w: WorkspaceParents,
    s: MapsView,
    n: nat,
)
    ensures
        ({
            let f = FilterView::Workspace(path);
            let x = with_new_mounts(rules, c, w, s, n);
            &&& same_under(s, x.1, spec_text(f))
            &&& values_right(s, f) && (forall|i: int|
                0 <= i < w.commits.len() ==> rooted(#[trigger] w.commits[i])) ==> values_right(
                    x.1,
                    f,
                )
                && (x.0 matches Ok(ps) ==> forall|i: int|
                0 <= i < ps.len() ==> rooted(#[trigger] ps[i]))
        }),
    decreases 1nat, depth(c), 0int, 0int,
{
    let f = FilterView::Workspace(path);
    lemma_workspace_own_text(path);
    lemma_frame_new_mounts(rules, c, w, s, n, spec_text(f));
    let x = with_new_mounts(rules, c, w, s, n);
    lemma_same_gains(s, x.1, spec_text(f), false, 0);
    let t = lines_text(w.lines, w.lines.len() as int);
    if let Ok(pcw) = checked_combine(t, FilterView::Empty) {
        if c.parents.len() > 0 && values_right(s, f) && forall|i: int|
            0 <= i < w.commits.len() ==> rooted(#[trigger] w.commits[i]) {
            let m = FilterView::Combine(pcw);
            lemma_over_nothing(pcw, pcw.mounts.len() as int);
            assert(is_over_nothing(spec_text(m)));
            assert(rooted_values(s, spec_text(m)));
            lemma_depth(c, 0);
            lemma_own_apply(rules, m, c.parents[0], s, n, false);
            let y = apply_commit(rules, m, c.parents[0], s, n);
            assert(x.1 == y.1);
            assert forall|u: Seq<char>| is_over_nothing(u) implies #[trigger] rooted_values(
                x.1,
                u,
            ) by {
                if u != spec_text(m) {
                    assert(rooted_values(s, u));
                    lemma_frame_apply(rules, m, c.parents[0], s, n, u);
                    lemma_same_gains(s, y.1, u, false, 0);
                }
            }
        }
    }
}

proof fn lemma_own_workspace(
    rules: Rules,
    path: Seq<char>,
    c: CommitView,
    s: MapsView,
    n: nat,
    root: bool,
)
    requires
        root ==> rooted(c),
    ensures
        ({
            let f = FilterView::Workspace(path);
            let x = workspace_commit(rules, path, c, s, n);
            &&& gains(s, x.1, spec_text(f), root)
            &&& fresh(s, x.1, spec_text(f), depth(c) - 1)
            &&& values_right(s, f) ==> values_right(x.1, f) && (x.0 matches Ok(Some(y))
                ==> rooted(y))
        }),
    decreases 1nat, depth(c), 0int, c.parents.len() + 2,
{
    let f = FilterView::Workspace(path);
    let text = spec_text(f);
    let x = workspace_tree_and_parents(rules, path, c, s, n);
    assert(workspace_commit(rules, path, c, s, n).1 == x.1);
    match workspace(c.tree, path) {
        Err(_) => {
            lemma_same_gains(s, x.1, text, root, depth(c) - 1);
        },
        Ok(cw) => {
            let mounts = mount_texts(cw);
            let lines = distinct(mounts, mounts.len() as int);
            let len = c.parents.len() as int;
            lemma_own_workspace_parents(rules, path, c, s, n, lines, len, root);
            let ps = workspace_parents(rules, path, c, s, n, lines, len);
            if let Ok(w) = ps.0 {
                lemma_own_new_mounts(rules, path, c, w, ps.1, n);
                let y = with_new_mounts(rules, c, w, ps.1, n);
                assert(x.1 == y.1);
                lemma_same_gains(ps.1, y.1, text, root, depth(c) - 1);
                lemma_gains_on(s, ps.1, y.1, text, root);
                lemma_fresh_on(s, ps.1, y.1, text, depth(c) - 1);
                if values_right(s, f) {
                    if let Ok((t, parents)) = x.0 {
                        lemma_created_rooted(c, parents, t);
                    }
                }
            }
        },
    }
}

/// What filtering a commit records under the text of a filter that is no chain.
proof fn lemma_own_apply(
    rules: Rules,
    f: FilterView,
    c: CommitView,
    s: MapsView,
    n: nat,
    root: bool,
)
    requires
        is_leaf(f),
        root ==> rooted(c),
    ensures
        ({
            let x = apply_commit(rules, f, c, s, n);
            &&& gains(s, x.1, spec_text(f), root)
            &&& fresh(s, x.1, spec_text(f), depth(c) - 1)
            &&& values_right(s, f) ==> values_right(x.1, f) && (x.0 matches Ok(Some(y))
                ==> rooted(y))
        }),
    decreases height(f), depth(c), 1int, 0int,
{
    let text = spec_text(f);
    let x = apply_commit(rules, f, c, s, n);
    if known(s, text, c) {
        lemma_same_gains(s, x.1, text, root, depth(c) - 1);
    } else {
        match f {
            FilterView::Workspace(path) => {
                lemma_own_workspace(rules, path, c, s, n, root);
            },
            FilterView::Fold => {
                lemma_own_parents(rules, f, c, s, n, c.parents.len() as int, root);
                if values_right(s, f) {
                    let ps = filtered_parents(rules, f, c, s, n, c.parents.len() as int);
                    lemma_present_rooted(ps.0);
                    let there = present(ps.0, ps.0.len() as int);
                    if let Ok(t) = folded(rules, c.tree, there, there.len() as int) {
                        lemma_created_rooted(c, there, t);
                    }
                }
            },
            _ => {
                lemma_same_gains(s, s, text, root, depth(c) - 1);
                if let Ok(t) = apply_tree(rules, f, c.tree, n) {
                    lemma_own_parents(rules, f, c, s, n, c.parents.len() as int, root);
                    if values_right(s, f) {
                        let ps = filtered_parents(rules, f, c, s, n, c.parents.len() as int);
                        lemma_present_rooted(ps.0);
                        lemma_created_rooted(c, present(ps.0, ps.0.len() as int), t);
                    }
                }
            },
        }
    }
}

/// What is recorded of a commit after it was filtered.
proof fn lemma_own_record(
    f: FilterView,
    s: MapsView,
    c: CommitView,
    v: Option<CommitView>,
    root: bool,
)
    requires
        root ==> rooted(c),
        known(s, spec_text(f), c) ==> recalled(s, spec_text(f), c) == v,
    ensures
        gains(s, recorded(s, spec_text(f), c, v), spec_text(f), root),
        fresh(s, recorded(s, spec_text(f), c, v), spec_text(f), depth(c) as int),
        known(recorded(s, spec_text(f), c, v), spec_text(f), c),
        recalled(recorded(s, spec_text(f), c, v), spec_text(f), c) == v,
{
}

/// The filtered commits that are known stay right once one that is right was recorded.
proof fn lemma_record_values(
    f: FilterView,
    s: MapsView,
    c: CommitView,
    v: Option<CommitView>,
)
    requires
        values_right(s, f),
        v matches Some(y) ==> rooted(y),
    ensures
        values_right(recorded(s, spec_text(f), c, v), f),
{
    let t = recorded(s, spec_text(f), c, v);
    assert forall|u: Seq<char>| rooted_values(s, u) implies #[trigger] rooted_values(t, u) by {
        assert forall|x: CommitView| #[trigger] known(
            t,
            u,
            x,
        ) implies (recalled(t, u, x) matches Some(
            y,
        ) ==> rooted(y)) by {
            if (u, Some(x)) != (spec_text(f), Some(c)) {
                assert(known(s, u, x));
            }
        }
    }
}

proof fn lemma_own_list(
    rules: Rules,
    f: FilterView,
    list: Seq<CommitView>,
    bound: nat,
    s: MapsView,
    n: nat,
    k: int,
    root: bool,
)
    requires
        is_leaf(f),
        0 <= k <= list.len(),
        forall|i: int|
            0 <= i < list.len() ==> depth(
                #[trigger] list[i],
            ) <= bound && (root ==> rooted(list[i])),
    ensures
        ({
            let t = filtered_list(rules, f, list, bound, s, n, k);
            &&& gains(s, t, spec_text(f), root)
            &&& fresh(s, t, spec_text(f), bound as int)
            &&& values_right(s, f) ==> values_right(t, f)
            &&& forall|i: int| 0 <= i < k ==> known(t, spec_text(f), #[trigger] list[i])
        }),
    decreases height(f), bound, 2int, k,
{
    let text = spec_text(f);
    if k > 0 {
        lemma_own_list(rules, f, list, bound, s, n, k - 1, root);
        let before = filtered_list(rules, f, list, bound, s, n, k - 1);
        let c = list[k - 1];
        assert(depth(c) <= bound);
        lemma_own_apply(rules, f, c, before, n, root);
        let x = apply_commit(rules, f, c, before, n);
        let v = match x.0 {
            Ok(v) => v,
            Err(_) => None,
        };
        let t = recorded(x.1, text, c, v);
        assert(filtered_list(rules, f, list, bound, s, n, k) == t);
        lemma_own_record(f, x.1, c, v, root);
        lemma_gains_on(s, before, x.1, text, root);
        lemma_gains_on(s, x.1, t, text, root);
        assert(fresh(before, x.1, text, bound as int));
        lemma_fresh_on(s, before, x.1, text, bound as int);
        assert(fresh(x.1, t, text, bound as int));
        lemma_fresh_on(s, x.1, t, text, bound as int);
        if values_right(s, f) {
            lemma_record_values(f, x.1, c, v);
        }
        assert forall|i: int| 0 <= i < k implies known(t, text, #[trigger] list[i]) by {
            if i < k - 1 {
                assert(known(before, text, list[i]));
                assert(known(x.1, text, list[i]));
            }
        }
    } else {
        lemma_same_gains(s, s, text, root, bound as int);
    }
}

proof fn lemma_own_cached(
    rules: Rules,
    f: FilterView,
    c: CommitView,
    s: MapsView,
    n: nat,
    root: bool,
)
    requires
        is_leaf(f),
        root ==> rooted(c),
    ensures
        ({
            let x = cached(rules, f, c, s, n);
            &&& gains(s, x.1, spec_text(f), root)
            &&& fresh(s, x.1, spec_text(f), depth(c) as int)
            &&& values_right(s, f) ==> values_right(x.1, f) && (x.0 matches Some(y) ==> rooted(y))
        }),
    decreases height(f), depth(c), 3int, 0int,
{
    let text = spec_text(f);
    if known(s, text, c) {
        lemma_same_gains(s, s, text, root, depth(c) as int);
    } else {
        let list = history(c);
        assert forall|i: int| 0 <= i < list.len() implies depth(#[trigger] list[i]) <= depth(c) && (
        root ==> rooted(list[i])) by {
            assert(list.contains(list[i]));
            lemma_finished_depth(c, Seq::empty(), list[i]);
            if root {
                lemma_finished_rooted(c, Seq::empty(), list[i]);
            }
        }
        lemma_own_list(rules, f, list, depth(c), s, n, list.len() as int, root);
        assert(list[list.len() - 1] == c);
        assert(known(cached(rules, f, c, s, n).1, text, c));
    }
}

/// The filter keeps everything: it is the one that does so, or a chain of such.
pub open spec fn idle(f: FilterView) -> bool
    decreases f,
{
    match f {
        FilterView::Nop => true,
        FilterView::Chain(a, b) => idle(*a) && idle(*b),
        _ => false,
    }
}

/// The filter is `g`, or a chain of `g` and filters that keep everything.
pub open spec fn padded(f: FilterView, g: FilterView) -> bool
    decreases f,
{
    f == g || match f {
        FilterView::Chain(a, b) => idle(*a) && padded(*b, g) || padded(*a, g) && idle(*b),
        _ => false,
    }
}

/// A commit with files at its root is its own filtered commit, and all filtered commits have
/// files at their roots.
pub open spec fn is_kept_rooted() -> Link {
    |c: CommitView, v: Option<CommitView>|
        (rooted(c) ==> v == Some(c)) && (v matches Some(y) ==> rooted(y))
}

/// What is known for the filter that keeps everything is right.
pub open spec fn nop_right(s: MapsView) -> bool {
    all_linked(s, spec_text(FilterView::Nop), is_kept_rooted())
}

proof fn lemma_nop_inherited(rules: Rules, n: nat)
    ensures
        inherited(rules, FilterView::Nop, n, is_kept_rooted()),
{
    let f = FilterView::Nop;
    let r = is_kept_rooted();
    assert forall|c: CommitView, vs: Seq<Option<CommitView>>|
        vs.len() == c.parents.len() && apply_tree(rules, f, c.tree, n) is Ok && (forall|i: int|
            0 <= i < vs.len() ==> r(c.parents[i], #[trigger] vs[i])) implies r(
        c,
        #[trigger] outcome(rules, f, c, vs, n),
    ) by {
        let t = c.tree;
        let there = present(vs, vs.len() as int);
        assert(apply_tree(rules, f, c.tree, n) == Ok::<Dir, ErrorView>(t));
        if rooted(c) {
            assert forall|i: int| 0 <= i < vs.len() implies #[trigger] vs[i] == Some(
                c.parents[i],
            ) by {
                assert(r(c.parents[i], vs[i]));
                assert(rooted(c.parents[i]));
            }
            lemma_present_all(vs, c.parents, vs.len() as int);
            assert(c.parents.take(vs.len() as int) =~= c.parents);
            assert(selected_parents(c, t, c.parents) == c.parents);
            assert(rewritten(c, c.parents, t) == c);
        }
        assert forall|i: int| 0 <= i < vs.len() implies (#[trigger] vs[i] matches Some(
            y,
        ) ==> rooted(
            y,
        )) by {
            assert(r(c.parents[i], vs[i]));
        }
        lemma_present_rooted(vs);
        lemma_created_rooted(c, there, t);
    }
}

/// A filter that keeps everything gives a commit with files at its root, and only such.
proof fn lemma_idle(rules: Rules, f: FilterView, c: CommitView, s: MapsView, n: nat)
    requires
        idle(f),
        nop_right(s),
    ensures
        ({
            let x = apply_commit(rules, f, c, s, n);
            &&& nop_right(x.1)
            &&& rooted(c) ==> x.0 == Ok::<Option<CommitView>, ErrorView>(Some(c))
            &&& x.0 matches Ok(Some(y)) ==> rooted(y)
        }),
    decreases f,
{
    match f {
        FilterView::Chain(a, b) => {
            lemma_idle(rules, *a, c, s, n);
            let x = apply_commit(rules, *a, c, s, n);
            if let Ok(Some(y)) = x.0 {
                lemma_idle(rules, *b, y, x.1, n);
            }
        },
        _ => {
            lemma_nop_inherited(rules, n);
            lemma_linked_apply(rules, f, c, s, n, is_kept_rooted());
        },
    }
}

proof fn lemma_idle_records(f: FilterView, text: Seq<char>)
    requires
        idle(f),
        text != spec_text(FilterView::Nop),
    ensures
        !records(f, text),
    decreases f,
{
    if let FilterView::Chain(a, b) = f {
        lemma_idle_records(*a, text);
        lemma_idle_records(*b, text);
    }
}

proof fn lemma_idle_padded(f: FilterView)
    requires
        idle(f),
    ensures
        padded(f, FilterView::Nop),
    decreases f,
{
    if let FilterView::Chain(a, b) = f {
        lemma_idle_padded(*a);
    }
}

proof fn lemma_padded_idle(f: FilterView)
    requires
        padded(f, FilterView::Nop),
    ensures
        idle(f),
    decreases f,
{
    if let FilterView::Chain(a, b) = f {
        if idle(*a) && padded(*b, FilterView::Nop) {
            lemma_padded_idle(*b);
        } else {
            lemma_padded_idle(*a);
        }
    }
}

proof fn lemma_trim_start(t: Seq<char>, c: char, k: int)
    requires
        0 <= k < t.len(),
        t[k] != c,
    ensures
        k < trim_end(t, c).len(),
        trim_end(t, c)[k] == t[k],
    decreases t.len(),
{
    if t.last() == c {
        lemma_trim_start(t.drop_last(), c, k);
    }
}

/// Only the filter that keeps everything has its text, but for chains.
proof fn lemma_nop_text(f: FilterView)
    requires
        is_leaf(f),
        spec_text(f) == spec_text(FilterView::Nop),
    ensures
        f is Nop,
{
    reveal_strlit(":nop");
    let text = spec_text(f);
    assert(text.len() == 4 && text[0] == ':' && text[1] == 'n');
    match f {
        FilterView::Nop => {},
        FilterView::Dirs => {
            reveal_strlit(":DIRS");
        },
        FilterView::Fold => {
            reveal_strlit(":FOLD");
        },
        FilterView::Empty => {
            reveal_strlit(":empty");
        },
        FilterView::Subdir(_) => {
            reveal_strlit(":/");
        },
        FilterView::Prefix(_) => {
            reveal_strlit(":prefix=");
        },
        FilterView::Hide(_) => {
            reveal_strlit(":hide=");
        },
        FilterView::Glob { .. } => {
            reveal_strlit(":~glob=");
            reveal_strlit(":glob=");
        },
        FilterView::Info(values) => {
            reveal_strlit(":INFO=");
            lemma_trim_start(
                ":INFO="@ + values_text(values, values.len() as int),
                ',',
                1,
            );
        },
        FilterView::Combine(c) => {
            lemma_combine_start(c, c.mounts.len() as int);
        },
        FilterView::Workspace(_) => {
            reveal_strlit(":workspace=");
        },
        _ => {},
    }
}

proof fn lemma_combine_start(c: CombineView, k: int)
    ensures
        combine_text(c, k).len() > 0,
        combine_text(c, k)[0] == '/',
    decreases k,
{
    reveal_strlit("/ = ");
    if 0 < k <= c.mounts.len() {
        lemma_combine_start(c, k - 1);
    }
}

/// The commit that filtering gave, or none where it failed.
pub open spec fn value_of(r: Result<Option<CommitView>, ErrorView>) -> Option<CommitView> {
    match r {
        Ok(v) => v,
        Err(_) => None,
    }
}

/// A filter that keeps everything leaves alone what is known for another filter.
proof fn lemma_idle_frame(
    rules: Rules,
    f: FilterView,
    g: FilterView,
    c: CommitView,
    s: MapsView,
    n: nat,
)
    requires
        idle(f),
        is_leaf(g),
        !(g is Nop),
    ensures
        same_under(s, apply_commit(rules, f, c, s, n).1, spec_text(g)),
        values_right(s, g) ==> values_right(apply_commit(rules, f, c, s, n).1, g),
{
    let t = apply_commit(rules, f, c, s, n).1;
    let text = spec_text(g);
    if text == spec_text(FilterView::Nop) {
        lemma_nop_text(g);
    }
    lemma_idle_records(f, text);
    lemma_frame_apply(rules, f, c, s, n, text);
    lemma_same_gains(s, t, text, true, 0);
    if values_right(s, g) && g is Workspace {
        assert forall|u: Seq<char>| is_over_nothing(u) implies #[trigger] rooted_values(t, u) by {
            assert(rooted_values(s, u));
            reveal_strlit(":nop");
            lemma_idle_records(f, u);
            lemma_frame_apply(rules, f, c, s, n, u);
            lemma_same_gains(s, t, u, true, 0);
        }
    }
}

/// What filtering a commit by one that is no chain records, where the commit has files at
/// its root or its parents are known.
proof fn lemma_leaf_step(rules: Rules, g: FilterView, c: CommitView, s: MapsView, n: nat)
    requires
        is_leaf(g),
        nop_right(s),
        values_right(s, g),
        rooted(c) || forall|i: int|
            0 <= i < c.parents.len() ==> known(s, spec_text(g), #[trigger] c.parents[i]),
    ensures
        ({
            let x = apply_commit(rules, g, c, s, n);
            &&& gains(s, x.1, spec_text(g), true)
            &&& nop_right(x.1)
            &&& values_right(x.1, g)
            &&& x.0 matches Ok(Some(y)) ==> rooted(y)
            &&& known(x.1, spec_text(g), c) ==> recalled(x.1, spec_text(g), c) == value_of(x.0)
        }),
{
    let text = spec_text(g);
    let x = apply_commit(rules, g, c, s, n);
    lemma_own_apply(rules, g, c, s, n, rooted(c));
    if !rooted(c) {
        if let FilterView::Workspace(path) = g {
            lemma_workspace_own_text(path);
        }
        lemma_step(rules, g, c, s, n, text);
        lemma_same_gains(s, x.1, text, true, 0);
    }
    if g is Nop {
        lemma_idle(rules, g, c, s, n);
    } else {
        let nop = spec_text(FilterView::Nop);
        if text == nop {
            lemma_nop_text(g);
        }
        reveal_strlit(":nop");
        lemma_frame_apply(rules, g, c, s, n, nop);
        lemma_nop_frame(s, x.1);
    }
    if known(x.1, text, c) {
        assert(known(s, text, c));
    }
}

/// What filtering a commit by a padded filter records, where the commit has files at its
/// root or its parents are known. What is known of a commit with files at its root is what
/// the filter gives.
proof fn lemma_padded_step(
    rules: Rules,
    f: FilterView,
    g: FilterView,
    c: CommitView,
    s: MapsView,
    n: nat,
)
    requires
        is_leaf(g),
        padded(f, g),
        nop_right(s),
        values_right(s, g),
        rooted(c) || forall|i: int|
            0 <= i < c.parents.len() ==> known(s, spec_text(g), #[trigger] c.parents[i]),
    ensures
        ({
            let x = apply_commit(rules, f, c, s, n);
            &&& gains(s, x.1, spec_text(g), true)
            &&& nop_right(x.1)
            &&& values_right(x.1, g)
            &&& x.0 matches Ok(Some(y)) ==> rooted(y)
            &&& rooted(c) && known(x.1, spec_text(g), c) ==> recalled(x.1, spec_text(g), c)
                == value_of(x.0)
        }),
    decreases f,
{
    let text = spec_text(g);
    if f == g {
        lemma_leaf_step(rules, g, c, s, n);
    } else if let FilterView::Chain(a, b) = f {
        let x = apply_commit(rules, *a, c, s, n);
        let whole = apply_commit(rules, f, c, s, n);
        if idle(*a) && padded(*b, g) {
            lemma_idle(rules, *a, c, s, n);
            if g is Nop {
                lemma_idle_padded(*a);
                lemma_padded_step(rules, *a, g, c, s, n);
            } else {
                lemma_idle_frame(rules, *a, g, c, s, n);
                lemma_same_gains(s, x.1, text, true, 0);
            }
            if let Ok(Some(y)) = x.0 {
                lemma_padded_step(rules, *b, g, y, x.1, n);
                lemma_gains_on(s, x.1, whole.1, text, true);
            }
        } else {
            lemma_padded_step(rules, *a, g, c, s, n);
            if let Ok(Some(y)) = x.0 {
                lemma_idle(rules, *b, y, x.1, n);
                if g is Nop {
                    lemma_idle_padded(*b);
                    lemma_padded_step(rules, *b, g, y, x.1, n);
                } else {
                    lemma_idle_frame(rules, *b, g, y, x.1, n);
                    lemma_same_gains(x.1, whole.1, text, true, 0);
                }
                lemma_gains_on(s, x.1, whole.1, text, true);
                if g is Nop {
                    lemma_padded_idle(f);
                    lemma_idle(rules, f, c, s, n);
                } else if known(whole.1, text, c) {
                    assert(whole.1.forward.dom().contains((text, Some(c))));
                    assert(known(x.1, text, c));
                }
            }
        }
    }
}

/// The commit is known, and the backward map takes its filtered commit to one that has the
/// same filtered commit.
pub open spec fn led_back(s: MapsView, text: Seq<char>, c: CommitView) -> bool {
    &&& known(s, text, c)
    &&& s.backward.dom().contains((text, recalled(s, text, c)))
    &&& s.backward[(text, recalled(s, text, c))] matches Some(y) && known(s, text, y) && recalled(
        s,
        text,
        y,
    ) == recalled(s, text, c)
}

/// So it is, and the backward map leads to one of the first `k` of the list, or to one with
/// files at its root.
spec fn led_on(s: MapsView, text: Seq<char>, list: Seq<CommitView>, k: int, c: CommitView) -> bool {
    &&& led_back(s, text, c)
    &&& s.backward[(text, recalled(s, text, c))] matches Some(y) && (rooted(y) || list.take(
        k,
    ).contains(y))
}

proof fn lemma_led_gains(
    s: MapsView,
    t: MapsView,
    text: Seq<char>,
    list: Seq<CommitView>,
    k: int,
    c: CommitView,
)
    requires
        gains(s, t, text, true),
        led_on(s, text, list, k, c),
    ensures
        led_on(t, text, list, k, c),
        recalled(t, text, c) == recalled(s, text, c),
{
    let v = recalled(s, text, c);
    assert(known(t, text, c));
    assert(t.backward.dom().contains((text, v)));
    let y = s.backward[(text, v)]->0;
    assert(known(t, text, y));
}

proof fn lemma_padded_list(
    rules: Rules,
    f: FilterView,
    g: FilterView,
    list: Seq<CommitView>,
    bound: nat,
    s: MapsView,
    n: nat,
    k: int,
)
    requires
        is_leaf(g),
        padded(f, g),
        spec_text(f) == spec_text(g),
        nop_right(s),
        values_right(s, g),
        in_order(list),
        forall|i: int| 0 <= i < list.len() ==> depth(#[trigger] list[i]) <= bound,
        0 <= k <= list.len(),
    ensures
        ({
            let t = filtered_list(rules, f, list, bound, s, n, k);
            &&& nop_right(t)
            &&& values_right(t, g)
            &&& forall|i: int| 0 <= i < k ==> led_on(t, spec_text(f), list, k, #[trigger] list[i])
        }),
    decreases k,
{
    if k > 0 {
        let text = spec_text(f);
        lemma_padded_list(rules, f, g, list, bound, s, n, k - 1);
        let before = filtered_list(rules, f, list, bound, s, n, k - 1);
        let c = list[k - 1];
        assert(depth(c) <= bound);
        assert forall|i: int| 0 <= i < c.parents.len() implies known(
            before,
            text,
            #[trigger] c.parents[i],
        ) by {
            let front = list.take(k - 1);
            assert(front.contains(list[k - 1].parents[i]));
            let j = front.index_of(c.parents[i]);
            assert(list[j] == c.parents[i]);
            assert(led_on(before, text, list, k - 1, list[j]));
        }
        lemma_padded_step(rules, f, g, c, before, n);
        let x = apply_commit(rules, f, c, before, n);
        let v = value_of(x.0);
        let t = recorded(x.1, text, c, v);
        assert(filtered_list(rules, f, list, bound, s, n, k) == t);
        lemma_record_values(g, x.1, c, v);
        lemma_record_nop(rules, f, g, c, before, n);
        assert forall|i: int| 0 <= i < k implies led_on(t, text, list, k, #[trigger] list[i]) by {
            assert(list.take(k)[k - 1] == c);
            assert(list.take(k).contains(c));
            if i < k - 1 {
                let z = list[i];
                assert(z != list[k - 1]);
                assert(led_on(before, text, list, k - 1, z));
                lemma_led_gains(before, x.1, text, list, k - 1, z);
                let w = recalled(x.1, text, z);
                assert(recalled(t, text, z) == w);
                if w != v {
                    let y = x.1.backward[(text, w)]->0;
                    if list.take(k - 1).contains(y) {
                        let j = list.take(k - 1).index_of(y);
                        assert(list[j] == y);
                        assert(list[j] != list[k - 1]);
                        assert(list.take(k)[j] == y);
                    } else {
                        assert(rooted(y));
                    }
                    assert(y != c);
                }
            }
        }
    }
}

/// What is known for the filter that keeps everything stays right.
proof fn lemma_record_nop(
    rules: Rules,
    f: FilterView,
    g: FilterView,
    c: CommitView,
    s: MapsView,
    n: nat,
)
    requires
        is_leaf(g),
        padded(f, g),
        spec_text(f) == spec_text(g),
        nop_right(s),
        nop_right(apply_commit(rules, f, c, s, n).1),
    ensures
        ({
            let x = apply_commit(rules, f, c, s, n);
            nop_right(recorded(x.1, spec_text(f), c, value_of(x.0)))
        }),
{
    let x = apply_commit(rules, f, c, s, n);
    let nop = spec_text(FilterView::Nop);
    let t = recorded(x.1, spec_text(f), c, value_of(x.0));
    if spec_text(g) == nop {
        lemma_nop_text(g);
        lemma_padded_idle(f);
        lemma_idle(rules, f, c, s, n);
    }
    assert forall|z: CommitView| #[trigger] known(t, nop, z) implies is_kept_rooted()(
        z,
        recalled(t, nop, z),
    ) by {
        if (nop, Some(z)) != (spec_text(f), Some(c)) {
            assert(known(x.1, nop, z));
        }
    }
}

/// What was known for the filter that keeps everything stays right where nothing changes
/// under its text.
proof fn lemma_nop_frame(s: MapsView, t: MapsView)
    requires
        nop_right(s),
        same_under(s, t, spec_text(FilterView::Nop)),
    ensures
        nop_right(t),
{
    let nop = spec_text(FilterView::Nop);
    assert forall|z: CommitView| #[trigger] known(t, nop, z) implies is_kept_rooted()(
        z,
        recalled(t, nop, z),
    ) by {
        assert(t.forward.dom().contains((nop, Some(z))));
        assert(known(s, nop, z));
    }
}

/// Filtering by one filter that is no chain keeps right what is known for it, and for the
/// filter that keeps everything.
pub proof fn law_right_stays(rules: Rules, f: FilterView, c: CommitView, s: MapsView, n: nat)
    requires
        is_leaf(f),
    ensures
        ({
            let x = cached(rules, f, c, s, n);
            &&& values_right(s, f) ==> values_right(x.1, f) && (x.0 matches Some(y) ==> rooted(y))
            &&& nop_right(s) ==> nop_right(x.1)
        }),
{
    lemma_own_cached(rules, f, c, s, n, false);
    if nop_right(s) {
        if f is Nop {
            lemma_nop_inherited(rules, n);
            lemma_linked_cached(rules, f, c, s, n, is_kept_rooted());
        } else {
            let nop = spec_text(FilterView::Nop);
            if spec_text(f) == nop {
                lemma_nop_text(f);
            }
            reveal_strlit(":nop");
            lemma_frame_cached(rules, f, c, s, n, nop);
            lemma_nop_frame(s, cached(rules, f, c, s, n).1);
        }
    }
}

/// After the filtered commit for a commit that was not known was asked for, all its history
/// is known, and the backward map takes each filtered commit of it to a commit that has this
/// filtered commit. This holds of every filter padded with ones that keep everything, whose
/// text a part of it has too, where what was known before is right: for the filter that
/// keeps everything each commit with files at its root is its own filtered commit, and the
/// filtered commits have files at their roots, as all those have that filtering makes.
pub proof fn law_padded_in_step(
    rules: Rules,
    f: FilterView,
    g: FilterView,
    c: CommitView,
    s: MapsView,
    n: nat,
)
    requires
        is_leaf(g),
        padded(f, g),
        spec_text(f) == spec_text(g),
        nop_right(s),
        values_right(s, g),
        !known(s, spec_text(f), c),
    ensures
        ({
            let t = cached(rules, f, c, s, n).1;
            let list = history(c);
            &&& forall|i: int| 0 <= i < list.len() ==> led_back(t, spec_text(f), #[trigger] list[i])
            &&& nop_right(t)
            &&& values_right(t, g)
        }),
{
    let list = history(c);
    law_history_order(c);
    assert forall|i: int| 0 <= i < list.len() implies depth(#[trigger] list[i]) <= depth(c) by {
        assert(list.contains(list[i]));
        lemma_finished_depth(c, Seq::empty(), list[i]);
    }
    lemma_padded_list(rules, f, g, list, depth(c), s, n, list.len() as int);
    let t = cached(rules, f, c, s, n).1;
    assert forall|i: int| 0 <= i < list.len() implies led_back(
        t,
        spec_text(f),
        #[trigger] list[i],
    ) by {
        assert(led_on(t, spec_text(f), list, list.len() as int, list[i]));
    }
}

} // verus!
