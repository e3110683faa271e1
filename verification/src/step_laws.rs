//! Filtering history keeps what is known forward and what is known backward in step.

use crate::apply::workspace;
use crate::arena::CommitView;
use crate::commits::{
    apply_commit, cached, distinct, filtered_list, filtered_parents, height, known, lines_text,
    mount_texts, recalled, recorded, with_new_mounts, workspace_commit, workspace_parents,
    workspace_tree_and_parents, MapsView, WorkspaceParents,
};
use crate::filter::{combine_text, spec_text, CombineView, FilterView};
use crate::grammar::checked_combine;
use crate::walk::{depth, history, in_order, law_history_order, lemma_depth, lemma_finished_depth};
use crate::node::Rules;
use vstd::prelude::*;

verus! {

/// A text that starts as those of combinations over nothing do.
pub open spec fn is_over_nothing(text: Seq<char>) -> bool {
    text.len() >= 10 && text.take(10) == "/ = :empty"@
}

/// Filtering a commit may record something under the text: under that of the filter, or of
/// a part of it. Under those of combinations over nothing a workspace records what its new
/// mounts find.
pub open spec fn records(f: FilterView, text: Seq<char>) -> bool
    decreases f,
{
    match f {
        FilterView::Chain(a, b) => records(*a, text) || records(*b, text),
        FilterView::Cutoff(_) => false,
        FilterView::Workspace(_) => text == spec_text(f) || is_over_nothing(text),
        _ => text == spec_text(f),
    }
}

/// What is known under the text is the same.
pub open spec fn same_under(s: MapsView, t: MapsView, text: Seq<char>) -> bool {
    forall|v: Option<CommitView>|
        #![trigger t.forward.dom().contains((text, v))]
        #![trigger t.backward.dom().contains((text, v))]
        #![trigger t.forward[(text, v)]]
        #![trigger t.backward[(text, v)]]
        {
            &&& t.forward.dom().contains((text, v)) == s.forward.dom().contains((text, v))
            &&& t.backward.dom().contains((text, v)) == s.backward.dom().contains((text, v))
            &&& t.forward[(text, v)] == s.forward[(text, v)]
            &&& t.backward[(text, v)] == s.backward[(text, v)]
        }
}

/// The text of a combination over nothing starts as such.
pub proof fn lemma_over_nothing(c: CombineView, k: int)
    requires
        *c.base == FilterView::Empty,
    ensures
        is_over_nothing(combine_text(c, k)),
    decreases k,
{
    reveal_strlit("/ = ");
    reveal_strlit(":empty");
    reveal_strlit("/ = :empty");
    if 0 < k <= c.mounts.len() {
        lemma_over_nothing(c, k - 1);
        assert(combine_text(c, k).take(10) =~= combine_text(c, k - 1).take(10));
    } else {
        assert(spec_text(FilterView::Empty) == ":empty"@);
        assert(combine_text(c, k) == "/ = "@ + spec_text(*c.base));
        assert(combine_text(c, k) =~= "/ = :empty"@);
        assert("/ = :empty"@.take(10) =~= "/ = :empty"@);
    }
}

/// Filtering a commit leaves alone what is known under texts under which it records nothing.
pub proof fn lemma_frame_apply(
    rules: Rules,
    f: FilterView,
    c: CommitView,
    s: MapsView,
    n: nat,
    text: Seq<char>,
)
    requires
        !records(f, text),
    ensures
        same_under(s, apply_commit(rules, f, c, s, n).1, text),
    decreases height(f), depth(c), 1int, 0int,
{
    match f {
        FilterView::Chain(a, b) => {
            lemma_frame_apply(rules, *a, c, s, n, text);
            let x = apply_commit(rules, *a, c, s, n);
            if let Ok(Some(y)) = x.0 {
                lemma_frame_apply(rules, *b, y, x.1, n, text);
            }
        },
        FilterView::Cutoff(_) => {},
        FilterView::Workspace(path) => {
            if !known(s, spec_text(f), c) {
                lemma_frame_workspace(rules, path, c, s, n, text);
            }
        },
        _ => {
            if !known(s, spec_text(f), c) {
                lemma_frame_parents(rules, f, c, s, n, c.parents.len() as int, text);
            }
        },
    }
}

proof fn lemma_frame_parents(
    rules: Rules,
    f: FilterView,
    c: CommitView,
    s: MapsView,
    n: nat,
    k: int,
    text: Seq<char>,
)
    requires
        !records(f, text),
        text != spec_text(f),
    ensures
        same_under(s, filtered_parents(rules, f, c, s, n, k).1, text),
    decreases height(f), depth(c), 0int, k,
{
    if 0 < k <= c.parents.len() {
        lemma_frame_parents(rules, f, c, s, n, k - 1, text);
        lemma_depth(c, k - 1);
        let ps = filtered_parents(rules, f, c, s, n, k - 1);
        lemma_frame_cached(rules, f, c.parents[k - 1], ps.1, n, text);
    }
}

proof fn lemma_frame_workspace_parents(
    rules: Rules,
    path: Seq<char>,
    c: CommitView,
    s: MapsView,
    n: nat,
    lines: Seq<Seq<char>>,
    k: int,
    text: Seq<char>,
)
    requires
        !records(FilterView::Workspace(path), text),
    ensures
        same_under(s, workspace_parents(rules, path, c, s, n, lines, k).1, text),
    decreases 1nat, depth(c), 0int, k,
{
    if 0 < k <= c.parents.len() {
        lemma_frame_workspace_parents(rules, path, c, s, n, lines, k - 1, text);
        lemma_depth(c, k - 1);
        let before = workspace_parents(rules, path, c, s, n, lines, k - 1);
        if before.0 is Ok {
            lemma_frame_cached(
                rules,
                FilterView::Workspace(path),
                c.parents[k - 1],
                before.1,
                n,
                text,
            );
        }
    }
}

pub proof fn lemma_frame_new_mounts(
    rules: Rules,
    c: CommitView,
    w: WorkspaceParents,
    s: MapsView,
    n: nat,
    text: Seq<char>,
)
    requires
        !is_over_nothing(text),
    ensures
        same_under(s, with_new_mounts(rules, c, w, s, n).1, text),
    decreases 1nat, depth(c), 0int, 0int,
{
    let t = lines_text(w.lines, w.lines.len() as int);
    if let Ok(pcw) = checked_combine(t, FilterView::Empty) {
        if c.parents.len() > 0 {
            lemma_over_nothing(pcw, pcw.mounts.len() as int);
            lemma_frame_apply(rules, FilterView::Combine(pcw), c.parents[0], s, n, text);
        }
    }
}

proof fn lemma_frame_workspace(
    rules: Rules,
    path: Seq<char>,
    c: CommitView,
    s: MapsView,
    n: nat,
    text: Seq<char>,
)
    requires
        !records(FilterView::Workspace(path), text),
    ensures
        same_under(s, workspace_commit(rules, path, c, s, n).1, text),
    decreases 1nat, depth(c), 0int, c.parents.len() + 2,
{
    if let Ok(cw) = workspace(c.tree, path) {
        let mounts = mount_texts(cw);
        let lines = distinct(mounts, mounts.len() as int);
        let len = c.parents.len() as int;
        lemma_frame_workspace_parents(rules, path, c, s, n, lines, len, text);
        let ps = workspace_parents(rules, path, c, s, n, lines, len);
        if let Ok(w) = ps.0 {
            lemma_frame_new_mounts(rules, c, w, ps.1, n, text);
        }
    }
    assert(
        workspace_commit(rules, path, c, s, n).1 == workspace_tree_and_parents(
            rules,
            path,
            c,
            s,
            n,
        ).1
    );
}

proof fn lemma_frame_list(
    rules: Rules,
    f: FilterView,
    list: Seq<CommitView>,
    bound: nat,
    s: MapsView,
    n: nat,
    k: int,
    text: Seq<char>,
)
    requires
        !records(f, text),
        text != spec_text(f),
    ensures
        same_under(s, filtered_list(rules, f, list, bound, s, n, k), text),
    decreases height(f), bound, 2int, k,
{
    if 0 < k <= list.len() {
        lemma_frame_list(rules, f, list, bound, s, n, k - 1, text);
        let before = filtered_list(rules, f, list, bound, s, n, k - 1);
        if depth(list[k - 1]) <= bound {
            lemma_frame_apply(rules, f, list[k - 1], before, n, text);
        }
    }
}

pub proof fn lemma_frame_cached(
    rules: Rules,
    f: FilterView,
    c: CommitView,
    s: MapsView,
    n: nat,
    text: Seq<char>,
)
    requires
        !records(f, text),
        text != spec_text(f),
    ensures
        same_under(s, cached(rules, f, c, s, n).1, text),
    decreases height(f), depth(c), 3int, 0int,
{
    if !known(s, spec_text(f), c) {
        lemma_frame_list(rules, f, history(c), depth(c), s, n, history(c).len() as int, text);
    }
}

/// Nothing is learned of parents that are known.
proof fn lemma_parents_known(
    rules: Rules,
    f: FilterView,
    c: CommitView,
    s: MapsView,
    n: nat,
    k: int,
)
    requires
        forall|i: int| 0 <= i < c.parents.len() ==> known(s, spec_text(f), #[trigger] c.parents[i]),
    ensures
        filtered_parents(rules, f, c, s, n, k).1 == s,
    decreases k,
{
    if 0 < k <= c.parents.len() {
        lemma_parents_known(rules, f, c, s, n, k - 1);
        assert(known(s, spec_text(f), c.parents[k - 1]));
        assert(cached(rules, f, c.parents[k - 1], s, n).1 == s);
    }
}

proof fn lemma_workspace_parents_known(
    rules: Rules,
    path: Seq<char>,
    c: CommitView,
    s: MapsView,
    n: nat,
    lines: Seq<Seq<char>>,
    k: int,
)
    requires
        forall|i: int|
            0 <= i < c.parents.len() ==> known(
                s,
                spec_text(FilterView::Workspace(path)),
                #[trigger] c.parents[i],
            ),
    ensures
        workspace_parents(rules, path, c, s, n, lines, k).1 == s,
    decreases k,
{
    if 0 < k <= c.parents.len() {
        lemma_workspace_parents_known(rules, path, c, s, n, lines, k - 1);
        assert(known(s, spec_text(FilterView::Workspace(path)), c.parents[k - 1]));
        assert(cached(rules, FilterView::Workspace(path), c.parents[k - 1], s, n).1 == s);
    }
}

/// Filtering a commit whose parents are known under the text may record something under it.
/// The first part of a chain, which is given the commit itself, records nothing then under
/// its own text.
pub open spec fn records_anew(f: FilterView, text: Seq<char>) -> bool
    decreases f,
{
    match f {
        FilterView::Chain(a, b) => records_anew(*a, text) || records(*b, text),
        FilterView::Workspace(_) => is_over_nothing(text),
        _ => false,
    }
}

/// No later part of the filter records under the text of the whole. Only a chain can have
/// such a part, as where the first of its two filters is the one that keeps everything, of
/// which the text of a chain shows no trace.
pub open spec fn has_own_text(f: FilterView) -> bool {
    f is Chain ==> !records_anew(f, spec_text(f))
}

pub proof fn lemma_workspace_own_text(path: Seq<char>)
    ensures
        !is_over_nothing(spec_text(FilterView::Workspace(path))),
{
    let text = spec_text(FilterView::Workspace(path));
    reveal_strlit(":workspace=");
    reveal_strlit("/ = :empty");
    assert(text[0] == ':');
    if is_over_nothing(text) {
        assert(text.take(10)[0] == text[0]);
    }
}

/// Filtering a commit whose parents are known under a text records nothing under it.
pub proof fn lemma_step(
    rules: Rules,
    f: FilterView,
    c: CommitView,
    s: MapsView,
    n: nat,
    text: Seq<char>,
)
    requires
        !records_anew(f, text),
        forall|i: int| 0 <= i < c.parents.len() ==> known(s, text, #[trigger] c.parents[i]),
    ensures
        same_under(s, apply_commit(rules, f, c, s, n).1, text),
    decreases f,
{
    match f {
        FilterView::Chain(a, b) => {
            lemma_step(rules, *a, c, s, n, text);
            let x = apply_commit(rules, *a, c, s, n);
            if let Ok(Some(y)) = x.0 {
                lemma_frame_apply(rules, *b, y, x.1, n, text);
            }
        },
        FilterView::Cutoff(_) => {},
        FilterView::Workspace(path) => {
            if text != spec_text(f) {
                lemma_frame_apply(rules, f, c, s, n, text);
            } else if !known(s, text, c) {
                if let Ok(cw) = workspace(c.tree, path) {
                    let mounts = mount_texts(cw);
                    let lines = distinct(mounts, mounts.len() as int);
                    let len = c.parents.len() as int;
                    lemma_workspace_parents_known(rules, path, c, s, n, lines, len);
                    let ps = workspace_parents(rules, path, c, s, n, lines, len);
                    if let Ok(w) = ps.0 {
                        lemma_frame_new_mounts(rules, c, w, ps.1, n, text);
                    }
                }
                assert(apply_commit(rules, f, c, s, n) == workspace_commit(rules, path, c, s, n));
                assert(workspace_commit(rules, path, c, s, n).1 == workspace_tree_and_parents(
                    rules,
                    path,
                    c,
                    s,
                    n,
                ).1);
            }
        },
        _ => {
            if text != spec_text(f) {
                lemma_frame_apply(rules, f, c, s, n, text);
            } else if !known(s, text, c) {
                lemma_parents_known(rules, f, c, s, n, c.parents.len() as int);
            }
        },
    }
}

/// A filter that has a text of its own records nothing under it for a commit whose parents
/// are known.
pub proof fn lemma_own_step(rules: Rules, f: FilterView, c: CommitView, s: MapsView, n: nat)
    requires
        has_own_text(f),
        forall|i: int| 0 <= i < c.parents.len() ==> known(s, spec_text(f), #[trigger] c.parents[i]),
    ensures
        same_under(s, apply_commit(rules, f, c, s, n).1, spec_text(f)),
{
    if let FilterView::Workspace(path) = f {
        lemma_workspace_own_text(path);
    }
    lemma_step(rules, f, c, s, n, spec_text(f));
}

/// The commit is known, and the backward map takes its filtered commit to one of the first
/// `k` of the list, which has the same filtered commit.
pub open spec fn in_step(
    s: MapsView,
    text: Seq<char>,
    list: Seq<CommitView>,
    k: int,
    c: CommitView,
) -> bool {
    &&& known(s, text, c)
    &&& s.backward.dom().contains((text, recalled(s, text, c)))
    &&& exists|j: int|
        0 <= j < k && s.backward[(text, recalled(s, text, c))] == Some(#[trigger] list[j]) && known(
            s,
            text,
            list[j],
        ) && recalled(s, text, list[j]) == recalled(s, text, c)
}

proof fn lemma_list_in_step(
    rules: Rules,
    f: FilterView,
    list: Seq<CommitView>,
    bound: nat,
    s: MapsView,
    n: nat,
    k: int,
)
    requires
        has_own_text(f),
        in_order(list),
        forall|i: int| 0 <= i < list.len() ==> depth(#[trigger] list[i]) <= bound,
        0 <= k <= list.len(),
    ensures
        ({
            let t = filtered_list(rules, f, list, bound, s, n, k);
            forall|i: int| 0 <= i < k ==> in_step(t, spec_text(f), list, k, #[trigger] list[i])
        }),
    decreases k,
{
    if k > 0 {
        let text = spec_text(f);
        lemma_list_in_step(rules, f, list, bound, s, n, k - 1);
        let before = filtered_list(rules, f, list, bound, s, n, k - 1);
        let c = list[k - 1];
        assert(depth(c) <= bound);
        assert forall|i: int| 0 <= i < c.parents.len() implies known(
            before,
            text,
            #[trigger] c.parents[i],
        ) by {
            let front = list.take(k - 1);
            assert(front.contains(list[k - 1].parents[i]));
            let j = front.index_of(c.parents[i]);
            assert(list[j] == c.parents[i]);
            assert(in_step(before, text, list, k - 1, list[j]));
        }
        lemma_own_step(rules, f, c, before, n);
        let x = apply_commit(rules, f, c, before, n);
        let v = match x.0 {
            Ok(v) => v,
            Err(_) => None,
        };
        let t = recorded(x.1, text, c, v);
        assert(filtered_list(rules, f, list, bound, s, n, k) == t);
        assert forall|i: int| 0 <= i < k implies in_step(t, text, list, k, #[trigger] list[i]) by {
            if i == k - 1 {
                assert(list[k - 1] == c);
            } else {
                assert(list[i] != list[k - 1]);
                assert(in_step(before, text, list, k - 1, list[i]));
                let w = recalled(before, text, list[i]);
                assert(x.1.forward.dom().contains((text, Some(list[i]))));
                assert(recalled(t, text, list[i]) == w);
                if w == v {
                    assert(t.backward[(text, w)] == Some(list[k - 1]));
                } else {
                    assert(x.1.backward.dom().contains((text, w)));
                    let j = choose|j: int|
                        0 <= j < k - 1 && before.backward[(text, w)] == Some(#[trigger] list[j])
                            && known(before, text, list[j]) && recalled(before, text, list[j]) == w;
                    assert(list[j] != list[k - 1]);
                    assert(x.1.forward.dom().contains((text, Some(list[j]))));
                    assert(t.backward[(text, w)] == Some(list[j]));
                    assert(recalled(t, text, list[j]) == w);
                }
            }
        }
    }
}

/// After the filtered commit for a commit that was not known was asked for, all its history
/// is known, and the backward map takes each filtered commit of it to a commit of the
/// history that has this filtered commit. This holds of every filter that has a text of its
/// own, and whatever was known before.
pub proof fn law_history_in_step(rules: Rules, f: FilterView, c: CommitView, s: MapsView, n: nat)
    requires
        has_own_text(f),
        !known(s, spec_text(f), c),
    ensures
        ({
            let t = cached(rules, f, c, s, n).1;
            let list = history(c);
            forall|i: int|
                0 <= i < list.len() ==> in_step(
                    t,
                    spec_text(f),
                    list,
                    list.len() as int,
                    #[trigger] list[i],
                )
        }),
{
    let list = history(c);
    law_history_order(c);
    assert forall|i: int| 0 <= i < list.len() implies depth(#[trigger] list[i]) <= depth(c) by {
        assert(list.contains(list[i]));
        lemma_finished_depth(c, Seq::empty(), list[i]);
    }
    lemma_list_in_step(rules, f, list, depth(c), s, n, list.len() as int);
}

/// The filtered commit for a commit is known, and the backward map has it.
pub open spec fn paired(s: MapsView, text: Seq<char>, c: CommitView) -> bool {
    known(s, text, c) && s.backward.dom().contains((text, recalled(s, text, c)))
}

/// What was paired stays paired.
pub open spec fn keeps_pairs(s: MapsView, t: MapsView) -> bool {
    forall|text: Seq<char>, c: CommitView| #[trigger] paired(s, text, c) ==> paired(t, text, c)
}

proof fn lemma_record_pairs(s: MapsView, text: Seq<char>, c: CommitView, v: Option<CommitView>)
    ensures
        keeps_pairs(s, recorded(s, text, c, v)),
        paired(recorded(s, text, c, v), text, c),
{
    let t = recorded(s, text, c, v);
    assert forall|u: Seq<char>, x: CommitView| #[trigger] paired(s, u, x) implies paired(
        t,
        u,
        x,
    ) by {
        if (u, Some(x)) != (text, Some(c)) {
            assert(recalled(t, u, x) == recalled(s, u, x));
        }
    }
}

proof fn lemma_pairs_apply(rules: Rules, f: FilterView, c: CommitView, s: MapsView, n: nat)
    ensures
        keeps_pairs(s, apply_commit(rules, f, c, s, n).1),
    decreases height(f), depth(c), 1int, 0int,
{
    match f {
        FilterView::Chain(a, b) => {
            lemma_pairs_apply(rules, *a, c, s, n);
            let x = apply_commit(rules, *a, c, s, n);
            if let Ok(Some(y)) = x.0 {
                lemma_pairs_apply(rules, *b, y, x.1, n);
            }
        },
        FilterView::Cutoff(_) => {},
        FilterView::Workspace(path) => {
            if !known(s, spec_text(f), c) {
                lemma_pairs_workspace(rules, path, c, s, n);
            }
        },
        _ => {
            if !known(s, spec_text(f), c) {
                lemma_pairs_parents(rules, f, c, s, n, c.parents.len() as int);
            }
        },
    }
}

proof fn lemma_pairs_parents(
    rules: Rules,
    f: FilterView,
    c: CommitView,
    s: MapsView,
    n: nat,
    k: int,
)
    ensures
        keeps_pairs(s, filtered_parents(rules, f, c, s, n, k).1),
    decreases height(f), depth(c), 0int, k,
{
    if 0 < k <= c.parents.len() {
        lemma_pairs_parents(rules, f, c, s, n, k - 1);
        lemma_depth(c, k - 1);
        let ps = filtered_parents(rules, f, c, s, n, k - 1);
        lemma_pairs_cached(rules, f, c.parents[k - 1], ps.1, n);
    }
}

proof fn lemma_pairs_workspace_parents(
    rules: Rules,
    path: Seq<char>,
    c: CommitView,
    s: MapsView,
    n: nat,
    lines: Seq<Seq<char>>,
    k: int,
)
    ensures
        keeps_pairs(s, workspace_parents(rules, path, c, s, n, lines, k).1),
    decreases 1nat, depth(c), 0int, k,
{
    if 0 < k <= c.parents.len() {
        lemma_pairs_workspace_parents(rules, path, c, s, n, lines, k - 1);
        lemma_depth(c, k - 1);
        let before = workspace_parents(rules, path, c, s, n, lines, k - 1);
        if before.0 is Ok {
            lemma_pairs_cached(rules, FilterView::Workspace(path), c.parents[k - 1], before.1, n);
        }
    }
}

proof fn lemma_pairs_workspace(rules: Rules, path: Seq<char>, c: CommitView, s: MapsView, n: nat)
    ensures
        keeps_pairs(s, workspace_commit(rules, path, c, s, n).1),
    decreases 1nat, depth(c), 0int, c.parents.len() + 2,
{
    if let Ok(cw) = workspace(c.tree, path) {
        let mounts = mount_texts(cw);
        let lines = distinct(mounts, mounts.len() as int);
        let len = c.parents.len() as int;
        lemma_pairs_workspace_parents(rules, path, c, s, n, lines, len);
        let ps = workspace_parents(rules, path, c, s, n, lines, len);
        if let Ok(w) = ps.0 {
            let t = lines_text(w.lines, w.lines.len() as int);
            if let Ok(pcw) = checked_combine(t, FilterView::Empty) {
                if c.parents.len() > 0 {
                    lemma_depth(c, 0);
                    lemma_pairs_apply(rules, FilterView::Combine(pcw), c.parents[0], ps.1, n);
                }
            }
            assert(keeps_pairs(ps.1, with_new_mounts(rules, c, w, ps.1, n).1));
        }
    }
    assert(
        workspace_commit(rules, path, c, s, n).1 == workspace_tree_and_parents(
            rules,
            path,
            c,
            s,
            n,
        ).1
    );
}

proof fn lemma_pairs_list(
    rules: Rules,
    f: FilterView,
    list: Seq<CommitView>,
    bound: nat,
    s: MapsView,
    n: nat,
    k: int,
)
    ensures
        keeps_pairs(s, filtered_list(rules, f, list, bound, s, n, k)),
        forall|i: int|
            0 <= i < k <= list.len() && depth(#[trigger] list[i]) <= bound ==> paired(
                filtered_list(rules, f, list, bound, s, n, k),
                spec_text(f),
                list[i],
            ),
    decreases height(f), bound, 2int, k,
{
    if 0 < k <= list.len() {
        lemma_pairs_list(rules, f, list, bound, s, n, k - 1);
        let before = filtered_list(rules, f, list, bound, s, n, k - 1);
        let c = list[k - 1];
        if depth(c) <= bound {
            lemma_pairs_apply(rules, f, c, before, n);
            let x = apply_commit(rules, f, c, before, n);
            let v = match x.0 {
                Ok(v) => v,
                Err(_) => None,
            };
            lemma_record_pairs(x.1, spec_text(f), c, v);
        }
    }
}

proof fn lemma_pairs_cached(rules: Rules, f: FilterView, c: CommitView, s: MapsView, n: nat)
    ensures
        keeps_pairs(s, cached(rules, f, c, s, n).1),
    decreases height(f), depth(c), 3int, 0int,
{
    if !known(s, spec_text(f), c) {
        lemma_pairs_list(rules, f, history(c), depth(c), s, n, history(c).len() as int);
    }
}

/// After the filtered commit for a commit that was not known was asked for, all its history
/// is known, and the backward map has all filtered commits of it. This holds of every
/// filter, and whatever was known before.
pub proof fn law_history_known(rules: Rules, f: FilterView, c: CommitView, s: MapsView, n: nat)
    requires
        !known(s, spec_text(f), c),
    ensures
        forall|i: int|
            0 <= i < history(c).len() ==> paired(
                cached(rules, f, c, s, n).1,
                spec_text(f),
                #[trigger] history(c)[i],
            ),
{
    let list = history(c);
    assert forall|i: int| 0 <= i < list.len() implies depth(#[trigger] list[i]) <= depth(c) by {
        assert(list.contains(list[i]));
        lemma_finished_depth(c, Seq::empty(), list[i]);
    }
    lemma_pairs_list(rules, f, list, depth(c), s, n, list.len() as int);
}

} // verus!
