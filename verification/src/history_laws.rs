//! What holds of filtered history.

use crate::apply::{apply_tree, workspace};
use crate::arena::CommitView;
use crate::commits::{
    apply_commit, cached, created, filtered_list, filtered_parents, folded, known, mount_texts,
    present, recalled, recorded, rewritten, selected_parents, without, workspace_commit,
    workspace_parents, workspace_tree, workspace_tree_and_parents, MapsView,
};
use crate::error::ErrorView;
use crate::filter::{spec_text, FilterView};
use crate::node::{empty_dir, Dir, Rules};
use crate::walk::{depth, history, lemma_depth, lemma_finished_depth};
use vstd::prelude::*;

verus! {

/// A filter that depends on the tree of each commit alone.
pub open spec fn is_plain(f: FilterView) -> bool {
    !(f is Chain) && !(f is Cutoff) && !(f is Fold) && !(f is Workspace)
}

/// A filter that depends on the tree of each commit, and on what became of its parents.
pub open spec fn goes_by_parents(f: FilterView) -> bool {
    is_plain(f) || f is Fold
}

/// The filtered commit for `c` where `vs` are those for its parents; none where the filter
/// fails.
pub open spec fn outcome(
    rules: Rules,
    f: FilterView,
    c: CommitView,
    vs: Seq<Option<CommitView>>,
    n: nat,
) -> Option<CommitView> {
    let there = present(vs, vs.len() as int);
    if f is Fold {
        if there.len() < vs.len() {
            None
        } else {
            match folded(rules, c.tree, there, there.len() as int) {
                Ok(t) => created(c, there, t),
                Err(_) => None,
            }
        }
    } else {
        match apply_tree(rules, f, c.tree, n) {
            Ok(t) => created(c, there, t),
            Err(_) => None,
        }
    }
}

/// What a commit and the filtered commit for it have to do with each other.
pub type Link = spec_fn(CommitView, Option<CommitView>) -> bool;

/// The relation holds of a commit where it holds of its parents.
pub open spec fn inherited(rules: Rules, f: FilterView, n: nat, r: Link) -> bool {
    &&& forall|c: CommitView, vs: Seq<Option<CommitView>>|
        vs.len() == c.parents.len() && apply_tree(rules, f, c.tree, n) is Ok && (forall|i: int|
            0 <= i < vs.len() ==> r(c.parents[i], #[trigger] vs[i])) ==> r(
            c,
            #[trigger] outcome(rules, f, c, vs, n),
        )
    &&& forall|c: CommitView| (#[trigger] apply_tree(rules, f, c.tree, n)) is Err ==> r(c, None)
}

/// The relation holds of all that is known for the filter.
pub open spec fn all_linked(s: MapsView, text: Seq<char>, r: Link) -> bool {
    forall|x: CommitView| #[trigger] known(s, text, x) ==> r(x, recalled(s, text, x))
}

/// The two maps fit: the backward map has each filtered commit, and takes it to a commit
/// for which it is the filtered one.
pub open spec fn maps_fit(s: MapsView, text: Seq<char>) -> bool {
    &&& forall|x: CommitView| #[trigger]
        known(s, text, x) ==> s.backward.dom().contains((text, recalled(s, text, x)))
    &&& forall|v: Option<CommitView>| #[trigger]
        s.backward.dom().contains((text, v)) ==> (s.backward[(text, v)] matches Some(c) && known(
            s,
            text,
            c,
        ) && recalled(s, text, c) == v)
}

/// What became known is no deeper than the bound, and nothing was forgotten.
pub open spec fn learned(s: MapsView, t: MapsView, text: Seq<char>, bound: int) -> bool {
    &&& forall|x: CommitView|
        known(s, text, x) ==> #[trigger] known(t, text, x) && recalled(t, text, x) == recalled(
            s,
            text,
            x,
        )
    &&& forall|x: CommitView|
        !known(s, text, x) && #[trigger] known(t, text, x) ==> depth(x) <= bound
}

proof fn lemma_linked_parents(
    rules: Rules,
    f: FilterView,
    c: CommitView,
    s: MapsView,
    n: nat,
    r: Link,
    k: int,
)
    requires
        goes_by_parents(f),
        inherited(rules, f, n, r),
        all_linked(s, spec_text(f), r),
        0 <= k <= c.parents.len(),
    ensures
        ({
            let ps = filtered_parents(rules, f, c, s, n, k);
            &&& all_linked(ps.1, spec_text(f), r)
            &&& maps_fit(s, spec_text(f)) ==> maps_fit(ps.1, spec_text(f))
            &&& learned(s, ps.1, spec_text(f), depth(c) - 1)
            &&& ps.0.len() == k
            &&& forall|i: int| 0 <= i < k ==> r(c.parents[i], #[trigger] ps.0[i])
        }),
    decreases depth(c), 0int, k,
{
    if k > 0 {
        lemma_linked_parents(rules, f, c, s, n, r, k - 1);
        lemma_depth(c, k - 1);
        let ps = filtered_parents(rules, f, c, s, n, k - 1);
        lemma_linked_cached(rules, f, c.parents[k - 1], ps.1, n, r);
        let x = cached(rules, f, c.parents[k - 1], ps.1, n);
        let all = filtered_parents(rules, f, c, s, n, k);
        assert(all == (ps.0.push(x.0), x.1));
    }
}

/// A relation that is handed down holds of a commit that was filtered.
pub proof fn lemma_linked_apply(
    rules: Rules,
    f: FilterView,
    c: CommitView,
    s: MapsView,
    n: nat,
    r: Link,
)
    requires
        goes_by_parents(f),
        inherited(rules, f, n, r),
        all_linked(s, spec_text(f), r),
    ensures
        ({
            let x = apply_commit(rules, f, c, s, n);
            let v = match x.0 {
                Ok(v) => v,
                Err(_) => None,
            };
            &&& all_linked(x.1, spec_text(f), r)
            &&& maps_fit(s, spec_text(f)) ==> maps_fit(x.1, spec_text(f))
            &&& learned(s, x.1, spec_text(f), depth(c) - 1)
            &&& r(c, v)
            &&& known(x.1, spec_text(f), c) ==> recalled(x.1, spec_text(f), c) == v
        }),
    decreases depth(c), 1int, 0int,
{
    if !known(s, spec_text(f), c) && apply_tree(rules, f, c.tree, n) is Ok {
        lemma_linked_parents(rules, f, c, s, n, r, c.parents.len() as int);
        let ps = filtered_parents(rules, f, c, s, n, c.parents.len() as int);
        assert(r(c, outcome(rules, f, c, ps.0, n)));
    }
}

proof fn lemma_linked_list(
    rules: Rules,
    f: FilterView,
    list: Seq<CommitView>,
    bound: nat,
    s: MapsView,
    n: nat,
    r: Link,
    k: int,
)
    requires
        goes_by_parents(f),
        inherited(rules, f, n, r),
        all_linked(s, spec_text(f), r),
        0 <= k <= list.len(),
        forall|i: int| 0 <= i < list.len() ==> depth(#[trigger] list[i]) <= bound,
    ensures
        ({
            let t = filtered_list(rules, f, list, bound, s, n, k);
            &&& all_linked(t, spec_text(f), r)
            &&& maps_fit(s, spec_text(f)) ==> maps_fit(t, spec_text(f))
            &&& learned(s, t, spec_text(f), bound as int)
            &&& forall|i: int| 0 <= i < k ==> known(t, spec_text(f), #[trigger] list[i])
        }),
    decreases bound, 2int, k,
{
    if k > 0 {
        let text = spec_text(f);
        lemma_linked_list(rules, f, list, bound, s, n, r, k - 1);
        let before = filtered_list(rules, f, list, bound, s, n, k - 1);
        let c = list[k - 1];
        assert(depth(c) <= bound);
        lemma_linked_apply(rules, f, c, before, n, r);
        let x = apply_commit(rules, f, c, before, n);
        let v = match x.0 {
            Ok(v) => v,
            Err(_) => None,
        };
        let t = recorded(x.1, text, c, v);
        assert(filtered_list(rules, f, list, bound, s, n, k) == t);
        assert forall|y: CommitView| #[trigger] known(t, text, y) implies r(
            y,
            recalled(t, text, y),
        ) by {
            if y != c {
                assert(known(x.1, text, y));
            }
        }
        if maps_fit(s, text) {
            assert forall|y: CommitView| #[trigger] known(
                t,
                text,
                y,
            ) implies t.backward.dom().contains((text, recalled(t, text, y))) by {
                if y != c {
                    assert(known(x.1, text, y));
                }
            }
            assert forall|w: Option<CommitView>| #[trigger]
                t.backward.dom().contains((text, w)) implies (t.backward[(text, w)] matches Some(y)
                && known(t, text, y) && recalled(t, text, y) == w) by {
                if w != v {
                    assert(x.1.backward.dom().contains((text, w)));
                }
            }
        }
        assert forall|y: CommitView| known(s, text, y) implies #[trigger] known(t, text, y)
            && recalled(t, text, y) == recalled(s, text, y) by {
            assert(known(before, text, y));
            assert(known(x.1, text, y));
        }
        assert forall|y: CommitView|
            !known(s, text, y) && #[trigger] known(t, text, y) implies depth(y) <= bound by {
            if y != c {
                assert(known(x.1, text, y));
                if known(before, text, y) {
                } else {
                    assert(depth(y) <= depth(c) - 1);
                }
            }
        }
        assert forall|i: int| 0 <= i < k implies known(t, text, #[trigger] list[i]) by {
            if i < k - 1 {
                assert(known(before, text, list[i]));
                assert(known(x.1, text, list[i]));
            }
        }
    }
}

/// A relation that is handed down holds of a commit that was asked for.
pub proof fn lemma_linked_cached(
    rules: Rules,
    f: FilterView,
    c: CommitView,
    s: MapsView,
    n: nat,
    r: Link,
)
    requires
        goes_by_parents(f),
        inherited(rules, f, n, r),
        all_linked(s, spec_text(f), r),
    ensures
        ({
            let x = cached(rules, f, c, s, n);
            &&& all_linked(x.1, spec_text(f), r)
            &&& maps_fit(s, spec_text(f)) ==> maps_fit(x.1, spec_text(f))
            &&& learned(s, x.1, spec_text(f), depth(c) as int)
            &&& r(c, x.0)
            &&& known(x.1, spec_text(f), c)
        }),
    decreases depth(c), 3int, 0int,
{
    if !known(s, spec_text(f), c) {
        let list = history(c);
        assert forall|i: int| 0 <= i < list.len() implies depth(#[trigger] list[i]) <= depth(c) by {
            assert(list.contains(list[i]));
            lemma_finished_depth(c, Seq::empty(), list[i]);
        }
        lemma_linked_list(rules, f, list, depth(c), s, n, r, list.len() as int);
        assert(list[list.len() - 1] == c);
    }
}

/// A filtered commit that was asked for is known, and asking again gives the same commit
/// and teaches nothing.
pub proof fn law_cached_again(rules: Rules, f: FilterView, c: CommitView, s: MapsView, n: nat)
    ensures
        ({
            let x = cached(rules, f, c, s, n);
            &&& known(x.1, spec_text(f), c)
            &&& cached(rules, f, c, x.1, n) == x
        }),
{
    if !known(s, spec_text(f), c) {
        let list = history(c);
        assert(list[list.len() - 1] == c);
    }
}

/// The tree of the filtered commit is the filtered tree: a commit that changes nothing is
/// represented by a parent with the same tree, and only a commit without files and parents
/// is left out.
pub proof fn law_created_tree(c: CommitView, parents: Seq<CommitView>, tree: Dir)
    ensures
        match created(c, parents, tree) {
            Some(x) => x.tree == tree,
            None => tree == empty_dir() && parents.len() == 0,
        },
{
    if selected_parents(c, tree, parents).len() == 0 && parents.len() > 0 {
        assert(parents[0].tree == tree);
    }
}

/// The filtered commit has the filtered tree, or there is none where the filter leaves
/// nothing, or fails.
pub open spec fn has_filtered_tree(rules: Rules, f: FilterView, n: nat) -> Link {
    |c: CommitView, v: Option<CommitView>|
        match (v, apply_tree(rules, f, c.tree, n)) {
            (Some(x), Ok(t)) => x.tree == t,
            (Some(_), Err(_)) => false,
            (None, Ok(t)) => t == empty_dir(),
            (None, Err(_)) => true,
        }
}

/// Through all history, each filtered commit has the filtered tree of its commit, where
/// that holds of what was known.
pub proof fn law_filtered_trees(rules: Rules, f: FilterView, c: CommitView, s: MapsView, n: nat)
    requires
        is_plain(f),
        all_linked(s, spec_text(f), has_filtered_tree(rules, f, n)),
    ensures
        ({
            let x = cached(rules, f, c, s, n);
            let r = has_filtered_tree(rules, f, n);
            &&& r(c, x.0)
            &&& all_linked(x.1, spec_text(f), r)
        }),
{
    let r = has_filtered_tree(rules, f, n);
    assert forall|c: CommitView, vs: Seq<Option<CommitView>>|
        vs.len() == c.parents.len() && apply_tree(rules, f, c.tree, n) is Ok && (forall|i: int|
            0 <= i < vs.len() ==> r(c.parents[i], #[trigger] vs[i])) implies r(
        c,
        #[trigger] outcome(rules, f, c, vs, n),
    ) by {
        law_created_tree(c, present(vs, vs.len() as int), apply_tree(rules, f, c.tree, n)->Ok_0);
    }
    lemma_linked_cached(rules, f, c, s, n, r);
}

/// Filtering keeps the maps in step, where they were: the backward map has each filtered
/// commit, and takes it to a commit for which it is the filtered one. Nothing that was known
/// is changed, and all history is known after a commit that was not.
pub proof fn law_maps_stay_in_step(rules: Rules, f: FilterView, c: CommitView, s: MapsView, n: nat)
    requires
        goes_by_parents(f),
    ensures
        ({
            let t = cached(rules, f, c, s, n).1;
            &&& maps_fit(s, spec_text(f)) ==> maps_fit(t, spec_text(f))
            &&& forall|x: CommitView|
                known(s, spec_text(f), x) ==> #[trigger] known(t, spec_text(f), x) && recalled(
                    t,
                    spec_text(f),
                    x,
                ) == recalled(s, spec_text(f), x)
            &&& !known(s, spec_text(f), c) ==> forall|i: int|
                0 <= i < history(c).len() ==> known(t, spec_text(f), #[trigger] history(c)[i])
        }),
{
    let r: Link = |c: CommitView, v: Option<CommitView>| true;
    lemma_linked_cached(rules, f, c, s, n, r);
    if !known(s, spec_text(f), c) {
        let list = history(c);
        assert forall|i: int| 0 <= i < list.len() implies depth(#[trigger] list[i]) <= depth(c) by {
            assert(list.contains(list[i]));
            lemma_finished_depth(c, Seq::empty(), list[i]);
        }
        lemma_linked_list(rules, f, list, depth(c), s, n, r, list.len() as int);
    }
}

/// All first commits of the history have files.
pub open spec fn rooted(c: CommitView) -> bool
    decreases c,
{
    if c.parents.len() == 0 {
        c.tree != empty_dir()
    } else {
        forall|i: int| 0 <= i < c.parents.len() ==> rooted(#[trigger] c.parents[i])
    }
}

pub proof fn lemma_present_all(vs: Seq<Option<CommitView>>, cs: Seq<CommitView>, k: int)
    requires
        0 <= k <= vs.len() == cs.len(),
        forall|i: int| 0 <= i < k ==> #[trigger] vs[i] == Some(cs[i]),
    ensures
        present(vs, k) == cs.take(k),
    decreases k,
{
    if k > 0 {
        lemma_present_all(vs, cs, k - 1);
        assert(vs[k - 1] == Some(cs[k - 1]));
        assert(cs.take(k) =~= cs.take(k - 1).push(cs[k - 1]));
    } else {
        assert(cs.take(0) =~= Seq::<CommitView>::empty());
    }
}

/// A commit with files at its root is its own filtered commit.
pub open spec fn is_kept() -> Link {
    |c: CommitView, v: Option<CommitView>| rooted(c) ==> v == Some(c)
}

/// The filter that keeps everything keeps all history as it is, where its first commits
/// have files and nothing else was known.
pub proof fn law_nop_history(rules: Rules, c: CommitView, s: MapsView, n: nat)
    requires
        rooted(c),
        all_linked(s, spec_text(FilterView::Nop), is_kept()),
    ensures
        cached(rules, FilterView::Nop, c, s, n).0 == Some(c),
{
    let f = FilterView::Nop;
    let r = is_kept();
    assert forall|c: CommitView, vs: Seq<Option<CommitView>>|
        vs.len() == c.parents.len() && apply_tree(rules, f, c.tree, n) is Ok && (forall|i: int|
            0 <= i < vs.len() ==> r(c.parents[i], #[trigger] vs[i])) implies r(
        c,
        #[trigger] outcome(rules, f, c, vs, n),
    ) by {
        if rooted(c) {
            assert forall|i: int| 0 <= i < vs.len() implies #[trigger] vs[i] == Some(
                c.parents[i],
            ) by {
                assert(r(c.parents[i], vs[i]));
                assert(rooted(c.parents[i]));
            }
            lemma_present_all(vs, c.parents, vs.len() as int);
            assert(c.parents.take(vs.len() as int) =~= c.parents);
            let t = c.tree;
            assert(apply_tree(rules, f, c.tree, n) == Ok::<Dir, ErrorView>(t));
            assert(selected_parents(c, t, c.parents) == c.parents);
            assert(rewritten(c, c.parents, t) == c);
        }
    }
    lemma_linked_cached(rules, f, c, s, n, r);
}

proof fn lemma_depth_bound(c: CommitView, b: int, k: int)
    requires
        0 <= k <= c.parents.len(),
        0 <= b,
        forall|i: int| 0 <= i < k ==> depth(#[trigger] c.parents[i]) <= b,
    ensures
        crate::walk::parents_depth(c, k) <= b,
    decreases k,
{
    if k > 0 {
        lemma_depth_bound(c, b, k - 1);
    }
}

/// A commit that is there is one of those that were asked for.
pub proof fn lemma_present_in(vs: Seq<Option<CommitView>>, k: int, j: int)
    requires
        0 <= k <= vs.len(),
        0 <= j < present(vs, k).len(),
    ensures
        exists|i: int| 0 <= i < k && #[trigger] vs[i] == Some(present(vs, k)[j]),
    decreases k,
{
    if k > 0 {
        let front = present(vs, k - 1);
        if j < front.len() {
            lemma_present_in(vs, k - 1, j);
            let i = choose|i: int| 0 <= i < k - 1 && #[trigger] vs[i] == Some(front[j]);
            assert(vs[i] == Some(present(vs, k)[j]));
        } else {
            assert(vs[k - 1] == Some(present(vs, k)[j]));
        }
    }
}

/// The filtered commit is no deeper than the commit.
pub open spec fn is_no_deeper() -> Link {
    |c: CommitView, v: Option<CommitView>| v matches Some(x) ==> depth(x) <= depth(c)
}

/// Filtered history is no longer than the history, where that holds of what was known.
pub proof fn law_filtered_depth(rules: Rules, f: FilterView, c: CommitView, s: MapsView, n: nat)
    requires
        is_plain(f),
        all_linked(s, spec_text(f), is_no_deeper()),
    ensures
        cached(rules, f, c, s, n).0 matches Some(x) ==> depth(x) <= depth(c),
{
    let r = is_no_deeper();
    assert forall|c: CommitView, vs: Seq<Option<CommitView>>|
        vs.len() == c.parents.len() && apply_tree(rules, f, c.tree, n) is Ok && (forall|i: int|
            0 <= i < vs.len() ==> r(c.parents[i], #[trigger] vs[i])) implies r(
        c,
        #[trigger] outcome(rules, f, c, vs, n),
    ) by {
        let ps = present(vs, vs.len() as int);
        assert forall|j: int| 0 <= j < ps.len() implies depth(#[trigger] ps[j]) < depth(c) by {
            lemma_present_in(vs, vs.len() as int, j);
            let i = choose|i: int| 0 <= i < vs.len() && #[trigger] vs[i] == Some(ps[j]);
            assert(r(c.parents[i], vs[i]));
            lemma_depth(c, i);
        }
        if let Some(x) = outcome(rules, f, c, vs, n) {
            let t = apply_tree(rules, f, c.tree, n)->Ok_0;
            let selected = selected_parents(c, t, ps);
            if x != ps[0] || ps.len() == 0 || selected.len() > 0 {
                assert(x == rewritten(c, selected, t));
                lemma_depth_bound(x, depth(c) - 1, x.parents.len() as int);
            }
        }
    }
    lemma_linked_cached(rules, f, c, s, n, r);
}

/// Cutting the history off keeps the commit, without parents.
pub proof fn law_cutoff_commit(rules: Rules, name: Seq<char>, c: CommitView, s: MapsView, n: nat)
    ensures
        apply_commit(rules, FilterView::Cutoff(name), c, s, n) == (
            Ok::<Option<CommitView>, ErrorView>(
                Some(CommitView { tree: c.tree, parents: Seq::empty(), meta: c.meta }),
            ),
            s,
        ),
{
}

/// A chain filters a commit by its first part, and what comes out by its second. Where the
/// first part leaves nothing, or fails, so does the chain.
pub proof fn law_chain_commit(
    rules: Rules,
    a: FilterView,
    b: FilterView,
    c: CommitView,
    s: MapsView,
    n: nat,
)
    ensures
        ({
            let x = apply_commit(rules, a, c, s, n);
            let whole = apply_commit(rules, FilterView::Chain(Box::new(a), Box::new(b)), c, s, n);
            match x.0 {
                Ok(Some(y)) => whole == apply_commit(rules, b, y, x.1, n),
                _ => whole == x,
            }
        }),
{
}

/// There is no filtered commit.
pub open spec fn is_gone() -> Link {
    |c: CommitView, v: Option<CommitView>| v is None
}

proof fn lemma_present_none(vs: Seq<Option<CommitView>>, k: int)
    requires
        0 <= k <= vs.len(),
        forall|i: int| 0 <= i < k ==> (#[trigger] vs[i]) is None,
    ensures
        present(vs, k).len() == 0,
    decreases k,
{
    if k > 0 {
        lemma_present_none(vs, k - 1);
    }
}

/// The filter that keeps nothing leaves nothing of any history, where nothing else was
/// known.
pub proof fn law_empty_history(rules: Rules, c: CommitView, s: MapsView, n: nat)
    requires
        all_linked(s, spec_text(FilterView::Empty), is_gone()),
    ensures
        cached(rules, FilterView::Empty, c, s, n).0 is None,
{
    let f = FilterView::Empty;
    let r = is_gone();
    assert forall|c: CommitView, vs: Seq<Option<CommitView>>|
        vs.len() == c.parents.len() && apply_tree(rules, f, c.tree, n) is Ok && (forall|i: int|
            0 <= i < vs.len() ==> r(c.parents[i], #[trigger] vs[i])) implies r(
        c,
        #[trigger] outcome(rules, f, c, vs, n),
    ) by {
        assert forall|i: int| 0 <= i < vs.len() implies (#[trigger] vs[i]) is None by {
            assert(r(c.parents[i], vs[i]));
        }
        lemma_present_none(vs, vs.len() as int);
        assert(apply_tree(rules, f, c.tree, n) == Ok::<Dir, ErrorView>(empty_dir()));
    }
    lemma_linked_cached(rules, f, c, s, n, r);
}

/// A first commit with files is its own folded commit.
pub proof fn law_fold_root(rules: Rules, c: CommitView, s: MapsView, n: nat)
    requires
        c.parents.len() == 0,
        c.tree != empty_dir(),
        !known(s, spec_text(FilterView::Fold), c),
    ensures
        apply_commit(rules, FilterView::Fold, c, s, n) == (
            Ok::<Option<CommitView>, ErrorView>(Some(c)),
            s,
        ),
{
    let none = Seq::<CommitView>::empty();
    assert(c.parents =~= none);
    assert(
        filtered_parents(
            rules,
            FilterView::Fold,
            c,
            s,
            n,
            0,
        ).0 =~= Seq::<Option<CommitView>>::empty()
    );
    assert(present(Seq::empty(), 0) =~= none);
    assert(folded(rules, c.tree, none, 0) == Ok::<Dir, ErrorView>(c.tree));
    assert(selected_parents(c, c.tree, none) =~= none);
    assert(rewritten(c, none, c.tree) == c);
}

/// The tree of the filtered commit in a workspace is what the workspace filter makes of the
/// tree of the commit.
pub proof fn law_workspace_tree(rules: Rules, path: Seq<char>, c: CommitView, s: MapsView, n: nat)
    ensures
        workspace_tree_and_parents(rules, path, c, s, n).0 matches Ok((t, _)) ==> apply_tree(
            rules,
            FilterView::Workspace(path),
            c.tree,
            n,
        ) == Ok::<Dir, ErrorView>(t),
{
    if let Ok((t, _)) = workspace_tree_and_parents(rules, path, c, s, n).0 {
        let cw = workspace(c.tree, path)->Ok_0;
        assert(workspace_tree(rules, cw, c.tree, n) == Ok::<Dir, ErrorView>(t));
    }
}

/// The filtered commit in a workspace has the tree that the workspace filter makes of the
/// tree of the commit, or there is none where that is empty.
pub proof fn law_workspace_commit_tree(
    rules: Rules,
    path: Seq<char>,
    c: CommitView,
    s: MapsView,
    n: nat,
)
    requires
        !known(s, spec_text(FilterView::Workspace(path)), c),
    ensures
        match apply_commit(rules, FilterView::Workspace(path), c, s, n).0 {
            Ok(Some(x)) => apply_tree(rules, FilterView::Workspace(path), c.tree, n) == Ok::<
                Dir,
                ErrorView,
            >(x.tree),
            Ok(None) => apply_tree(
                rules,
                FilterView::Workspace(path),
                c.tree,
                n,
            ) == Ok::<Dir, ErrorView>(
                empty_dir(),
            ),
            Err(_) => true,
        },
{
    let f = FilterView::Workspace(path);
    let x = workspace_tree_and_parents(rules, path, c, s, n);
    assert(apply_commit(rules, f, c, s, n) == workspace_commit(rules, path, c, s, n));
    if let Ok((t, parents)) = x.0 {
        law_created_tree(c, parents, t);
        law_workspace_tree(rules, path, c, s, n);
    }
}

proof fn lemma_without(ts: Seq<Seq<char>>, gone: Seq<Seq<char>>, k: int, x: Seq<char>)
    requires
        0 <= k <= ts.len(),
    ensures
        without(ts, gone, k).contains(x) <==> ts.take(k).contains(x) && !gone.contains(x),
    decreases k,
{
    let r = without(ts, gone, k);
    if k > 0 {
        lemma_without(ts, gone, k - 1, x);
        let front = without(ts, gone, k - 1);
        let y = ts[k - 1];
        let t0 = ts.take(k - 1);
        let t1 = ts.take(k);
        assert(t1 =~= t0.push(y));
        assert(t1.contains(x) <==> t0.contains(x) || x == y) by {
            if t0.contains(x) {
                assert(t1[t0.index_of(x)] == x);
            }
            assert(t1[k - 1] == y);
            if t1.contains(x) {
                let i = t1.index_of(x);
                if i < k - 1 {
                    assert(t0[i] == x);
                }
            }
        }
        if !gone.contains(y) {
            assert(r.contains(x) <==> front.contains(x) || x == y) by {
                if front.contains(x) {
                    assert(r[front.index_of(x)] == x);
                }
                assert(r[front.len() as int] == y);
                if r.contains(x) {
                    let i = r.index_of(x);
                    if i < front.len() {
                        assert(front[i] == x);
                    }
                }
            }
        }
    }
}

/// The mount is one of the workspace at `path` in the tree of `c`.
pub open spec fn has_mount(path: Seq<char>, c: CommitView, line: Seq<char>) -> bool {
    workspace(c.tree, path) matches Ok(w) && mount_texts(w).contains(line)
}

/// The mounts whose history is brought in with a commit are exactly those of its workspace
/// that none of its parents has.
pub proof fn law_new_mounts(
    rules: Rules,
    path: Seq<char>,
    c: CommitView,
    s: MapsView,
    n: nat,
    lines: Seq<Seq<char>>,
    k: int,
    x: Seq<char>,
)
    requires
        0 <= k <= c.parents.len(),
    ensures
        workspace_parents(rules, path, c, s, n, lines, k).0 matches Ok(
            w,
        ) ==> (w.lines.contains(x) <==> (
        lines.contains(x) && forall|i: int|
            0 <= i < k ==> !has_mount(path, #[trigger] c.parents[i], x))),
    decreases k,
{
    if k > 0 {
        law_new_mounts(rules, path, c, s, n, lines, k - 1, x);
        let before = workspace_parents(rules, path, c, s, n, lines, k - 1);
        if let Ok(w) = before.0 {
            if let Ok(pcw) = workspace(c.parents[k - 1].tree, path) {
                lemma_without(w.lines, mount_texts(pcw), w.lines.len() as int, x);
                assert(w.lines.take(w.lines.len() as int) =~= w.lines);
                assert(has_mount(path, c.parents[k - 1], x) == mount_texts(pcw).contains(x));
            }
        }
    }
}

} // verus!
