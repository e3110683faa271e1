//! What filters do to commits and their history.

use crate::apply::{apply_combine, apply_tree, workspace};
use crate::arena::CommitView;
use crate::cache::CacheView;
use crate::error::ErrorView;
use crate::filter::{mount_text, spec_text, CombineView, FilterView};
use crate::grammar::checked_combine;
use crate::merge::{merge, mergeable};
use crate::node::{empty_dir, Dir, Node, Rules};
use crate::walk::{depth, history, lemma_depth};
use vstd::prelude::*;

verus! {

/// What is known of filtered commits: the filtered commit for each commit, and the other
/// way round.
pub struct MapsView {
    pub forward: CacheView,
    pub backward: CacheView,
}

/// Whether the filtered commit for `c` is known.
pub open spec fn known(s: MapsView, text: Seq<char>, c: CommitView) -> bool {
    s.forward.dom().contains((text, Some(c)))
}

/// The filtered commit for `c`, where it is known.
pub open spec fn recalled(s: MapsView, text: Seq<char>, c: CommitView) -> Option<CommitView> {
    s.forward[(text, Some(c))]
}

/// What is known once `v` was found to be the filtered commit for `c`.
pub open spec fn recorded(
    s: MapsView,
    text: Seq<char>,
    c: CommitView,
    v: Option<CommitView>,
) -> MapsView {
    MapsView {
        forward: s.forward.insert((text, Some(c)), v),
        backward: s.backward.insert((text, v), Some(c)),
    }
}

/// The commits that there are among the first `k`.
pub open spec fn present(vs: Seq<Option<CommitView>>, k: int) -> Seq<CommitView>
    decreases k,
{
    if k <= 0 {
        Seq::empty()
    } else {
        match vs[k - 1] {
            Some(c) => present(vs, k - 1).push(c),
            None => present(vs, k - 1),
        }
    }
}

/// The parents that a filtered commit gets: all, where its tree differs from that of one
/// of them or the original commit changed nothing, else none.
pub open spec fn selected_parents(original: CommitView, tree: Dir, parents: Seq<CommitView>) -> Seq<
    CommitView,
> {
    if (exists|i: int| 0 <= i < parents.len() && (#[trigger] parents[i]).tree != tree) || (forall|
        i: int,
    |
        0 <= i < original.parents.len() ==> (#[trigger] original.parents[i]).tree == original.tree) {
        parents
    } else {
        Seq::empty()
    }
}

/// The commit with another tree and other parents.
pub open spec fn rewritten(c: CommitView, parents: Seq<CommitView>, tree: Dir) -> CommitView {
    CommitView { tree, parents, meta: c.meta }
}

/// The filtered commit for `original`, whose filtered parents and tree are given. Where it
/// would change nothing, its first parent stands for it. A first commit without files is
/// left out.
pub open spec fn created(original: CommitView, parents: Seq<CommitView>, tree: Dir) -> Option<
    CommitView,
> {
    let selected = selected_parents(original, tree, parents);
    if selected.len() == 0 && parents.len() > 0 {
        Some(parents[0])
    } else if selected.len() == 0 && tree == empty_dir() {
        None
    } else {
        Some(rewritten(original, selected, tree))
    }
}

/// The tree with the trees of the first `k` commits laid over it.
pub open spec fn folded(
    rules: Rules,
    tree: Dir,
    cs: Seq<CommitView>,
    k: int,
) -> Result<Dir, ErrorView>
    decreases k,
{
    if k <= 0 {
        Ok(tree)
    } else {
        match folded(rules, tree, cs, k - 1) {
            Err(e) => Err(e),
            Ok(t) => if mergeable(Node::Dir(t), Node::Dir(cs[k - 1].tree)) {
                Ok(merge(rules, Node::Dir(t), Node::Dir(cs[k - 1].tree))->Dir_0)
            } else {
                Err(ErrorView::NoName)
            },
        }
    }
}

/// The texts of the mounts of a combination.
pub open spec fn mount_texts(c: CombineView) -> Seq<Seq<char>> {
    Seq::new(c.mounts.len(), |i: int| mount_text(c.mounts[i]))
}

/// The texts among the first `k`, each where it first stands.
pub open spec fn distinct(ts: Seq<Seq<char>>, k: int) -> Seq<Seq<char>>
    decreases k,
{
    if k <= 0 {
        Seq::empty()
    } else {
        let r = distinct(ts, k - 1);
        if r.contains(ts[k - 1]) {
            r
        } else {
            r.push(ts[k - 1])
        }
    }
}

/// The texts among the first `k` that are not in `gone`.
pub open spec fn without(ts: Seq<Seq<char>>, gone: Seq<Seq<char>>, k: int) -> Seq<Seq<char>>
    decreases k,
{
    if k <= 0 {
        Seq::empty()
    } else {
        let r = without(ts, gone, k - 1);
        if gone.contains(ts[k - 1]) {
            r
        } else {
            r.push(ts[k - 1])
        }
    }
}

/// The first `k` texts, each on a line of its own.
pub open spec fn lines_text(ts: Seq<Seq<char>>, k: int) -> Seq<char>
    decreases k,
{
    if k <= 0 {
        Seq::empty()
    } else {
        lines_text(ts, k - 1) + ts[k - 1] + "\n"@
    }
}

/// How deep chains and workspaces stand in a filter.
pub open spec fn height(f: FilterView) -> nat
    decreases f,
{
    match f {
        FilterView::Chain(a, b) => if height(*a) > height(*b) {
            height(*a) + 1
        } else {
            height(*b) + 1
        },
        FilterView::Workspace(_) => 1,
        _ => 0,
    }
}

/// What became of the parents of a commit in a workspace: the filtered commits, and the
/// mounts that none of them has.
pub struct WorkspaceParents {
    pub commits: Seq<CommitView>,
    pub lines: Seq<Seq<char>>,
}

/// What the combination for a workspace makes of a tree.
pub open spec fn workspace_tree(
    rules: Rules,
    c: CombineView,
    d: Dir,
    n: nat,
) -> Result<Dir, ErrorView> {
    if n == 0 {
        Err(ErrorView::TooDeep)
    } else {
        apply_combine(rules, c, d, (n - 1) as nat, c.mounts.len() as int)
    }
}

/// The filtered commit for `c`, or none where nothing is left of it, and what is known
/// after that, where `s` is known before.
pub open spec fn apply_commit(rules: Rules, f: FilterView, c: CommitView, s: MapsView, n: nat) -> (
    Result<Option<CommitView>, ErrorView>,
    MapsView,
)
    decreases height(f), depth(c), 1int, 0int,
{
    match f {
        FilterView::Chain(a, b) => {
            let x = apply_commit(rules, *a, c, s, n);
            match x.0 {
                Ok(Some(y)) => apply_commit(rules, *b, y, x.1, n),
                _ => x,
            }
        },
        FilterView::Cutoff(_) => (Ok(Some(rewritten(c, Seq::empty(), c.tree))), s),
        _ => if known(s, spec_text(f), c) {
            (Ok(recalled(s, spec_text(f), c)), s)
        } else {
            match f {
                FilterView::Fold => {
                    let ps = filtered_parents(rules, f, c, s, n, c.parents.len() as int);
                    let there = present(ps.0, ps.0.len() as int);
                    if there.len() < ps.0.len() {
                        (Err(ErrorView::NotFound), ps.1)
                    } else {
                        match folded(rules, c.tree, there, there.len() as int) {
                            Err(e) => (Err(e), ps.1),
                            Ok(t) => (Ok(created(c, there, t)), ps.1),
                        }
                    }
                },
                FilterView::Workspace(path) => workspace_commit(rules, path, c, s, n),
                _ => match apply_tree(rules, f, c.tree, n) {
                    Err(e) => (Err(e), s),
                    Ok(t) => {
                        let ps = filtered_parents(rules, f, c, s, n, c.parents.len() as int);
                        (Ok(created(c, present(ps.0, ps.0.len() as int), t)), ps.1)
                    },
                },
            }
        },
    }
}

/// The filtered commits for the first `k` parents of `c`.
pub open spec fn filtered_parents(
    rules: Rules,
    f: FilterView,
    c: CommitView,
    s: MapsView,
    n: nat,
    k: int,
) -> (
    Seq<Option<CommitView>>,
    MapsView,
)
    decreases height(f), depth(c), 0int, k,
{
    if 0 < k <= c.parents.len() {
        proof {
            lemma_depth(c, k - 1);
        }
        let ps = filtered_parents(rules, f, c, s, n, k - 1);
        let x = cached(rules, f, c.parents[k - 1], ps.1, n);
        (ps.0.push(x.0), x.1)
    } else {
        (Seq::empty(), s)
    }
}

/// What becomes of the first `k` parents of `c` in the workspace at `path`, where `lines`
/// are the mounts of `c`.
pub open spec fn workspace_parents(
    rules: Rules,
    path: Seq<char>,
    c: CommitView,
    s: MapsView,
    n: nat,
    lines: Seq<Seq<char>>,
    k: int,
) -> (Result<WorkspaceParents, ErrorView>, MapsView)
    decreases 1nat, depth(c), 0int, k,
{
    if 0 < k <= c.parents.len() {
        proof {
            lemma_depth(c, k - 1);
        }
        let before = workspace_parents(rules, path, c, s, n, lines, k - 1);
        match before.0 {
            Err(e) => before,
            Ok(w) => {
                let x = cached(rules, FilterView::Workspace(path), c.parents[k - 1], before.1, n);
                match workspace(c.parents[k - 1].tree, path) {
                    Err(e) => (Err(e), x.1),
                    Ok(pcw) => (
                        Ok(
                            WorkspaceParents {
                                commits: match x.0 {
                                    Some(v) => w.commits.push(v),
                                    None => w.commits,
                                },
                                lines: without(w.lines, mount_texts(pcw), w.lines.len() as int),
                            },
                        ),
                        x.1,
                    ),
                }
            },
        }
    } else {
        (Ok(WorkspaceParents { commits: Seq::empty(), lines }), s)
    }
}

/// What the mounts that are new in a workspace make of the history before `c`: one more
/// parent, where they find anything in its first parent.
pub open spec fn with_new_mounts(
    rules: Rules,
    c: CommitView,
    w: WorkspaceParents,
    s: MapsView,
    n: nat,
) -> (
    Result<Seq<CommitView>, ErrorView>,
    MapsView,
)
    decreases 1nat, depth(c), 0int, 0int,
{
    match checked_combine(lines_text(w.lines, w.lines.len() as int), FilterView::Empty) {
        Err(e) => (Err(e), s),
        Ok(pcw) => if c.parents.len() == 0 {
            (Ok(w.commits), s)
        } else {
            let x = apply_commit(rules, FilterView::Combine(pcw), c.parents[0], s, n);
            match x.0 {
                Err(e) => (Err(e), x.1),
                Ok(None) => (Ok(w.commits), x.1),
                Ok(Some(v)) => (Ok(w.commits.push(v)), x.1),
            }
        },
    }
}

/// The tree and the parents of the filtered commit for `c` in the workspace at `path`.
pub open spec fn workspace_tree_and_parents(
    rules: Rules,
    path: Seq<char>,
    c: CommitView,
    s: MapsView,
    n: nat,
) -> (Result<(Dir, Seq<CommitView>), ErrorView>, MapsView)
    decreases 1nat, depth(c), 0int, c.parents.len() + 1,
{
    match workspace(c.tree, path) {
        Err(e) => (Err(e), s),
        Ok(cw) => {
            let lines = mount_texts(cw);
            let ps = workspace_parents(
                rules,
                path,
                c,
                s,
                n,
                distinct(lines, lines.len() as int),
                c.parents.len() as int,
            );
            match ps.0 {
                Err(e) => (Err(e), ps.1),
                Ok(w) => {
                    let x = with_new_mounts(rules, c, w, ps.1, n);
                    match x.0 {
                        Err(e) => (Err(e), x.1),
                        Ok(parents) => match workspace_tree(rules, cw, c.tree, n) {
                            Err(e) => (Err(e), x.1),
                            Ok(t) => (Ok((t, parents)), x.1),
                        },
                    }
                },
            }
        },
    }
}

/// The filtered commit for `c` in the workspace at `path`.
pub open spec fn workspace_commit(
    rules: Rules,
    path: Seq<char>,
    c: CommitView,
    s: MapsView,
    n: nat,
) -> (
    Result<Option<CommitView>, ErrorView>,
    MapsView,
)
    decreases 1nat, depth(c), 0int, c.parents.len() + 2,
{
    let x = workspace_tree_and_parents(rules, path, c, s, n);
    match x.0 {
        Err(e) => (Err(e), x.1),
        Ok((t, parents)) => (Ok(created(c, parents, t)), x.1),
    }
}

/// What is known once the first `k` commits of a list, none deeper than `bound`, were
/// filtered. A commit that cannot be filtered is left out.
pub open spec fn filtered_list(
    rules: Rules,
    f: FilterView,
    list: Seq<CommitView>,
    bound: nat,
    s: MapsView,
    n: nat,
    k: int,
) -> MapsView
    decreases height(f), bound, 2int, k,
{
    if 0 < k <= list.len() {
        let before = filtered_list(rules, f, list, bound, s, n, k - 1);
        let c = list[k - 1];
        if depth(c) <= bound {
            let x = apply_commit(rules, f, c, before, n);
            let v = match x.0 {
                Ok(v) => v,
                Err(_) => None,
            };
            recorded(x.1, spec_text(f), c, v)
        } else {
            before
        }
    } else {
        s
    }
}

/// The filtered commit for `c`, as it is known or, where it is not, after all its history
/// was filtered, oldest first.
pub open spec fn cached(rules: Rules, f: FilterView, c: CommitView, s: MapsView, n: nat) -> (
    Option<CommitView>,
    MapsView,
)
    decreases height(f), depth(c), 3int, 0int,
{
    if known(s, spec_text(f), c) {
        (recalled(s, spec_text(f), c), s)
    } else {
        let x = filtered_list(rules, f, history(c), depth(c), s, n, history(c).len() as int);
        (recalled(x, spec_text(f), c), x)
    }
}

} // verus!
