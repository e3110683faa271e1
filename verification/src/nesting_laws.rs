//! How deep workspaces may stand in workspaces makes no difference where it is deep enough.

use crate::apply::{
    apply_combine, apply_tree, combine_from_ws, unapply_combine, unapply_mounts, unapply_tree,
    workspace,
};
use crate::error::ErrorView;
use crate::filter::{subdir_filter, CombineView, FilterView};
use crate::node::{empty_dir, Dir, Node, Rules};
use crate::path::{lookup, replace_at};
use vstd::prelude::*;

verus! {

/// What a filter makes of a tree is the same however much deeper workspaces may stand in
/// workspaces, where they do not stand too deep.
pub proof fn law_apply_deeper(rules: Rules, f: FilterView, d: Dir, n: nat, m: nat)
    requires
        n <= m,
        apply_tree(rules, f, d, n) != Err::<Dir, ErrorView>(ErrorView::TooDeep),
    ensures
        apply_tree(rules, f, d, m) == apply_tree(rules, f, d, n),
    decreases n, f, 0int,
{
    match f {
        FilterView::Chain(a, b) => {
            law_apply_deeper(rules, *a, d, n, m);
            if let Ok(t) = apply_tree(rules, *a, d, n) {
                law_apply_deeper(rules, *b, t, n, m);
            }
        },
        FilterView::Combine(c) => {
            law_apply_combine_deeper(rules, c, d, n, m, c.mounts.len() as int);
        },
        FilterView::Workspace(path) => {
            if let Ok(c) = workspace(d, path) {
                law_apply_combine_deeper(
                    rules,
                    c,
                    d,
                    (n - 1) as nat,
                    (m - 1) as nat,
                    c.mounts.len() as int,
                );
            }
        },
        _ => {},
    }
}

/// What the first `k` mounts of a combination make of a tree is the same however much
/// deeper workspaces may stand in workspaces, where they do not stand too deep.
pub proof fn law_apply_combine_deeper(rules: Rules, c: CombineView, d: Dir, n: nat, m: nat, k: int)
    requires
        n <= m,
        apply_combine(rules, c, d, n, k) != Err::<Dir, ErrorView>(ErrorView::TooDeep),
    ensures
        apply_combine(rules, c, d, m, k) == apply_combine(rules, c, d, n, k),
    decreases n, c, k,
{
    if k <= 0 || k > c.mounts.len() {
        law_apply_deeper(rules, *c.base, d, n, m);
    } else {
        law_apply_combine_deeper(rules, c, d, n, m, k - 1);
        if apply_combine(rules, c, d, n, k - 1) is Ok {
            law_apply_deeper(rules, c.mounts[k - 1].filter, d, n, m);
        }
    }
}

/// What a tree becomes when a change is taken back is the same however much deeper
/// workspaces may stand in workspaces, where they do not stand too deep.
pub proof fn law_unapply_deeper(rules: Rules, f: FilterView, t: Dir, parent: Dir, n: nat, m: nat)
    requires
        n <= m,
        unapply_tree(rules, f, t, parent, n) != Err::<Dir, ErrorView>(ErrorView::TooDeep),
    ensures
        unapply_tree(rules, f, t, parent, m) == unapply_tree(rules, f, t, parent, n),
    decreases n, f, 0int,
{
    match f {
        FilterView::Chain(a, b) => {
            law_apply_deeper(rules, *a, parent, n, m);
            if let Ok(p) = apply_tree(rules, *a, parent, n) {
                law_unapply_deeper(rules, *b, t, p, n, m);
                if let Ok(x) = unapply_tree(rules, *b, t, p, n) {
                    law_unapply_deeper(rules, *a, x, parent, n, m);
                }
            }
        },
        FilterView::Combine(c) => {
            lemma_unapply_combine_deeper(rules, c, t, parent, n, m);
        },
        FilterView::Workspace(path) => {
            if let Ok(c) = combine_from_ws(t, ""@) {
                let w = CombineView { base: Box::new(subdir_filter(path)), mounts: c.mounts };
                lemma_unapply_combine_deeper(rules, w, t, parent, (n - 1) as nat, (m - 1) as nat);
            }
        },
        _ => {},
    }
}

proof fn lemma_unapply_mounts_deeper(
    rules: Rules,
    c: CombineView,
    t: Dir,
    parent: Dir,
    n: nat,
    m: nat,
    k: int,
)
    requires
        n <= m,
        unapply_mounts(rules, c, t, parent, n, k) != Err::<(Dir, Dir), ErrorView>(
            ErrorView::TooDeep,
        ),
    ensures
        unapply_mounts(rules, c, t, parent, m, k) == unapply_mounts(rules, c, t, parent, n, k),
    decreases n, c, k,
{
    if 0 < k <= c.mounts.len() {
        lemma_unapply_mounts_deeper(rules, c, t, parent, n, m, k - 1);
        if let Ok((rest, result)) = unapply_mounts(rules, c, t, parent, n, k - 1) {
            let prefix = c.mounts[k - 1].prefix;
            if replace_at(rules, rest, prefix, Some(Node::Dir(empty_dir()))) is Ok {
                if let Some(Node::Dir(w)) = lookup(rest, prefix) {
                    if w != empty_dir() {
                        law_unapply_deeper(rules, c.mounts[k - 1].filter, w, result, n, m);
                    }
                }
            }
        }
    }
}

proof fn lemma_unapply_combine_deeper(
    rules: Rules,
    c: CombineView,
    t: Dir,
    parent: Dir,
    n: nat,
    m: nat,
)
    requires
        n <= m,
        unapply_combine(rules, c, t, parent, n) != Err::<Dir, ErrorView>(ErrorView::TooDeep),
    ensures
        unapply_combine(rules, c, t, parent, m) == unapply_combine(rules, c, t, parent, n),
    decreases n, c, c.mounts.len() + 1,
{
    let len = c.mounts.len() as int;
    lemma_unapply_mounts_deeper(rules, c, t, parent, n, m, len);
    if let Ok((rest, result)) = unapply_mounts(rules, c, t, parent, n, len) {
        law_unapply_deeper(rules, *c.base, rest, result, n, m);
    }
}

} // verus!
