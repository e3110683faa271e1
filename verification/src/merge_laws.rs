//! What holds of laying trees over each other where they fit together.

use crate::apply::apply_tree;
use crate::arena::CommitView;
use crate::commits::{
    apply_commit, cached, created, filtered_parents, folded, known, present, MapsView,
};
use crate::error::ErrorView;
use crate::filter::{spec_text, FilterView};
use crate::glob_laws::{
    file_at, law_strip_keeps, lemma_kept, lemma_same_dir, names_ok, path_text, tidy,
};
use crate::history_laws::{all_linked, law_created_tree, lemma_linked_cached, outcome, Link};
use crate::merge::{lemma_merge_dirs, merge, mergeable, merged_child};
use crate::node::{child, child_after, empty_dir, name_ok, plain, Dir, Node, Rules};
use crate::pattern::pattern_hits;
use crate::strip::{dir_path, strip};
use vstd::prelude::*;
use vstd::utf8::{decode_utf8, valid_utf8};

verus! {

/// No path leads to a file in the one and to a directory in the other.
pub open spec fn fit(a: Node, b: Node) -> bool
    decreases a,
{
    match (a, b) {
        (Node::Blob { .. }, Node::Blob { .. }) => true,
        (Node::Dir(m), Node::Dir(w)) => forall|name: Seq<u8>| #[trigger]
            m.dom().contains(name) && w.dom().contains(name) ==> fit(m[name], w[name]),
        _ => false,
    }
}

/// A path that leads to something in both leads to directories, or to the same file.
pub open spec fn agree(a: Node, b: Node) -> bool
    decreases a,
{
    match (a, b) {
        (Node::Blob { .. }, Node::Blob { .. }) => a == b,
        (Node::Dir(m), Node::Dir(w)) => forall|name: Seq<u8>| #[trigger]
            m.dom().contains(name) && w.dom().contains(name) ==> agree(m[name], w[name]),
        _ => false,
    }
}

proof fn lemma_agree_fit(a: Node, b: Node)
    requires
        agree(a, b),
    ensures
        fit(a, b),
    decreases a,
{
    if let (Node::Dir(m), Node::Dir(w)) = (a, b) {
        assert forall|name: Seq<u8>| #[trigger]
            m.dom().contains(name) && w.dom().contains(name) implies fit(m[name], w[name]) by {
            lemma_agree_fit(m[name], w[name]);
        }
    }
}

pub proof fn lemma_fit_symmetric(a: Node, b: Node)
    requires
        fit(a, b),
    ensures
        fit(b, a),
    decreases a,
{
    if let (Node::Dir(m), Node::Dir(w)) = (a, b) {
        assert forall|name: Seq<u8>| #[trigger]
            w.dom().contains(name) && m.dom().contains(name) implies fit(w[name], m[name]) by {
            assert(m.dom().contains(name));
            lemma_fit_symmetric(m[name], w[name]);
        }
    }
}

/// What stands under `name` once `mb` was laid over `ma`, where the two fit.
pub open spec fn joined_child(rules: Rules, ma: Dir, mb: Dir, name: Seq<u8>) -> Option<Node> {
    if ma.dom().contains(name) && mb.dom().contains(name) {
        Some(merge(rules, mb[name], ma[name]))
    } else if mb.dom().contains(name) {
        child(mb, name)
    } else {
        child(ma, name)
    }
}

/// Two tidy directories that fit merge, in either order, to a tidy one that has the entries
/// of both.
pub proof fn lemma_join(rules: Rules, ma: Dir, mb: Dir)
    requires
        tidy(rules, Node::Dir(ma)),
        tidy(rules, Node::Dir(mb)),
        fit(Node::Dir(ma), Node::Dir(mb)),
    ensures
        ({
            let x = merge(rules, Node::Dir(ma), Node::Dir(mb));
            let y = merge(rules, Node::Dir(mb), Node::Dir(ma));
            &&& x is Dir && y is Dir
            &&& tidy(rules, x) && tidy(rules, y)
            &&& mergeable(Node::Dir(ma), Node::Dir(mb))
            &&& mergeable(Node::Dir(mb), Node::Dir(ma))
            &&& forall|name: Seq<u8>| #[trigger] child(x->Dir_0, name) == joined_child(
                rules,
                ma,
                mb,
                name,
            )
            &&& forall|name: Seq<u8>| #[trigger] child(y->Dir_0, name) == joined_child(
                rules,
                mb,
                ma,
                name,
            )
            &&& (x == Node::Dir(empty_dir()) <==> ma == empty_dir() && mb == empty_dir())
            &&& (y == Node::Dir(empty_dir()) <==> ma == empty_dir() && mb == empty_dir())
        }),
    decreases Node::Dir(ma),
{
    let a = Node::Dir(ma);
    let b = Node::Dir(mb);
    let x = merge(rules, a, b);
    let y = merge(rules, b, a);
    assert forall|name: Seq<u8>| #[trigger] ma.dom().contains(name) implies plain(ma[name])
        == ma[name] && child_after(rules, None, name, Some(ma[name])) == Some(
            ma[name],
        ) && valid_utf8(
        name,
    ) by {
        assert(tidy(rules, ma[name]));
    }
    assert forall|name: Seq<u8>| #[trigger] mb.dom().contains(name) implies plain(mb[name])
        == mb[name] && child_after(rules, None, name, Some(mb[name])) == Some(
            mb[name],
        ) && valid_utf8(
        name,
    ) by {
        assert(tidy(rules, mb[name]));
    }
    assert forall|name: Seq<u8>| #[trigger] ma.dom().contains(name) && mb.dom().contains(
        name,
    ) implies {
        let p = merge(rules, mb[name], ma[name]);
        let q = merge(rules, ma[name], mb[name]);
        &&& tidy(rules, p) && tidy(rules, q)
        &&& mergeable(mb[name], ma[name]) && mergeable(ma[name], mb[name])
        &&& p != Node::Dir(empty_dir()) && q != Node::Dir(empty_dir())
        &&& child_after(rules, Some(ma[name]), name, Some(p)) == Some(p)
        &&& child_after(rules, Some(mb[name]), name, Some(q)) == Some(q)
    } by {
        assert(tidy(rules, ma[name]));
        assert(tidy(rules, mb[name]));
        assert(mb.dom().contains(name));
        assert(fit(ma[name], mb[name]));
        assert(decreases_to!(Node::Dir(ma) => ma[name]));
        if let (Node::Dir(m), Node::Dir(w)) = (ma[name], mb[name]) {
            lemma_join(rules, m, w);
        }
    }
    if ma == mb {
        assert forall|name: Seq<u8>| #[trigger] child(ma, name) == joined_child(
            rules,
            ma,
            mb,
            name,
        ) by {
            if ma.dom().contains(name) {
                assert(plain(ma[name]) == ma[name]);
            }
        }
    } else if ma == empty_dir() || mb == empty_dir() {
    } else {
        lemma_merge_dirs(rules, ma, mb);
        lemma_merge_dirs(rules, mb, ma);
        assert forall|name: Seq<u8>| #[trigger] child(x->Dir_0, name) == joined_child(
            rules,
            ma,
            mb,
            name,
        ) by {
            assert(child(x->Dir_0, name) == merged_child(rules, ma, mb, name));
            if mb.dom().contains(name) && ma.dom().contains(name) {
            } else if mb.dom().contains(name) {
            }
        }
        assert forall|name: Seq<u8>| #[trigger] child(y->Dir_0, name) == joined_child(
            rules,
            mb,
            ma,
            name,
        ) by {
            assert(child(y->Dir_0, name) == merged_child(rules, mb, ma, name));
            if mb.dom().contains(name) && ma.dom().contains(name) {
            } else if ma.dom().contains(name) {
            }
        }
        assert(mergeable(a, b)) by {
            assert forall|n: Seq<u8>| #[trigger] mb.dom().contains(n) implies valid_utf8(n) && (
            ma.dom().contains(n) ==> mergeable(mb[n], ma[n])) by {
                if ma.dom().contains(n) {
                }
            }
        }
        assert(mergeable(b, a)) by {
            assert forall|n: Seq<u8>| #[trigger] ma.dom().contains(n) implies valid_utf8(n) && (
            mb.dom().contains(n) ==> mergeable(ma[n], mb[n])) by {}
        }
    }
    lemma_joined_tidy(rules, ma, mb, x->Dir_0);
    lemma_joined_tidy(rules, mb, ma, y->Dir_0);
}

/// What has the entries of two tidy directories is tidy.
proof fn lemma_joined_tidy(rules: Rules, ma: Dir, mb: Dir, m: Dir)
    requires
        tidy(rules, Node::Dir(ma)),
        tidy(rules, Node::Dir(mb)),
        forall|name: Seq<u8>| #[trigger] child(m, name) == joined_child(rules, ma, mb, name),
        forall|name: Seq<u8>| #[trigger]
            ma.dom().contains(name) && mb.dom().contains(name) ==> tidy(
                rules,
                merge(rules, mb[name], ma[name]),
            )
                && merge(rules, mb[name], ma[name]) != Node::Dir(empty_dir()),
    ensures
        tidy(rules, Node::Dir(m)),
        m == empty_dir() <==> ma == empty_dir() && mb == empty_dir(),
{
    assert forall|name: Seq<u8>| #[trigger] m.dom().contains(name) implies {
        &&& name_ok(rules, name)
        &&& valid_utf8(name)
        &&& m[name] != Node::Dir(empty_dir())
        &&& tidy(rules, m[name])
    } by {
        assert(child(m, name) == joined_child(rules, ma, mb, name));
        if ma.dom().contains(name) {
            assert(tidy(rules, ma[name]));
        }
        if mb.dom().contains(name) {
            assert(tidy(rules, mb[name]));
        }
    }
    if ma == empty_dir() && mb == empty_dir() {
        assert forall|name: Seq<u8>| !#[trigger] m.dom().contains(name) by {
            assert(child(m, name) == joined_child(rules, ma, mb, name));
        }
        assert(m =~= empty_dir());
    }
    if m == empty_dir() {
        assert forall|name: Seq<u8>| !#[trigger] ma.dom().contains(name) by {
            assert(child(m, name) == joined_child(rules, ma, mb, name));
        }
        assert forall|name: Seq<u8>| !#[trigger] mb.dom().contains(name) by {
            assert(child(m, name) == joined_child(rules, ma, mb, name));
        }
        assert(ma =~= empty_dir());
        assert(mb =~= empty_dir());
    }
}

/// Where two tidy trees agree on all that both have, it makes no difference which is laid
/// over which, and both ways succeed.
pub proof fn law_merge_commutes(rules: Rules, ma: Dir, mb: Dir)
    requires
        tidy(rules, Node::Dir(ma)),
        tidy(rules, Node::Dir(mb)),
        agree(Node::Dir(ma), Node::Dir(mb)),
    ensures
        mergeable(Node::Dir(ma), Node::Dir(mb)),
        mergeable(Node::Dir(mb), Node::Dir(ma)),
        merge(rules, Node::Dir(ma), Node::Dir(mb)) == merge(rules, Node::Dir(mb), Node::Dir(ma)),
    decreases Node::Dir(ma),
{
    lemma_agree_fit(Node::Dir(ma), Node::Dir(mb));
    lemma_join(rules, ma, mb);
    let x = merge(rules, Node::Dir(ma), Node::Dir(mb))->Dir_0;
    let y = merge(rules, Node::Dir(mb), Node::Dir(ma))->Dir_0;
    assert forall|name: Seq<u8>| #[trigger] child(x, name) == child(y, name) by {
        assert(child(y, name) == joined_child(rules, mb, ma, name));
        if ma.dom().contains(name) && mb.dom().contains(name) {
            assert(agree(ma[name], mb[name]));
            assert(tidy(rules, ma[name]) && tidy(rules, mb[name]));
            assert(decreases_to!(Node::Dir(ma) => ma[name]));
            if let (Node::Dir(m), Node::Dir(w)) = (ma[name], mb[name]) {
                law_merge_commutes(rules, m, w);
            }
        }
    }
    lemma_same_dir(x, y);
}

/// Laying one tidy tree over another that fits loses no file and makes none up: a path
/// leads to a file in the result where it does in one of the two.
pub proof fn law_merge_files(rules: Rules, ma: Dir, mb: Dir, names: Seq<Seq<u8>>)
    requires
        tidy(rules, Node::Dir(ma)),
        tidy(rules, Node::Dir(mb)),
        fit(Node::Dir(ma), Node::Dir(mb)),
    ensures
        mergeable(Node::Dir(ma), Node::Dir(mb)),
        merge(rules, Node::Dir(ma), Node::Dir(mb)) matches Node::Dir(
            m,
        ) && (file_at(m, names) is Some <==>
            file_at(ma, names) is Some || file_at(mb, names) is Some),
    decreases names.len(),
{
    lemma_join(rules, ma, mb);
    if names.len() > 0 {
        let m = merge(rules, Node::Dir(ma), Node::Dir(mb))->Dir_0;
        let name = names[0];
        let rest = names.skip(1);
        assert(child(m, name) == joined_child(rules, ma, mb, name));
        if ma.dom().contains(name) && mb.dom().contains(name) {
            assert(fit(ma[name], mb[name]));
            assert(tidy(rules, ma[name]) && tidy(rules, mb[name]));
            if let (Node::Dir(p), Node::Dir(q)) = (ma[name], mb[name]) {
                lemma_fit_symmetric(ma[name], mb[name]);
                law_merge_files(rules, q, p, rest);
            }
        }
    }
}

/// A tree that fits with two trees fits with what they merge to.
proof fn lemma_fit_join(rules: Rules, ma: Dir, mb: Dir, mc: Dir)
    requires
        tidy(rules, Node::Dir(ma)),
        tidy(rules, Node::Dir(mb)),
        fit(Node::Dir(ma), Node::Dir(mb)),
        fit(Node::Dir(ma), Node::Dir(mc)),
        fit(Node::Dir(mb), Node::Dir(mc)),
    ensures
        fit(merge(rules, Node::Dir(ma), Node::Dir(mb)), Node::Dir(mc)),
        fit(merge(rules, Node::Dir(mb), Node::Dir(ma)), Node::Dir(mc)),
    decreases Node::Dir(ma),
{
    lemma_join(rules, ma, mb);
    let x = merge(rules, Node::Dir(ma), Node::Dir(mb))->Dir_0;
    let y = merge(rules, Node::Dir(mb), Node::Dir(ma))->Dir_0;
    assert forall|name: Seq<u8>|
        #![trigger x.dom().contains(name)]
        #![trigger y.dom().contains(name)]
        mc.dom().contains(name) implies (x.dom().contains(name) ==> fit(x[name], mc[name])) && (
    y.dom().contains(name) ==> fit(y[name], mc[name])) by {
        assert(child(x, name) == joined_child(rules, ma, mb, name));
        assert(child(y, name) == joined_child(rules, mb, ma, name));
        if ma.dom().contains(name) {
            assert(fit(ma[name], mc[name]));
            assert(tidy(rules, ma[name]));
        }
        if mb.dom().contains(name) {
            assert(fit(mb[name], mc[name]));
            assert(tidy(rules, mb[name]));
        }
        if ma.dom().contains(name) && mb.dom().contains(name) {
            assert(fit(ma[name], mb[name]));
            assert(decreases_to!(Node::Dir(ma) => ma[name]));
            if let (Node::Dir(p), Node::Dir(q)) = (ma[name], mb[name]) {
                lemma_fit_join(rules, p, q, mc[name]->Dir_0);
            }
        }
    }
}

/// The tree and the trees of the first `k` commits are tidy, and fit with each other.
pub open spec fn all_fit(rules: Rules, tree: Dir, cs: Seq<CommitView>, k: int) -> bool {
    &&& tidy(rules, Node::Dir(tree))
    &&& forall|i: int|
        0 <= i < k ==> tidy(rules, Node::Dir((#[trigger] cs[i]).tree)) && fit(
            Node::Dir(tree),
            Node::Dir(cs[i].tree),
        )
    &&& forall|i: int, j: int|
        0 <= i < j < k ==> fit(
            Node::Dir((#[trigger] cs[i]).tree),
            Node::Dir((#[trigger] cs[j]).tree),
        )
}

/// A path leads to a file in the tree, or in that of one of the first `k` commits.
pub open spec fn in_any(tree: Dir, cs: Seq<CommitView>, k: int, names: Seq<Seq<u8>>) -> bool {
    file_at(tree, names) is Some || exists|i: int|
        0 <= i < k && file_at((#[trigger] cs[i]).tree, names) is Some
}

proof fn lemma_folded(
    rules: Rules,
    tree: Dir,
    cs: Seq<CommitView>,
    k: int,
    len: int,
    names: Seq<Seq<u8>>,
)
    requires
        0 <= k <= len <= cs.len(),
        all_fit(rules, tree, cs, len),
    ensures
        folded(rules, tree, cs, k) matches Ok(t) && {
            &&& tidy(rules, Node::Dir(t))
            &&& forall|j: int|
                k <= j < len ==> fit(Node::Dir(t), Node::Dir((#[trigger] cs[j]).tree))
            &&& (file_at(t, names) is Some <==> in_any(tree, cs, k, names))
        },
    decreases k,
{
    if k > 0 {
        lemma_folded(rules, tree, cs, k - 1, len, names);
        let t = folded(rules, tree, cs, k - 1)->Ok_0;
        let c = cs[k - 1];
        assert(tidy(rules, Node::Dir(c.tree)));
        assert(fit(Node::Dir(t), Node::Dir(c.tree)));
        lemma_join(rules, t, c.tree);
        law_merge_files(rules, t, c.tree, names);
        let u = merge(rules, Node::Dir(t), Node::Dir(c.tree))->Dir_0;
        assert forall|j: int| k <= j < len implies fit(
            Node::Dir(u),
            Node::Dir((#[trigger] cs[j]).tree),
        ) by {
            assert(fit(Node::Dir(cs[k - 1].tree), Node::Dir(cs[j].tree)));
            lemma_fit_join(rules, t, c.tree, cs[j].tree);
        }
        assert(in_any(tree, cs, k, names) <==> in_any(tree, cs, k - 1, names) || file_at(
            c.tree,
            names,
        ) is Some) by {
            if in_any(tree, cs, k - 1, names) && file_at(tree, names) is None {
                let i = choose|i: int| 0 <= i < k - 1 && file_at(
                    (#[trigger] cs[i]).tree,
                    names,
                ) is Some;
                assert(file_at(cs[i].tree, names) is Some);
            }
        }
    }
}

/// Folding loses no path: where the trees of a commit and of its folded parents fit, the
/// folded tree has a file exactly where one of them has.
pub proof fn law_folded_files(rules: Rules, tree: Dir, cs: Seq<CommitView>, names: Seq<Seq<u8>>)
    requires
        all_fit(rules, tree, cs, cs.len() as int),
    ensures
        folded(rules, tree, cs, cs.len() as int) matches Ok(t) && tidy(
            rules,
            Node::Dir(t),
        ) && (file_at(t, names)
            is Some <==> in_any(tree, cs, cs.len() as int, names)),
{
    lemma_folded(rules, tree, cs, cs.len() as int, cs.len() as int, names);
}

/// A folded commit has all files that the commit and its folded parents have, and no
/// others, where there is a folded commit for each parent and their trees fit.
pub proof fn law_fold_commit_files(
    rules: Rules,
    c: CommitView,
    s: MapsView,
    n: nat,
    names: Seq<Seq<u8>>,
)
    requires
        !known(s, spec_text(FilterView::Fold), c),
        ({
            let ps = filtered_parents(rules, FilterView::Fold, c, s, n, c.parents.len() as int).0;
            let there = present(ps, ps.len() as int);
            there.len() == ps.len() && all_fit(rules, c.tree, there, there.len() as int)
        }),
    ensures
        ({
            let ps = filtered_parents(rules, FilterView::Fold, c, s, n, c.parents.len() as int).0;
            let there = present(ps, ps.len() as int);
            match apply_commit(rules, FilterView::Fold, c, s, n).0 {
                Ok(Some(x)) => file_at(x.tree, names) is Some <==> in_any(
                    c.tree,
                    there,
                    there.len() as int,
                    names,
                ),
                Ok(None) => !in_any(c.tree, there, there.len() as int, names),
                Err(_) => false,
            }
        }),
{
    let ps = filtered_parents(rules, FilterView::Fold, c, s, n, c.parents.len() as int).0;
    let there = present(ps, ps.len() as int);
    law_folded_files(rules, c.tree, there, names);
    let t = folded(rules, c.tree, there, there.len() as int)->Ok_0;
    law_created_tree(c, there, t);
    assert(apply_commit(rules, FilterView::Fold, c, s, n).0 == Ok::<Option<CommitView>, ErrorView>(
        created(c, there, t),
    ));
    if t == empty_dir() && names.len() > 0 {
        assert(child(t, names[0]) is None);
    }
}

/// What fits with the tree and with those of the commits fits with the folded tree.
proof fn lemma_folded_fits(rules: Rules, tree: Dir, cs: Seq<CommitView>, k: int, w: Dir)
    requires
        0 <= k <= cs.len(),
        all_fit(rules, tree, cs, cs.len() as int),
        fit(Node::Dir(w), Node::Dir(tree)),
        forall|i: int| 0 <= i < cs.len() ==> fit(Node::Dir(w), Node::Dir((#[trigger] cs[i]).tree)),
    ensures
        folded(rules, tree, cs, k) matches Ok(t) && fit(Node::Dir(w), Node::Dir(t)),
    decreases k,
{
    if k > 0 {
        lemma_folded_fits(rules, tree, cs, k - 1, w);
        lemma_folded(rules, tree, cs, k - 1, cs.len() as int, Seq::empty());
        let t = folded(rules, tree, cs, k - 1)->Ok_0;
        let c = cs[k - 1];
        assert(fit(Node::Dir(t), Node::Dir(c.tree)));
        assert(tidy(rules, Node::Dir(c.tree)));
        lemma_join(rules, t, c.tree);
        lemma_fit_symmetric(Node::Dir(w), Node::Dir(t));
        lemma_fit_symmetric(Node::Dir(w), Node::Dir(c.tree));
        lemma_fit_join(rules, t, c.tree, w);
        lemma_fit_symmetric(merge(rules, Node::Dir(t), Node::Dir(c.tree)), Node::Dir(w));
    }
}

/// Where all commits that were asked for are there, they are there in order.
proof fn lemma_present_full(vs: Seq<Option<CommitView>>, k: int)
    requires
        0 <= k <= vs.len(),
    ensures
        present(vs, k).len() <= k,
        present(vs, k).len() == k ==> forall|i: int|
            0 <= i < k ==> #[trigger] vs[i] == Some(present(vs, k)[i]),
    decreases k,
{
    if k > 0 {
        lemma_present_full(vs, k - 1);
    }
}

/// The trees of the commit and of all commits before it are in the set.
pub open spec fn all_past(c: CommitView, u: Set<Dir>) -> bool
    decreases c,
{
    u.contains(c.tree) && forall|i: int|
        0 <= i < c.parents.len() ==> all_past(#[trigger] c.parents[i], u)
}

/// The path leads to a file in the tree of the commit, or of one before it.
pub open spec fn held(c: CommitView, names: Seq<Seq<u8>>) -> bool
    decreases c,
{
    file_at(c.tree, names) is Some || exists|i: int|
        0 <= i < c.parents.len() && held(#[trigger] c.parents[i], names)
}

/// The trees in the set are tidy, and fit with each other.
pub open spec fn set_fits(rules: Rules, u: Set<Dir>) -> bool {
    &&& forall|d: Dir| #[trigger] u.contains(d) ==> tidy(rules, Node::Dir(d))
    &&& forall|d: Dir, e: Dir| #[trigger]
        u.contains(d) && #[trigger] u.contains(e) ==> fit(Node::Dir(d), Node::Dir(e))
}

/// The tree fits with all in the set.
pub open spec fn fits_set(w: Dir, u: Set<Dir>) -> bool {
    forall|d: Dir| #[trigger] u.contains(d) ==> fit(Node::Dir(w), Node::Dir(d))
}

/// A folded commit has exactly the files that the commit or one before it has. Its tree is
/// tidy, and fits with what fits with all trees of the set.
pub open spec fn holds_past(rules: Rules, u: Set<Dir>) -> Link {
    |c: CommitView, v: Option<CommitView>|
        all_past(c, u) && v is Some ==> {
            &&& tidy(rules, Node::Dir(v->0.tree))
            &&& forall|w: Dir| #[trigger] fits_set(w, u) ==> fit(Node::Dir(w), Node::Dir(v->0.tree))
            &&& forall|names: Seq<Seq<u8>>|
                (#[trigger] file_at(v->0.tree, names)) is Some <==> held(c, names)
        }
}

/// What holds of the folded parents of a commit holds of the folded commit.
proof fn lemma_fold_step(
    rules: Rules,
    c: CommitView,
    vs: Seq<Option<CommitView>>,
    n: nat,
    u: Set<Dir>,
)
    requires
        set_fits(rules, u),
        vs.len() == c.parents.len(),
        forall|i: int| 0 <= i < vs.len() ==> holds_past(rules, u)(c.parents[i], #[trigger] vs[i]),
    ensures
        holds_past(rules, u)(c, outcome(rules, FilterView::Fold, c, vs, n)),
{
    let r = holds_past(rules, u);
    let len = vs.len() as int;
    let there = present(vs, len);
    lemma_present_full(vs, len);
    let v = outcome(rules, FilterView::Fold, c, vs, n);
    if all_past(c, u) && v is Some {
        assert forall|i: int| 0 <= i < len implies {
            let x = (#[trigger] there[i]).tree;
            &&& tidy(rules, Node::Dir(x))
            &&& fits_set(x, u)
            &&& forall|w: Dir| #[trigger] fits_set(w, u) ==> fit(Node::Dir(w), Node::Dir(x))
            &&& forall|names: Seq<Seq<u8>>|
                (#[trigger] file_at(x, names)) is Some <==> held(c.parents[i], names)
        } by {
            assert(vs[i] == Some(there[i]));
            assert(r(c.parents[i], vs[i]));
            assert(all_past(c.parents[i], u));
            let x = there[i].tree;
            assert forall|d: Dir| #[trigger] u.contains(d) implies fit(
                Node::Dir(x),
                Node::Dir(d),
            ) by {
                assert(fits_set(d, u));
                lemma_fit_symmetric(Node::Dir(d), Node::Dir(x));
            }
        }
        assert(u.contains(c.tree));
        assert(fits_set(c.tree, u));
        assert(all_fit(rules, c.tree, there, len)) by {
            assert forall|i: int, j: int| 0 <= i < j < len implies fit(
                Node::Dir((#[trigger] there[i]).tree),
                Node::Dir((#[trigger] there[j]).tree),
            ) by {
                assert(fits_set(there[i].tree, u));
            }
        }
        let none = Seq::<Seq<u8>>::empty();
        lemma_folded(rules, c.tree, there, len, len, none);
        let t = folded(rules, c.tree, there, len)->Ok_0;
        law_created_tree(c, there, t);
        assert(v->0.tree == t);
        assert forall|w: Dir| #[trigger] fits_set(w, u) implies fit(Node::Dir(w), Node::Dir(t)) by {
            lemma_folded_fits(rules, c.tree, there, len, w);
        }
        assert forall|names: Seq<Seq<u8>>| (#[trigger] file_at(t, names)) is Some <==> held(
            c,
            names,
        ) by {
            lemma_folded(rules, c.tree, there, len, len, names);
            if in_any(c.tree, there, len, names) && file_at(c.tree, names) is None {
                let i = choose|i: int| 0 <= i < len && file_at(
                    (#[trigger] there[i]).tree,
                    names,
                ) is Some;
                assert(held(c.parents[i], names));
            }
            if held(c, names) && file_at(c.tree, names) is None {
                let i = choose|i: int| 0 <= i < c.parents.len() && held(
                    #[trigger] c.parents[i],
                    names,
                );
                assert(file_at(there[i].tree, names) is Some);
            }
        }
    }
}

/// A path that led to a file once never disappears: a folded commit has a file exactly
/// where the commit or one before it has, where all trees of the history fit with each
/// other and that held of what was known.
pub proof fn law_fold_history(rules: Rules, c: CommitView, s: MapsView, n: nat, u: Set<Dir>)
    requires
        set_fits(rules, u),
        all_past(c, u),
        all_linked(s, spec_text(FilterView::Fold), holds_past(rules, u)),
    ensures
        cached(rules, FilterView::Fold, c, s, n).0 matches Some(x) ==> forall|names: Seq<Seq<u8>>|
            (#[trigger] file_at(x.tree, names)) is Some <==> held(c, names),
{
    let f = FilterView::Fold;
    let r = holds_past(rules, u);
    assert forall|c: CommitView, vs: Seq<Option<CommitView>>|
        vs.len() == c.parents.len() && apply_tree(rules, f, c.tree, n) is Ok && (forall|i: int|
            0 <= i < vs.len() ==> r(c.parents[i], #[trigger] vs[i])) implies r(
        c,
        #[trigger] outcome(rules, f, c, vs, n),
    ) by {
        lemma_fold_step(rules, c, vs, n, u);
    }
    lemma_linked_cached(rules, f, c, s, n, r);
}

/// The two halves of a tidy directory that a pattern parts are tidy, fit, and merge to it.
pub proof fn lemma_halves(rules: Rules, d: Dir, root: Seq<char>, pattern: Seq<char>)
    requires
        tidy(rules, Node::Dir(d)),
    ensures
        ({
            let k = Node::Dir(strip(rules, Node::Dir(d), root, pattern, false, false));
            let r = Node::Dir(strip(rules, Node::Dir(d), root, pattern, true, false));
            &&& tidy(rules, k) && tidy(rules, r)
            &&& fit(k, r)
            &&& merge(rules, k, r) == Node::Dir(d)
            &&& merge(rules, r, k) == Node::Dir(d)
        }),
    decreases Node::Dir(d),
{
    let k = strip(rules, Node::Dir(d), root, pattern, false, false);
    let r = strip(rules, Node::Dir(d), root, pattern, true, false);
    assert forall|name: Seq<u8>|
        #![trigger k.dom().contains(name)]
        #![trigger r.dom().contains(name)]
        {
            &&& (k.dom().contains(name) || r.dom().contains(name) ==> d.dom().contains(name)
                && name_ok(rules, name) && valid_utf8(name))
            &&& (k.dom().contains(name) ==> k[name] != Node::Dir(empty_dir()) && tidy(
                rules,
                k[name],
            ))
            &&& (r.dom().contains(name) ==> r[name] != Node::Dir(empty_dir()) && tidy(
                rules,
                r[name],
            ))
            &&& (k.dom().contains(name) && r.dom().contains(name) ==> fit(k[name], r[name])
                && merge(rules, k[name], r[name]) == d[name] && merge(
                    rules,
                    r[name],
                    k[name],
                ) == d[name])
            &&& (k.dom().contains(name) && !r.dom().contains(name) ==> k[name] == d[name])
            &&& (!k.dom().contains(name) && r.dom().contains(name) ==> r[name] == d[name])
            &&& (d.dom().contains(name) ==> k.dom().contains(name) || r.dom().contains(name))
        } by {
        lemma_kept(rules, d, root, pattern, false, name);
        lemma_kept(rules, d, root, pattern, true, name);
        assert(child(k, name) is Some <==> k.dom().contains(name));
        assert(child(r, name) is Some <==> r.dom().contains(name));
        if d.dom().contains(name) {
            assert(tidy(rules, d[name]));
            assert(decreases_to!(Node::Dir(d) => d[name]));
            if let Node::Dir(m) = d[name] {
                lemma_halves(rules, m, dir_path(root, decode_utf8(name)), pattern);
            }
        }
    }
    assert(tidy(rules, Node::Dir(k)));
    assert(tidy(rules, Node::Dir(r)));
    assert(fit(Node::Dir(k), Node::Dir(r)));
    lemma_join(rules, k, r);
    let x = merge(rules, Node::Dir(k), Node::Dir(r))->Dir_0;
    let y = merge(rules, Node::Dir(r), Node::Dir(k))->Dir_0;
    assert forall|name: Seq<u8>| #[trigger] child(x, name) == child(d, name) by {
        assert(child(x, name) == joined_child(rules, k, r, name));
        assert(k.dom().contains(name) || !k.dom().contains(name));
        assert(r.dom().contains(name) || !r.dom().contains(name));
    }
    lemma_same_dir(x, d);
    assert forall|name: Seq<u8>| #[trigger] child(y, name) == child(d, name) by {
        assert(child(y, name) == joined_child(rules, r, k, name));
        assert(k.dom().contains(name) || !k.dom().contains(name));
        assert(r.dom().contains(name) || !r.dom().contains(name));
    }
    lemma_same_dir(y, d);
}

/// A pattern parts a tidy directory, wherever it stands, in two: each file is in that half
/// to which its path belongs and not in the other, and the halves laid over each other, in
/// either order, give the directory back.
pub proof fn law_strip_halves(
    rules: Rules,
    d: Dir,
    root: Seq<char>,
    pattern: Seq<char>,
    names: Seq<Seq<u8>>,
)
    requires
        tidy(rules, Node::Dir(d)),
    ensures
        ({
            let k = strip(rules, Node::Dir(d), root, pattern, false, false);
            let r = strip(rules, Node::Dir(d), root, pattern, true, false);
            &&& mergeable(Node::Dir(k), Node::Dir(r))
            &&& mergeable(Node::Dir(r), Node::Dir(k))
            &&& merge(rules, Node::Dir(k), Node::Dir(r)) == Node::Dir(d)
            &&& merge(rules, Node::Dir(r), Node::Dir(k)) == Node::Dir(d)
            &&& file_at(d, names) is Some ==> {
                let hit = pattern_hits(pattern, path_text(root, names));
                &&& file_at(k, names) == (if hit {
                    file_at(d, names)
                } else {
                    None
                })
                &&& file_at(r, names) == (if hit {
                    None
                } else {
                    file_at(d, names)
                })
            }
            &&& file_at(d, names) is None ==> file_at(k, names) is None && file_at(r, names) is None
        }),
{
    let k = strip(rules, Node::Dir(d), root, pattern, false, false);
    let r = strip(rules, Node::Dir(d), root, pattern, true, false);
    lemma_halves(rules, d, root, pattern);
    lemma_join(rules, k, r);
    if names.len() > 0 {
        law_strip_keeps(rules, d, root, pattern, false, names);
        law_strip_keeps(rules, d, root, pattern, true, names);
        if file_at(d, names) is Some {
            lemma_tidy_names(rules, d, names);
        }
    }
}

/// The names that lead to a file of a tidy tree are in order.
pub proof fn lemma_tidy_names(rules: Rules, d: Dir, names: Seq<Seq<u8>>)
    requires
        tidy(rules, Node::Dir(d)),
        file_at(d, names) is Some,
    ensures
        names_ok(rules, names),
    decreases names.len(),
{
    let rest = names.skip(1);
    let name = names[0];
    assert(d.dom().contains(name));
    assert(tidy(rules, d[name]));
    if let Node::Dir(m) = d[name] {
        lemma_tidy_names(rules, m, rest);
        assert forall|i: int| 0 <= i < names.len() implies name_ok(
            rules,
            #[trigger] names[i],
        ) by {
            if i > 0 {
                assert(names[i] == rest[i - 1]);
            }
        }
    }
}

} // verus!
